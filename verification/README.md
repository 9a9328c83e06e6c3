# dsh

A library for a desktop agent, verified with Verus: sessions and their logs,
the driver that runs turns of steps, the transcript and the ledger that are
shown of a log, the workspace and settings documents, the file tool and its
policies, and what is typed and sent.

Every function states in its contract what it returns or changes, over plain
mathematical values. The public `proof` functions state what holds of several
of them together.

- `src/session.rs`, `src/boundary.rs`, `src/agent.rs`, `src/driver.rs`: messages,
  the log, turns and steps.
- `src/chat.rs`, `src/fold.rs`, `src/rows.rs`, `src/cards.rs`, `src/panels.rs`,
  `src/usage.rs`, `src/clock.rs`: the transcript.
- `src/traj.rs`, `src/ledger.rs`, `src/details.rs`, `src/process.rs`: the ledger.
- `src/fs.rs`, `src/files.rs`, `src/natural.rs`, `src/filetype.rs`, `src/dock.rs`:
  files.
- `src/workspace.rs`, `src/roster.rs`, `src/view_split.rs`, `src/host.rs`:
  workspaces and sessions.
- `src/settings.rs`, `src/legacy.rs`, `src/providers.rs`, `src/discover.rs`: settings
  and providers.
- `src/composer.rs`, `src/menus.rs`: what is typed.
- `src/text.rs`, `src/assoc.rs`, `src/json.rs`, `src/yaml.rs`: texts and documents.

`app/` is a program in the terminal around the library. It reads and writes the
files, runs the loop and prints.

use dsh::dock::{split_path, DockState, DockTab, FilePreview, TreeRow};
use dsh::files::{DirEntry, DirEntryKind, DirLevel, FilesErrorKind, PreviewErrorKind, TextPage};

fn page(text: &str, lines: usize, eof: bool) -> Result<TextPage, PreviewErrorKind> {
    Ok(TextPage { text: text.to_string(), lines, eof })
}

#[test]
fn pages_add_up() {
    let mut p = FilePreview::new("/w/a.txt".to_string());
    assert_eq!((p.loaded_through, p.eof), (0, false));
    p.accept(page("a\nb", 2, false));
    p.accept(page("c", 1, true));
    assert_eq!(p.lines, vec!["a", "b", "c"]);
    assert_eq!(p.loaded_through, 3);
    assert!(p.eof);
    p.accept(page("", 0, true));
    assert_eq!((p.lines.len(), p.loaded_through), (3, 3));
    p.accept(page("", 1, true));
    assert_eq!((p.lines.len(), p.loaded_through), (4, 4));
    p.lines.pop();
    p.loaded_through = 3;
    p.accept(Err(PreviewErrorKind::NotText));
    assert_eq!(p.failure, Some(PreviewErrorKind::NotText));
    assert_eq!(p.lines.len(), 3);
    p.restart();
    assert!(p.lines.is_empty() && !p.eof && p.failure.is_none());
    p.no_workspace();
    assert!(matches!(p.failure, Some(PreviewErrorKind::Unavailable(_))));
}

#[test]
fn paths_are_split_at_the_last_separator() {
    let (dir, name) = split_path("/w/src/a.rs");
    assert_eq!(name, "a.rs");
    assert!(dir.starts_with("/w/src"));
    assert_eq!(split_path("a.rs").1, "a.rs");
}

#[test]
fn an_open_file_has_one_tab() {
    let mut d = DockState::new();
    d.dock_toggle_open(Some("/w".to_string()));
    assert!(d.open);
    assert_eq!(d.tabs, vec![DockTab::Files]);
    assert!(!d.show_preview("/w/a"));
    d.add_preview(FilePreview::new("/w/a".to_string()));
    d.add_preview(FilePreview::new("/w/b".to_string()));
    assert_eq!(d.tabs.len(), 3);
    assert!(d.show_preview("/w/a"));
    assert_eq!(d.tabs.len(), 3);
    assert_eq!(d.active_preview(), Some(0));
    assert_eq!(d.tab_title(d.active), "a");
    d.preview_toggle_wrap();
    assert!(d.files[0].wrap && !d.files[1].wrap);
}

#[test]
fn closing_a_tab_renumbers_the_others() {
    let mut d = DockState::new();
    d.dock_toggle_open(None);
    d.add_preview(FilePreview::new("/w/a".to_string()));
    d.add_preview(FilePreview::new("/w/b".to_string()));
    d.dock_close(1);
    assert_eq!(d.tabs, vec![DockTab::Files, DockTab::File(0)]);
    assert_eq!(d.files[0].path, "/w/b");
    d.dock_close(7);
    d.dock_close(0);
    d.dock_close(0);
    assert!(d.tabs.is_empty() && !d.open);
    d.dock_add();
    assert_eq!(d.tabs, vec![DockTab::Files]);
    d.dock_activate(9);
    assert_eq!(d.active, 0);
}

fn level(names: &[(&str, DirEntryKind)]) -> DirLevel {
    DirLevel {
        entries: names
            .iter()
            .map(|(n, k)| DirEntry { name: n.to_string(), kind: *k, size: None })
            .collect(),
        truncated: false,
    }
}

#[test]
fn the_tree_shows_what_is_unfolded() {
    let mut d = DockState::new();
    assert_eq!(d.dock_toggle_open(Some("/w".to_string())).as_deref(), Some("/w"));
    d.dock_loaded(
        "/w".to_string(),
        Ok(level(&[("a.rs", DirEntryKind::File), ("src", DirEntryKind::Directory)])),
    );
    let rows = d.tree_rows().unwrap();
    assert_eq!(rows.len(), 2);
    assert!(matches!(&rows[0], TreeRow::Dir { name, expanded: false, .. } if name == "src"));
    assert!(matches!(&rows[1], TreeRow::File { name, .. } if name == "a.rs"));
    assert!(d.dock_toggle_dir("/w/src"));
    d.dock_loaded("/w/src".to_string(), Err((FilesErrorKind::NotFound, String::new())));
    let rows = d.tree_rows().unwrap();
    assert_eq!(rows.len(), 3);
    assert!(matches!(&rows[1], TreeRow::Note { depth: 1, .. }));
    assert!(!d.dock_toggle_dir("/w/src"));
    assert_eq!(d.tree_rows().unwrap().len(), 2);
    d.dock_toggle_dir("/w/src");
    assert_eq!(d.dock_reload_tree(), vec!["/w/src"]);
    assert!(d.levels.is_empty());
    d.dock_sync_root(Some("/other".to_string()));
    assert!(d.levels.is_empty() && d.expanded.is_empty());
}

//! Session, file and trajectory logic of a desktop coding agent.

pub mod agent;
pub mod assoc;
pub mod boundary;
pub mod cards;
pub mod chat;
pub mod clock;
pub mod composer;
pub mod details;
pub mod discover;
pub mod dock;
pub mod driver;
pub mod files;
pub mod fold;
pub mod filetype;
pub mod fs;
pub mod host;
pub mod json;
pub mod ledger;
pub mod legacy;
pub mod menus;
pub mod natural;
pub mod panels;
pub mod process;
pub mod providers;
pub mod roster;
pub mod rows;
pub mod session;
pub mod settings;
pub mod text;
pub mod traj;
pub mod usage;
pub mod view_split;
pub mod workspace;
pub mod yaml;

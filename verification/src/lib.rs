//! The decisions of a terminal text editor: formatting, shortcuts, settings, sessions, the
//! Markdown preview, the picker and the editor view, each as a function with a contract.

pub mod auto_save;
pub mod bindings;
pub mod clash_laws;
pub mod config;
pub mod disk_changes;
pub mod editor;
pub mod filter;
pub mod format;
pub mod git;
pub mod graphics;
pub mod input;
pub mod keymap;
pub mod markdown;
pub mod paths;
pub mod picker;
pub mod session;
pub mod session_toml;
pub mod settings;
pub mod settings_laws;
pub mod shortcut_laws;
pub mod shortcut_list_laws;
pub mod shortcuts;
pub mod sort;
pub mod text;
pub mod theme;
pub mod toml_file;
pub mod toml_tree;
pub mod width;

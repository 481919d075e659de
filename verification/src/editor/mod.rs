//! The editor's view: what is drawn over the text, the tabs above it, and what the keys and
//! the mouse ask for.

pub mod bufferline;
pub mod diagnostics;
pub mod highlights;
pub mod keys;
pub mod laws;
pub mod layout;
pub mod mark_laws;
pub mod menus;
pub mod mouse;
pub mod screen_laws;
pub mod tab_laws;
pub mod view;

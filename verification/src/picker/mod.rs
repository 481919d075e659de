//! The picker: a list narrowed by what is typed, with the boxes and switches of its panel.

pub mod cells;
pub mod draw_laws;
pub mod events;
pub mod laws;
pub mod layout;
pub mod list;
pub mod panel;
pub mod preview;
pub mod query_laws;
pub mod rows;

//! Markdown drawn as it reads: headings, lists, quotes, tables and code, reflowed to a
//! panel's width.

pub mod events;
pub mod html;
pub mod html_laws;
pub mod laws;
pub mod look;
pub mod preview;
pub mod preview_laws;
pub mod render;
pub mod said;
pub mod sheet;
pub mod table;
pub mod table_laws;
pub mod wrap;
pub mod wrap_laws;

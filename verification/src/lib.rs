//! Pretty-printing of tree-shaped documents (numbers, texts, truth values,
//! null, arrays and key-ordered objects) as indented text.
//!
//! [`Json`] is the document, [`Object`] the mapping that keeps its members in
//! ascending order of their keys, and [`Json::pretty`] and
//! [`Json::to_string`] write the text. What the text is, is said once, by
//! [`render::render`] over the model [`Value`]; `layout` proves what holds of
//! every such text.

pub mod decimal;
pub mod key_order;
pub mod layout;
pub mod render;
pub mod utf8_order;
pub mod value;

pub use value::{Json, Object, Value};

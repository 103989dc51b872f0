//! A self-contained JSON text parser and canonical pretty-printer.
//!
//! `parser::parse` turns a text buffer into a [`json_object::JSONObject`]
//! tree; `renderer::render_indent` (or the tree's own `render` method) turns
//! a tree back into indented text.  Both directions are specified against a
//! shared mathematical model, [`json_object::JsonVal`].

pub mod json_object;
pub mod laws;
pub mod parser;
pub mod renderer;
pub mod text;

pub use json_object::JSONObject;
pub use parser::parse;
pub use parser::ParseError;

//! An in-memory XML reader and writer.
//!
//! The crate parses XML-like markup (`<tag attr="v">...</tag>`,
//! `<tag attr="v"/>`, and `<?...?>` declarations, which are skipped) into a
//! tree of [`Node`] values, and renders such a tree back to text in a compact
//! and an indented form.
//!
//! It does not resolve namespaces, validate against a DTD or schema, expand
//! entities, or handle CDATA sections; input is assumed to be decoded text.

pub mod error;
pub mod node;
pub mod parse;
pub mod render;
pub mod split;
pub mod text;

pub use error::Error;
pub use node::{new, new_filled, Group, Node};
pub use parse::from_string;

//! Decoding of XML documents into typed values, driven by the shape of the
//! destination type.
//!
//! - `attrs`: attribute lists, kept in ascending key order with unique keys.
//! - `node`: the document tree, its model, and the builder that turns
//!   tokenizer events into a tree.
//! - `document`: the `xml` crate's tokenizer, feeding the builder.
//! - `scalar`: integers and characters read from text.
//! - `decode`: the decode engine, one operation per kind of value.
//! - `laws`: properties that hold of every document.
//!
//! Two encodings are kept for compatibility although they are narrow: a
//! boolean is a byte (nonzero is true), and an optional value is present
//! exactly when its element is, so an empty element is an empty value.
pub mod attrs;
pub mod decode;
pub mod document;
pub mod laws;
pub mod node;
pub mod scalar;

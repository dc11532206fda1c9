//! A verified PDF syntax engine.
//!
//! The crate turns a random-access byte source into a structured object
//! model: a tokenizer for PDF's lexical grammar, a recursive-descent
//! object parser, and cross-reference / trailer resolution for
//! incrementally updated files.  Stream payloads, encryption and page
//! content are out of scope.

pub mod bytes;
pub mod document;
pub mod error;
pub mod objects;
pub mod parser;
pub mod sequence;
pub mod tokenizer;
pub mod vpdf;

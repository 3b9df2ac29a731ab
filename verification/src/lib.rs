//! An HTML tokenizer and a tree builder with verified contracts.

pub mod chars;
pub mod dom;
pub mod dom_laws;
pub mod reparse;
pub mod round_trip;
pub mod token;
pub mod tokenizer;
pub mod tokenizer_laws;

pub use dom::{parse_document, serialize_node, Document, Element, Node, TreeBuilder};
pub use token::{Attribute, CollectingSink, Token, TokenSink};
pub use tokenizer::{tokenize, Tokenizer};

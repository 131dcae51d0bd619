//! Core data structures of a browser rendering engine's front end:
//! an arena-based document (DOM) tree with verified link discipline,
//! and a CSS lexical tokenizer with a full functional specification.

pub mod attribute;
pub mod node;
pub mod token;

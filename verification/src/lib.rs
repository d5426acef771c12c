//! An inline-markup parser: a tokenizer that splits a character stream into
//! delimiter and text tokens, and a recursive-descent parser that matches
//! delimiter pairs into a tree of typed nodes.

pub mod tokenizer;
pub mod parser;

//! A verified JSON processing library: a tokenizer with an embedded
//! state-machine scanner for numeric literals, a recursive-descent parser
//! that builds an abstract syntax tree, and two renderers (compact and
//! indented) that turn the tree back into text.

pub mod number;
pub mod parser;
pub mod tokenizer;
mod text;

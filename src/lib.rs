//! Synthesis of regular expressions from example strings: the expression
//! tree, its precedence-aware printer, escaping and character classes.

pub mod ast;
pub mod builder;
pub mod escape;
pub mod feature;
pub mod fmt;
pub mod ingest;
pub mod lang;
pub mod palette;
pub mod repetition;

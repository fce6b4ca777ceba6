//! An iterative JSON parser: a single pass over the characters of the text,
//! driven by explicit stacks instead of recursion, with a proof that it
//! computes the state machine defined in `machine`.
pub mod chars;
pub mod error;
pub mod laws;
pub mod machine;
pub mod parser;
mod stack;
pub mod value;

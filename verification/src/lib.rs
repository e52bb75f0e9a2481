//! Terms of the affine lambda calculus: a parser that enforces the affine
//! discipline while it reads, and a normalizer that reduces by substitution.

pub mod grammar;
pub mod normalizer;
pub mod parser;
pub mod reduction;
pub mod term;
pub mod termination;

pub use normalizer::{normalize, normalize_within, substitute};
pub use parser::{ParseError, Parser};
pub use term::Term;

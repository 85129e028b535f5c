//! Grammars of single languages.

use vstd::prelude::*;

pub mod json;

verus! {

/// A language that can make a parser for itself.
pub trait Language {
    fn new_parser() -> tree_sitter::Parser;
}

} // verus!

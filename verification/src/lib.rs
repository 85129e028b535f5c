//! A structural text-editing core: a grammar model, a token buffer with its
//! edit engine, and a width-constrained layout of the parse tree.

pub mod data;
pub mod editor;
pub mod language;
pub mod languages;
pub mod spec;
pub mod text;

//! The editor's core: the layout of a parse tree and the token buffer.

pub mod buffer;
pub mod layout;
pub mod reflow;
pub mod solid;
pub mod state;
pub mod tree;
pub mod wrapping;

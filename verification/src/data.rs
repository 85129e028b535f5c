//! Tokens, the unit of document text.

use vstd::prelude::*;

verus! {

/// A classified piece of document text.
#[derive(Clone, Debug)]
pub struct Token {
    /// The id of the token's category in the grammar.
    pub tp: u16,
    /// The token's text.
    pub str: String,
}

impl Token {
    /// Makes a token of category `tp` that holds a copy of `str`.
    pub fn new(tp: u16, str: &str) -> (t: Token)
        ensures
            t.tp == tp,
            t.str@ == str@,
    {
        Token { tp, str: str.to_string() }
    }

    /// A copy of the token.
    pub fn snapshot(&self) -> (t: Token)
        ensures
            t == *self,
    {
        Token { tp: self.tp, str: self.str.clone() }
    }

    /// Whether the token holds no text.
    pub open spec fn blank(&self) -> bool {
        self.str@.len() == 0
    }

    /// Whether the token holds no text.
    pub fn is_empty(&self) -> (b: bool)
        ensures
            b == self.blank(),
    {
        self.str.as_str().is_empty()
    }

    /// The text to show and to measure for the token: its own text, or a mark
    /// where it has none.
    pub fn shown_text(&self) -> (s: &str)
        ensures
            s@ == if self.blank() {
                "*"@
            } else {
                self.str@
            },
    {
        if self.str.as_str().is_empty() {
            "*"
        } else {
            self.str.as_str()
        }
    }
}

} // verus!

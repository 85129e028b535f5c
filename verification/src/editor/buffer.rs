//! The token buffer as a value, and what each edit makes of it.
//!
//! The buffer is a row of tokens, a cursor that stands in one of them, and a
//! count of the parses made. Every edit is a function from buffer to buffer
//! that also says, in order, which parses it asks for.

use crate::data::Token;
use crate::language::{acceptance, outcome, Classification};
use crate::spec::NodeSpec;
use crate::text::{boundary, byte_len, grapheme_after, grapheme_before, spliced};
use vstd::prelude::*;

verus! {

/// A range of text inside one token, by byte offsets: from the edge that
/// stays to the edge that moves. With both at one place it is a caret.
#[derive(Clone, Copy, Debug, PartialEq, Eq, Structural)]
pub struct Selection {
    pub start: usize,
    pub end: usize,
}

impl Selection {
    /// The smaller of the two edges.
    pub open spec fn low(self) -> usize {
        if self.start <= self.end {
            self.start
        } else {
            self.end
        }
    }

    /// The larger of the two edges.
    pub open spec fn high(self) -> usize {
        if self.start <= self.end {
            self.end
        } else {
            self.start
        }
    }

    /// Whether both edges stand on character boundaries of `text`.
    pub open spec fn fits(self, text: Seq<char>) -> bool {
        boundary(text, self.start as int) && boundary(text, self.end as int)
    }

    /// The selection from `start` to `end`.
    pub fn new(start: usize, end: usize) -> (s: Selection)
        ensures
            s == (Selection { start, end }),
    {
        Selection { start, end }
    }

    /// The caret at `pos`.
    pub fn caret(pos: usize) -> (s: Selection)
        ensures
            s == (Selection { start: pos, end: pos }),
    {
        Selection { start: pos, end: pos }
    }

    /// Whether both edges stand at one place.
    pub fn is_caret(self) -> (b: bool)
        ensures
            b == (self.start == self.end),
    {
        self.start == self.end
    }

    /// The smaller of the two edges.
    pub fn min(self) -> (m: usize)
        ensures
            m == self.low(),
    {
        if self.start <= self.end {
            self.start
        } else {
            self.end
        }
    }

    /// The larger of the two edges.
    pub fn max(self) -> (m: usize)
        ensures
            m == self.high(),
    {
        if self.start <= self.end {
            self.end
        } else {
            self.start
        }
    }

    /// The selection with each edge moved back to `len` where it lies behind
    /// it.
    pub fn constrain_to(self, len: usize) -> (s: Selection)
        ensures
            s.start == if self.start <= len {
                self.start
            } else {
                len
            },
            s.end == if self.end <= len {
                self.end
            } else {
                len
            },
    {
        Selection {
            start: if self.start <= len {
                self.start
            } else {
                len
            },
            end: if self.end <= len {
                self.end
            } else {
                len
            },
        }
    }
}

/// A way to move the cursor.
#[derive(Clone, Copy, Debug, PartialEq, Eq, Structural)]
pub enum Movement {
    /// To the left by one user-perceived character.
    Left,
    /// To the right by one user-perceived character.
    Right,
    /// To the start of the token.
    LeftOfLine,
    /// To the end of the token.
    RightOfLine,
}

/// A request to the parser: the tokens from `start` to `old_end` have become
/// the tokens from `start` to `new_end`.
#[derive(Clone, Copy, Debug, PartialEq, Eq, Structural)]
pub struct Reparse {
    pub start: usize,
    pub old_end: usize,
    pub new_end: usize,
}

/// A token as a value.
pub struct TokenView {
    pub tp: u16,
    pub text: Seq<char>,
}

/// The tokens as values.
pub open spec fn token_views(tokens: Seq<Token>) -> Seq<TokenView> {
    Seq::new(tokens.len(), |i: int| TokenView { tp: tokens[i].tp, text: tokens[i].str@ })
}

/// What the parser reads of the tokens: of each its category, cut to one
/// byte.
pub open spec fn stream_of(tokens: Seq<TokenView>) -> Seq<u8> {
    Seq::new(tokens.len(), |i: int| (tokens[i].tp % 256) as u8)
}

/// The buffer as a value.
pub struct Buffer {
    /// The tokens in order.
    pub tokens: Seq<TokenView>,
    /// The index of the token in which the cursor stands.
    pub token: int,
    /// The cursor's place in that token.
    pub selection: Selection,
    /// The number of parses made, counted in 64 bits.
    pub version: u64,
    /// The parses asked for, in order.
    pub log: Seq<Reparse>,
}

/// The caret at `at`.
pub open spec fn caret_at(at: int) -> Selection {
    Selection { start: at as usize, end: at as usize }
}

/// Whether the token is of a category of the grammar.
pub open spec fn known(kinds: Seq<NodeSpec>, t: TokenView) -> bool {
    t.tp < kinds.len() && kinds[t.tp as int] is Token
}

/// Whether the token is of a separator category.
pub open spec fn sep(kinds: Seq<NodeSpec>, t: TokenView) -> bool {
    known(kinds, t) && kinds[t.tp as int]->Token_0.separator_class()
}

/// The empty token that is put where the buffer would start or end with a
/// separator.
pub open spec fn placeholder(fallback: u16) -> TokenView {
    TokenView { tp: fallback, text: Seq::empty() }
}

/// The version after one more parse.
pub open spec fn bumped(version: u64) -> u64 {
    if version == u64::MAX {
        0
    } else {
        (version + 1) as u64
    }
}

/// Every token is of a category of the grammar, and the cursor stands in a
/// token at a place of its text; with no token at all it stands at the start.
pub open spec fn loose(kinds: Seq<NodeSpec>, b: Buffer) -> bool {
    &&& forall|i: int| 0 <= i < b.tokens.len() ==> known(kinds, #[trigger] b.tokens[i])
    &&& if b.tokens.len() == 0 {
        b.token == 0 && b.selection == caret_at(0)
    } else {
        0 <= b.token < b.tokens.len() && b.selection.fits(b.tokens[b.token].text)
    }
}

/// As [`loose`], but the cursor may also stand behind the last token, at the
/// start of a token that is yet to come.
pub open spec fn hanging(kinds: Seq<NodeSpec>, b: Buffer) -> bool {
    &&& forall|i: int| 0 <= i < b.tokens.len() ==> known(kinds, #[trigger] b.tokens[i])
    &&& 0 <= b.token <= b.tokens.len()
    &&& if b.token == b.tokens.len() {
        b.selection == caret_at(0)
    } else {
        b.selection.fits(b.tokens[b.token].text)
    }
}

/// Whether the token is of a category of the grammar that accepts its text,
/// or of a lexing-error category.
pub open spec fn fitting(kinds: Seq<NodeSpec>, t: TokenView) -> bool {
    known(kinds, t) && (kinds[t.tp as int]->Token_0.lex_error() || kinds[t.tp as int]->Token_0.accepts(
        t.text,
    ))
}

/// Every token but the one at `t` is of a category that accepts its text, or
/// of a lexing-error category.
pub open spec fn fit_but(kinds: Seq<NodeSpec>, b: Buffer, t: int) -> bool {
    forall|i: int| 0 <= i < b.tokens.len() && i != t ==> fitting(kinds, #[trigger] b.tokens[i])
}

/// Every token is of a category that accepts its text, or of a lexing-error
/// category.
pub open spec fn fit(kinds: Seq<NodeSpec>, b: Buffer) -> bool {
    fit_but(kinds, b, -1)
}

/// Neither the first nor the last token is a separator.
pub open spec fn bounded(kinds: Seq<NodeSpec>, b: Buffer) -> bool {
    b.tokens.len() >= 1 && !sep(kinds, b.tokens.first()) && !sep(kinds, b.tokens.last())
}

/// The buffer's invariant between edits.
pub open spec fn settled(kinds: Seq<NodeSpec>, b: Buffer) -> bool {
    loose(kinds, b) && bounded(kinds, b) && fit(kinds, b)
}

/// The buffer after the parse `w` was asked for.
pub open spec fn parsed(b: Buffer, w: Reparse) -> Buffer {
    Buffer { version: bumped(b.version), log: b.log.push(w), ..b }
}

/// One round of mending the ends of the buffer. An empty buffer gets a
/// placeholder. A buffer that starts with a separator gets one in front; the
/// cursor keeps its index and goes to the start of the token that it then
/// stands in. A buffer that ends with a separator gets one at its end. Each
/// asks for the parse of the one new token.
pub open spec fn mended(kinds: Seq<NodeSpec>, fallback: u16, b: Buffer) -> Buffer {
    let len = b.tokens.len();
    if len == 0 {
        parsed(
            Buffer { tokens: seq![placeholder(fallback)], token: 0, selection: caret_at(0), ..b },
            Reparse { start: 0, old_end: 0, new_end: 1 },
        )
    } else if sep(kinds, b.tokens.first()) {
        parsed(
            Buffer {
                tokens: seq![placeholder(fallback)] + b.tokens,
                selection: caret_at(0),
                ..b
            },
            Reparse { start: 0, old_end: 0, new_end: 1 },
        )
    } else if sep(kinds, b.tokens.last()) {
        parsed(
            Buffer { tokens: b.tokens.push(placeholder(fallback)), ..b },
            Reparse { start: len as usize, old_end: len as usize, new_end: (len + 1) as usize },
        )
    } else {
        b
    }
}

/// The buffer after the parse `w` and the mending that follows it: two rounds
/// settle every buffer.
pub open spec fn reparsed(kinds: Seq<NodeSpec>, fallback: u16, b: Buffer, w: Reparse) -> Buffer {
    mended(kinds, fallback, mended(kinds, fallback, parsed(b, w)))
}

/// Two rounds of mending settle the ends of a buffer, where the fallback is
/// a lexing-error category of the grammar. They keep the cursor in a token
/// where it stood in one, and bring it into one where it stood behind the
/// last and a token was put there.
pub proof fn lemma_mended_twice(kinds: Seq<NodeSpec>, fallback: u16, b: Buffer)
    requires
        hanging(kinds, b),
        fitting(kinds, placeholder(fallback)),
        !sep(kinds, placeholder(fallback)),
    ensures
        hanging(kinds, mended(kinds, fallback, b)),
        hanging(kinds, mended(kinds, fallback, mended(kinds, fallback, b))),
        bounded(kinds, mended(kinds, fallback, mended(kinds, fallback, b))),
        loose(kinds, b) ==> loose(kinds, mended(kinds, fallback, b)) && loose(
            kinds,
            mended(kinds, fallback, mended(kinds, fallback, b)),
        ),
        fit(kinds, b) ==> fit(kinds, mended(kinds, fallback, b)) && fit(
            kinds,
            mended(kinds, fallback, mended(kinds, fallback, b)),
        ),
        mended(kinds, fallback, mended(kinds, fallback, mended(kinds, fallback, b))) == mended(
            kinds,
            fallback,
            mended(kinds, fallback, b),
        ),
{
    crate::text::lemma_bytes_of_concat(Seq::<char>::empty(), Seq::<char>::empty());
    assert(Seq::<char>::empty() + Seq::<char>::empty() =~= Seq::<char>::empty());
    let once = mended(kinds, fallback, b);
    let twice = mended(kinds, fallback, once);
    lemma_mended_once(kinds, fallback, b);
    lemma_mended_once(kinds, fallback, once);
}

/// One round of mending keeps what holds of the tokens and of the cursor.
pub proof fn lemma_mended_once(kinds: Seq<NodeSpec>, fallback: u16, b: Buffer)
    requires
        hanging(kinds, b),
        fitting(kinds, placeholder(fallback)),
    ensures
        hanging(kinds, mended(kinds, fallback, b)),
        loose(kinds, b) ==> loose(kinds, mended(kinds, fallback, b)),
        fit(kinds, b) ==> fit(kinds, mended(kinds, fallback, b)),
{
    crate::text::lemma_bytes_of_concat(Seq::<char>::empty(), Seq::<char>::empty());
    assert(Seq::<char>::empty() + Seq::<char>::empty() =~= Seq::<char>::empty());
    let once = mended(kinds, fallback, b);
    lemma_start_fits(Seq::<char>::empty());
    if b.tokens.len() > 0 {
        if sep(kinds, b.tokens.first()) {
            lemma_start_fits(once.tokens[once.token].text);
            assert forall|i: int| 0 <= i < once.tokens.len() implies known(
                kinds,
                #[trigger] once.tokens[i],
            ) && (fit(kinds, b) ==> fitting(kinds, once.tokens[i])) by {
                if i > 0 {
                    assert(once.tokens[i] == b.tokens[i - 1]);
                }
            }
        } else if sep(kinds, b.tokens.last()) {
            assert forall|i: int| 0 <= i < once.tokens.len() implies known(
                kinds,
                #[trigger] once.tokens[i],
            ) && (fit(kinds, b) ==> fitting(kinds, once.tokens[i])) by {
                if i < b.tokens.len() {
                    assert(once.tokens[i] == b.tokens[i]);
                }
            }
        }
    }
}

/// The start of a text is a place for a caret.
pub proof fn lemma_start_fits(text: Seq<char>)
    ensures
        caret_at(0).fits(text),
{
    crate::text::lemma_ends_are_boundaries(text);
}

/// The buffer with token `t` given the category `tp`.
pub open spec fn retagged(b: Buffer, t: int, tp: u16) -> Buffer {
    Buffer { tokens: b.tokens.update(t, TokenView { tp, text: b.tokens[t].text }), ..b }
}

/// The buffer with the text of token `t` replaced.
pub open spec fn rewritten(b: Buffer, t: int, text: Seq<char>) -> Buffer {
    Buffer { tokens: b.tokens.update(t, TokenView { tp: b.tokens[t].tp, text }), ..b }
}

/// The buffer without token `t`.
pub open spec fn removed(b: Buffer, t: int) -> Buffer {
    Buffer { tokens: b.tokens.remove(t), ..b }
}

/// The one outcome of classifying `text`.
pub open spec fn classification(kinds: Seq<NodeSpec>, text: Seq<char>) -> Classification {
    choose|o: Classification| outcome(kinds, acceptance(kinds, text), o)
}

/// The cursor moved out of its token to the left: to the end of the token
/// before it, and past that one too where it is a separator and not the
/// first. In the first token the cursor stays.
pub open spec fn stepped_out_left(kinds: Seq<NodeSpec>, b: Buffer) -> Buffer {
    if b.token > 0 {
        let i = b.token - 1;
        let j = if sep(kinds, b.tokens[i]) && i > 0 {
            i - 1
        } else {
            i
        };
        Buffer { token: j, selection: caret_at(byte_len(b.tokens[j].text)), ..b }
    } else {
        b
    }
}

/// The cursor moved out of its token to the right: to the start of the token
/// behind it, and past that one too where it is a separator and not the
/// last. In the last token the cursor stays.
pub open spec fn stepped_out_right(kinds: Seq<NodeSpec>, b: Buffer) -> Buffer {
    if b.token < b.tokens.len() - 1 {
        let i = b.token + 1;
        let j = if sep(kinds, b.tokens[i]) && i < b.tokens.len() - 1 {
            i + 1
        } else {
            i
        };
        Buffer { token: j, selection: caret_at(0), ..b }
    } else {
        b
    }
}

/// The selection after a movement inside the text. A caret, or a selection
/// that is being extended, goes by one user-perceived character; a selection
/// that is given up collapses to its edge on that side.
pub open spec fn stepped(m: Movement, s: Selection, text: Seq<char>, modify: bool) -> Selection {
    let offset: int = match m {
        Movement::Left => if s.start == s.end || modify {
            match grapheme_before(text, s.end as int) {
                Some(n) => n,
                None => 0,
            }
        } else {
            s.low() as int
        },
        Movement::Right => if s.start == s.end || modify {
            match grapheme_after(text, s.end as int) {
                Some(n) => n,
                None => s.end as int,
            }
        } else {
            s.high() as int
        },
        Movement::LeftOfLine => 0,
        Movement::RightOfLine => byte_len(text),
    };
    Selection {
        start: if modify {
            s.start
        } else {
            offset as usize
        },
        end: offset as usize,
    }
}

/// The buffer after the cursor was moved. At the edge of its token the
/// cursor leaves the token; elsewhere it moves inside the text.
pub open spec fn moved(kinds: Seq<NodeSpec>, b: Buffer, m: Movement, modify: bool) -> Buffer {
    let text = b.tokens[b.token].text;
    if m == Movement::Left && b.selection.end == 0 {
        stepped_out_left(kinds, b)
    } else if m == Movement::Right && b.selection.end == byte_len(text) {
        stepped_out_right(kinds, b)
    } else {
        Buffer { selection: stepped(m, b.selection, text, modify), ..b }
    }
}

/// The buffer after the token under the cursor was brought in line with its
/// text.
///
/// A token without text whose category needs some is taken out, the cursor
/// moving out to the left first. Else a token of a lexing-error category
/// takes the category that its text classifies as, if there is one, and any
/// other token whose category does not accept its text falls back. Each change asks for
/// the parse of that one token.
pub open spec fn synced(kinds: Seq<NodeSpec>, fallback: u16, b: Buffer) -> Buffer {
    let t = b.token;
    let token = b.tokens[t];
    let category = kinds[token.tp as int]->Token_0;
    if token.text.len() == 0 && !category.may_be_empty() {
        reparsed(
            kinds,
            fallback,
            removed(stepped_out_left(kinds, b), t),
            Reparse { start: t as usize, old_end: (t + 1) as usize, new_end: t as usize },
        )
    } else if category.lex_error() {
        match classification(kinds, token.text) {
            Classification::Category(tp) => reparsed(
                kinds,
                fallback,
                retagged(b, t, tp),
                Reparse { start: t as usize, old_end: (t + 1) as usize, new_end: (t + 1) as usize },
            ),
            _ => b,
        }
    } else if !category.accepts(token.text) {
        reparsed(
            kinds,
            fallback,
            retagged(b, t, fallback),
            Reparse { start: t as usize, old_end: (t + 1) as usize, new_end: (t + 1) as usize },
        )
    } else {
        b
    }
}

/// The buffer after the text edit of typing `new`, before the token is
/// brought in line: `new` takes the place of the selection, and the caret
/// stands behind it.
pub open spec fn typed(b: Buffer, new: Seq<char>) -> Buffer {
    let s = b.selection;
    let text = spliced(b.tokens[b.token].text, s.low() as int, s.high() as int, new);
    Buffer { selection: caret_at(s.low() + byte_len(new)), ..rewritten(b, b.token, text) }
}

/// The buffer after `new` was typed and the token was brought in line.
pub open spec fn inserted(kinds: Seq<NodeSpec>, fallback: u16, b: Buffer, new: Seq<char>) -> Buffer {
    synced(kinds, fallback, typed(b, new))
}

/// Where a deletion to the left starts: at the lower edge of the selection,
/// or with a caret at the start of the user-perceived character in front of
/// it.
pub open spec fn cut_from(text: Seq<char>, s: Selection) -> int {
    if s.start == s.end {
        match grapheme_before(text, s.end as int) {
            Some(n) => n,
            None => 0,
        }
    } else {
        s.low() as int
    }
}

/// The text after a deletion to the left.
pub open spec fn cut(text: Seq<char>, s: Selection) -> Seq<char> {
    spliced(text, cut_from(text, s), s.high() as int, Seq::empty())
}

/// The buffer after the text edit of a deletion to the left in a token with
/// text, before the token is brought in line.
pub open spec fn cut_back(b: Buffer) -> Buffer {
    let text = b.tokens[b.token].text;
    Buffer {
        selection: caret_at(cut_from(text, b.selection)),
        ..rewritten(b, b.token, cut(text, b.selection))
    }
}

/// The buffer after a deletion to the left. An empty token is taken out,
/// the cursor moving out to the left first. Else the selection goes, or with
/// a caret the user-perceived character in front of it, and the token is
/// brought in line.
pub open spec fn deleted_backward(kinds: Seq<NodeSpec>, fallback: u16, b: Buffer) -> Buffer {
    let t = b.token;
    if b.tokens[t].text.len() == 0 {
        reparsed(
            kinds,
            fallback,
            removed(stepped_out_left(kinds, b), t),
            Reparse { start: t as usize, old_end: (t + 1) as usize, new_end: t as usize },
        )
    } else {
        synced(kinds, fallback, cut_back(b))
    }
}

/// The buffer after the token under the cursor was taken out with the
/// cursor left where it is, at the start of what follows.
pub open spec fn lifted(b: Buffer) -> Buffer {
    Buffer { tokens: b.tokens.remove(b.token), selection: caret_at(0), ..b }
}

/// The buffer with a cursor that stands behind the last token moved back to
/// the end of the last token.
pub open spec fn landed(b: Buffer) -> Buffer {
    if b.token >= b.tokens.len() && b.tokens.len() > 0 {
        Buffer {
            token: b.tokens.len() - 1,
            selection: caret_at(byte_len(b.tokens.last().text)),
            ..b
        }
    } else {
        b
    }
}

/// The buffer after a deletion to the right. An empty token is taken out;
/// the cursor then stands at the start of the token that moved up or that
/// mending put there, or at the end of the last token where there is none.
/// Else the selection goes; with a caret, it steps over the user-perceived
/// character behind it, if there is one, and that one goes.
pub open spec fn deleted_forward(kinds: Seq<NodeSpec>, fallback: u16, b: Buffer) -> Buffer {
    let t = b.token;
    let s = b.selection;
    let text = b.tokens[t].text;
    if text.len() == 0 {
        landed(
            reparsed(
                kinds,
                fallback,
                lifted(b),
                Reparse { start: t as usize, old_end: (t + 1) as usize, new_end: t as usize },
            ),
        )
    } else if s.start == s.end {
        if grapheme_after(text, s.end as int) is Some {
            deleted_backward(
                kinds,
                fallback,
                Buffer { selection: stepped(Movement::Right, s, text, false), ..b },
            )
        } else {
            b
        }
    } else {
        deleted_backward(kinds, fallback, b)
    }
}

/// What the editor is asked to do.
#[derive(Debug)]
pub enum EditAction {
    /// Type the text.
    Insert(String),
    /// Delete to the left.
    Backspace,
    /// Delete to the right.
    Delete,
    /// Move the cursor.
    Move(Movement),
    /// Anything that the buffer does not act on.
    Ignored,
}

/// The buffer after the action.
pub open spec fn acted(kinds: Seq<NodeSpec>, fallback: u16, b: Buffer, action: EditAction) -> Buffer {
    match action {
        EditAction::Insert(chars) => inserted(kinds, fallback, b, chars@),
        EditAction::Backspace => deleted_backward(kinds, fallback, b),
        EditAction::Delete => deleted_forward(kinds, fallback, b),
        EditAction::Move(m) => moved(kinds, b, m, false),
        EditAction::Ignored => b,
    }
}

/// The text of the whole buffer: the texts of its tokens in a row.
pub open spec fn document(tokens: Seq<TokenView>) -> Seq<char>
    decreases tokens.len(),
{
    if tokens.len() == 0 {
        Seq::empty()
    } else {
        document(tokens.drop_last()) + tokens.last().text
    }
}

/// The text of two rows of tokens is the text of the one and then that of
/// the other.
pub proof fn lemma_document_concat(a: Seq<TokenView>, b: Seq<TokenView>)
    ensures
        document(a + b) == document(a) + document(b),
    decreases b.len(),
{
    if b.len() == 0 {
        assert(a + b =~= a);
        assert(document(a) + document(b) =~= document(a));
    } else {
        lemma_document_concat(a, b.drop_last());
        assert((a + b).drop_last() =~= a + b.drop_last());
        assert(document(a) + (document(b.drop_last()) + b.last().text) =~= document(a) + document(
            b.drop_last(),
        ) + b.last().text);
    }
}

/// The text of one token.
pub proof fn lemma_document_one(t: TokenView)
    ensures
        document(seq![t]) == t.text,
{
    let one = seq![t];
    assert(one.drop_last().len() == 0);
    assert(document(one.drop_last()) =~= Seq::<char>::empty());
    assert(Seq::<char>::empty() + t.text =~= t.text);
}

/// The text of a row of tokens is the text in front of token `t`, its own,
/// and the text behind it.
pub proof fn lemma_document_at(tokens: Seq<TokenView>, t: int)
    requires
        0 <= t < tokens.len(),
    ensures
        document(tokens) == document(tokens.take(t)) + tokens[t].text + document(
            tokens.skip(t + 1),
        ),
{
    let head = tokens.take(t);
    let tail = tokens.skip(t + 1);
    assert(tokens =~= head + seq![tokens[t]] + tail);
    lemma_document_concat(head + seq![tokens[t]], tail);
    lemma_document_concat(head, seq![tokens[t]]);
    lemma_document_one(tokens[t]);
}

/// Taking out a token without text leaves the text of the buffer as it is.
pub proof fn lemma_document_without_blank(tokens: Seq<TokenView>, t: int)
    requires
        0 <= t < tokens.len(),
        tokens[t].text.len() == 0,
    ensures
        document(tokens.remove(t)) == document(tokens),
{
    let head = tokens.take(t);
    let tail = tokens.skip(t + 1);
    lemma_document_at(tokens, t);
    assert(tokens.remove(t) =~= head + tail);
    lemma_document_concat(head, tail);
    assert(document(head) + tokens[t].text =~= document(head));
}

/// A token's category is no part of the text of the buffer.
pub proof fn lemma_document_same_texts(a: Seq<TokenView>, b: Seq<TokenView>)
    requires
        a.len() == b.len(),
        forall|i: int| 0 <= i < a.len() ==> (#[trigger] a[i]).text == b[i].text,
    ensures
        document(a) == document(b),
    decreases a.len(),
{
    if a.len() > 0 {
        lemma_document_same_texts(a.drop_last(), b.drop_last());
    }
}

/// Mending the ends of the buffer leaves its text as it is: the tokens put
/// in hold no text.
pub proof fn mending_keeps_the_document(kinds: Seq<NodeSpec>, fallback: u16, b: Buffer)
    ensures
        document(mended(kinds, fallback, b).tokens) == document(b.tokens),
{
    let blank = seq![placeholder(fallback)];
    lemma_document_one(placeholder(fallback));
    if b.tokens.len() == 0 {
        assert(document(b.tokens) =~= Seq::<char>::empty());
    } else if sep(kinds, b.tokens.first()) {
        lemma_document_concat(blank, b.tokens);
        assert(Seq::<char>::empty() + document(b.tokens) =~= document(b.tokens));
    } else if sep(kinds, b.tokens.last()) {
        assert(b.tokens.push(placeholder(fallback)) =~= b.tokens + blank);
        lemma_document_concat(b.tokens, blank);
        assert(document(b.tokens) + Seq::<char>::empty() =~= document(b.tokens));
    }
}

/// A parse with the mending that follows it leaves the text of the buffer as
/// it is.
pub proof fn reparsing_keeps_the_document(
    kinds: Seq<NodeSpec>,
    fallback: u16,
    b: Buffer,
    w: Reparse,
)
    ensures
        document(reparsed(kinds, fallback, b, w).tokens) == document(b.tokens),
{
    mending_keeps_the_document(kinds, fallback, parsed(b, w));
    mending_keeps_the_document(kinds, fallback, mended(kinds, fallback, parsed(b, w)));
}

/// Bringing the token under the cursor in line with its text leaves the
/// text of the buffer as it is: a token changes its category, or a token
/// without text goes.
pub proof fn syncing_keeps_the_document(kinds: Seq<NodeSpec>, fallback: u16, b: Buffer)
    requires
        0 <= b.token < b.tokens.len(),
    ensures
        document(synced(kinds, fallback, b).tokens) == document(b.tokens),
{
    let t = b.token;
    let w = Reparse { start: t as usize, old_end: (t + 1) as usize, new_end: t as usize };
    let v = Reparse { start: t as usize, old_end: (t + 1) as usize, new_end: (t + 1) as usize };
    if b.tokens[t].text.len() == 0 {
        reparsing_keeps_the_document(kinds, fallback, removed(stepped_out_left(kinds, b), t), w);
        lemma_document_without_blank(b.tokens, t);
    }
    match classification(kinds, b.tokens[t].text) {
        Classification::Category(tp) => {
            reparsing_keeps_the_document(kinds, fallback, retagged(b, t, tp), v);
            lemma_document_same_texts(retagged(b, t, tp).tokens, b.tokens);
        },
        _ => {},
    }
    reparsing_keeps_the_document(kinds, fallback, retagged(b, t, fallback), v);
    lemma_document_same_texts(retagged(b, t, fallback).tokens, b.tokens);
}

/// The text of the buffer with the text of token `t` replaced.
pub proof fn lemma_document_rewritten(b: Buffer, t: int, text: Seq<char>)
    requires
        0 <= t < b.tokens.len(),
    ensures
        document(rewritten(b, t, text).tokens) == document(b.tokens.take(t)) + text + document(
            b.tokens.skip(t + 1),
        ),
{
    let after = rewritten(b, t, text).tokens;
    lemma_document_at(after, t);
    assert(after.take(t) =~= b.tokens.take(t));
    assert(after.skip(t + 1) =~= b.tokens.skip(t + 1));
}

/// Typing changes the text of the buffer in the token under the cursor and
/// nowhere else: what was typed stands in place of the selection.
pub proof fn typing_round_trip(kinds: Seq<NodeSpec>, fallback: u16, b: Buffer, new: Seq<char>)
    requires
        0 <= b.token < b.tokens.len(),
    ensures
        document(inserted(kinds, fallback, b, new).tokens) == document(b.tokens.take(b.token))
            + spliced(
            b.tokens[b.token].text,
            b.selection.low() as int,
            b.selection.high() as int,
            new,
        ) + document(b.tokens.skip(b.token + 1)),
{
    syncing_keeps_the_document(kinds, fallback, typed(b, new));
    lemma_document_rewritten(
        b,
        b.token,
        spliced(b.tokens[b.token].text, b.selection.low() as int, b.selection.high() as int, new),
    );
}

/// A deletion to the left changes the text of the buffer in the token under
/// the cursor and nowhere else: what was cut is gone.
pub proof fn deleting_backward_round_trip(kinds: Seq<NodeSpec>, fallback: u16, b: Buffer)
    requires
        0 <= b.token < b.tokens.len(),
    ensures
        document(deleted_backward(kinds, fallback, b).tokens) == document(b.tokens.take(b.token))
            + (if b.tokens[b.token].text.len() == 0 {
            Seq::<char>::empty()
        } else {
            cut(b.tokens[b.token].text, b.selection)
        }) + document(b.tokens.skip(b.token + 1)),
{
    let t = b.token;
    if b.tokens[t].text.len() == 0 {
        let w = Reparse { start: t as usize, old_end: (t + 1) as usize, new_end: t as usize };
        reparsing_keeps_the_document(kinds, fallback, removed(stepped_out_left(kinds, b), t), w);
        lemma_document_without_blank(b.tokens, t);
        lemma_document_at(b.tokens, t);
        assert(b.tokens[t].text =~= Seq::<char>::empty());
    } else {
        syncing_keeps_the_document(kinds, fallback, cut_back(b));
        lemma_document_rewritten(b, t, cut(b.tokens[t].text, b.selection));
    }
}

/// A deletion to the right changes the text of the buffer in the token under
/// the cursor and nowhere else: what was cut is gone.
pub proof fn deleting_forward_round_trip(kinds: Seq<NodeSpec>, fallback: u16, b: Buffer)
    requires
        0 <= b.token < b.tokens.len(),
    ensures
        document(deleted_forward(kinds, fallback, b).tokens) == document(b.tokens.take(b.token))
            + (if b.tokens[b.token].text.len() == 0 {
            Seq::<char>::empty()
        } else if b.selection.start != b.selection.end {
            cut(b.tokens[b.token].text, b.selection)
        } else if grapheme_after(b.tokens[b.token].text, b.selection.end as int) is Some {
            cut(
                b.tokens[b.token].text,
                stepped(Movement::Right, b.selection, b.tokens[b.token].text, false),
            )
        } else {
            b.tokens[b.token].text
        }) + document(b.tokens.skip(b.token + 1)),
{
    let t = b.token;
    let s = b.selection;
    let text = b.tokens[t].text;
    lemma_document_at(b.tokens, t);
    if text.len() == 0 {
        let w = Reparse { start: t as usize, old_end: (t + 1) as usize, new_end: t as usize };
        reparsing_keeps_the_document(kinds, fallback, lifted(b), w);
        lemma_document_without_blank(b.tokens, t);
        assert(text =~= Seq::<char>::empty());
    } else if s.start == s.end {
        if grapheme_after(text, s.end as int) is Some {
            deleting_backward_round_trip(
                kinds,
                fallback,
                Buffer { selection: stepped(Movement::Right, s, text, false), ..b },
            );
        }
    } else {
        deleting_backward_round_trip(kinds, fallback, b);
    }
}

/// A parse with the mending that follows it leaves a buffer whose ends are
/// no separators, where the fallback is no separator.
pub proof fn reparsing_settles_the_ends(
    kinds: Seq<NodeSpec>,
    fallback: u16,
    b: Buffer,
    w: Reparse,
)
    requires
        !sep(kinds, placeholder(fallback)),
    ensures
        bounded(kinds, reparsed(kinds, fallback, b, w)),
{
    let once = mended(kinds, fallback, parsed(b, w));
    let twice = mended(kinds, fallback, once);
    assert(once.tokens.len() >= 1);
    assert(!sep(kinds, once.tokens.first()));
    assert(!sep(kinds, twice.tokens.first()));
    assert(!sep(kinds, twice.tokens.last()));
}

/// Bringing the token under the cursor in line keeps the ends of the buffer
/// free of separators.
pub proof fn syncing_keeps_the_ends(kinds: Seq<NodeSpec>, fallback: u16, b: Buffer)
    requires
        !sep(kinds, placeholder(fallback)),
        bounded(kinds, b),
    ensures
        bounded(kinds, synced(kinds, fallback, b)),
{
    let t = b.token;
    let w = Reparse { start: t as usize, old_end: (t + 1) as usize, new_end: t as usize };
    let v = Reparse { start: t as usize, old_end: (t + 1) as usize, new_end: (t + 1) as usize };
    reparsing_settles_the_ends(kinds, fallback, removed(stepped_out_left(kinds, b), t), w);
    reparsing_settles_the_ends(kinds, fallback, retagged(b, t, fallback), v);
    match classification(kinds, b.tokens[t].text) {
        Classification::Category(tp) => {
            reparsing_settles_the_ends(kinds, fallback, retagged(b, t, tp), v);
        },
        _ => {},
    }
}

/// A deletion to the left keeps the ends of the buffer free of separators.
pub proof fn deleting_backward_keeps_the_ends(kinds: Seq<NodeSpec>, fallback: u16, b: Buffer)
    requires
        !sep(kinds, placeholder(fallback)),
        bounded(kinds, b),
        0 <= b.token < b.tokens.len(),
    ensures
        bounded(kinds, deleted_backward(kinds, fallback, b)),
{
    let t = b.token;
    let w = Reparse { start: t as usize, old_end: (t + 1) as usize, new_end: t as usize };
    reparsing_settles_the_ends(kinds, fallback, removed(stepped_out_left(kinds, b), t), w);
    syncing_keeps_the_ends(kinds, fallback, cut_back(b));
}

/// The ends of the buffer are never separators: an action on a buffer whose
/// first and last token are no separators leaves such a buffer, where the
/// fallback is no separator.
pub proof fn edits_keep_the_ends(
    kinds: Seq<NodeSpec>,
    fallback: u16,
    b: Buffer,
    action: EditAction,
)
    requires
        !sep(kinds, placeholder(fallback)),
        bounded(kinds, b),
        0 <= b.token < b.tokens.len(),
    ensures
        bounded(kinds, acted(kinds, fallback, b, action)),
{
    let t = b.token;
    let w = Reparse { start: t as usize, old_end: (t + 1) as usize, new_end: t as usize };
    match action {
        EditAction::Insert(chars) => {
            syncing_keeps_the_ends(kinds, fallback, typed(b, chars@));
        },
        EditAction::Backspace => {
            deleting_backward_keeps_the_ends(kinds, fallback, b);
        },
        EditAction::Delete => {
            reparsing_settles_the_ends(kinds, fallback, lifted(b), w);
            deleting_backward_keeps_the_ends(kinds, fallback, b);
            deleting_backward_keeps_the_ends(
                kinds,
                fallback,
                Buffer {
                    selection: stepped(Movement::Right, b.selection, b.tokens[t].text, false),
                    ..b
                },
            );
        },
        EditAction::Move(m) => {},
        EditAction::Ignored => {},
    }
}

} // verus!

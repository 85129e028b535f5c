//! The pieces of a layout: measured tokens, lines of them, and blocks of
//! lines.
//!
//! Lengths are whole layout units. The width of a line is the sum of the
//! widths of its tokens and of the margins in front of them.

use crate::data::Token;
use vstd::prelude::*;

verus! {

/// What the text measurement gives for one token.
#[derive(Clone, Copy, Debug, PartialEq, Eq, Structural)]
pub struct Metrics {
    pub width: u32,
    pub ascent: u32,
    pub descent: u32,
}

/// A token as it is drawn: a snapshot of the token, its measure, the margins
/// it asks for and whether it is a separator.
#[derive(Debug)]
pub struct TokenLayout {
    pub token: Token,
    pub margin_left: u32,
    pub margin_right: u32,
    pub is_separator: bool,
    pub layout: Metrics,
}

/// The margin between two neighbours in a line. A separator is a space
/// itself: beside one the other side's margin is dropped, and two separators
/// keep no margin.
pub open spec fn merged_margin(a_separator: bool, a_right: u32, b_separator: bool, b_left: u32) -> u32 {
    if b_separator {
        if a_separator {
            0
        } else {
            b_left
        }
    } else if a_separator {
        a_right
    } else if a_right >= b_left {
        a_right
    } else {
        b_left
    }
}

/// The margin in front of `b` where it follows `a`; none at the start of a
/// line.
pub open spec fn margin_between(a: Option<TokenLayout>, b: TokenLayout) -> u32 {
    match a {
        Some(a) => merged_margin(a.is_separator, a.margin_right, b.is_separator, b.margin_left),
        None => 0,
    }
}

/// The margin between two neighbours depends on nothing but the left one's
/// right margin, the right one's left margin, and whether each is a separator.
pub proof fn margin_depends_on_four_values(
    a: TokenLayout,
    b: TokenLayout,
    c: TokenLayout,
    d: TokenLayout,
)
    requires
        a.is_separator == c.is_separator,
        a.margin_right == c.margin_right,
        b.is_separator == d.is_separator,
        b.margin_left == d.margin_left,
    ensures
        margin_between(Some(a), b) == margin_between(Some(c), d),
{
}

/// The margin between two neighbours, of which `a` stands left.
pub fn merge_margin(a_separator: bool, a_right: u32, b_separator: bool, b_left: u32) -> (m: u32)
    ensures
        m == merged_margin(a_separator, a_right, b_separator, b_left),
{
    if b_separator {
        if a_separator {
            0
        } else {
            b_left
        }
    } else if a_separator {
        a_right
    } else if a_right >= b_left {
        a_right
    } else {
        b_left
    }
}

impl TokenLayout {
    /// The drawn token of the given parts.
    pub fn new(
        token: Token,
        margin_left: u32,
        margin_right: u32,
        is_separator: bool,
        layout: Metrics,
    ) -> (t: TokenLayout)
        ensures
            t == (TokenLayout { token, margin_left, margin_right, is_separator, layout }),
    {
        TokenLayout { token, margin_left, margin_right, is_separator, layout }
    }

    /// The measure of the token.
    pub fn layout(&self) -> (m: &Metrics)
        ensures
            *m == self.layout,
    {
        &self.layout
    }

    /// The measured width of the token.
    pub fn width(&self) -> (w: u32)
        ensures
            w == self.layout.width,
    {
        self.layout.width
    }

    /// The id of the token's category.
    pub fn tp(&self) -> (tp: u16)
        ensures
            tp == self.token.tp,
    {
        self.token.tp
    }

    /// Whether the token holds no text.
    pub fn is_empty(&self) -> (b: bool)
        ensures
            b == self.token.blank(),
    {
        self.token.is_empty()
    }

    /// A copy of the drawn token.
    pub fn snapshot(&self) -> (t: TokenLayout)
        ensures
            t == *self,
    {
        TokenLayout {
            token: self.token.snapshot(),
            margin_left: self.margin_left,
            margin_right: self.margin_right,
            is_separator: self.is_separator,
            layout: self.layout,
        }
    }
}

/// The sum of the widths of the tokens and of the margins in front of them.
pub open spec fn total_width(items: Seq<(u32, TokenLayout)>) -> int
    decreases items.len(),
{
    if items.len() == 0 {
        0
    } else {
        total_width(items.drop_last()) + items.last().0 + items.last().1.layout.width
    }
}

/// The last token of the items, if there is one.
pub open spec fn last_token(items: Seq<(u32, TokenLayout)>) -> Option<TokenLayout> {
    if items.len() == 0 {
        None
    } else {
        Some(items.last().1)
    }
}

/// The larger of two lengths.
pub open spec fn larger(a: int, b: int) -> int {
    if a >= b {
        a
    } else {
        b
    }
}

/// A line as a value: its indentation, its height above and below the base
/// line, and its tokens, each with the margin in front of it.
pub struct LineView {
    pub indent: int,
    pub ascent: int,
    pub descent: int,
    pub items: Seq<(u32, TokenLayout)>,
}

impl LineView {
    /// The line with nothing in it.
    pub open spec fn empty() -> LineView {
        LineView { indent: 0, ascent: 0, descent: 0, items: Seq::empty() }
    }

    /// The line that holds one token.
    pub open spec fn single(t: TokenLayout) -> LineView {
        LineView { indent: 0, ascent: 0, descent: 0, items: seq![(0u32, t)] }
    }

    /// The line's width.
    pub open spec fn width(self) -> int {
        total_width(self.items)
    }

    /// The line with `t` put at its end, behind the margin that `t` and the
    /// token before it merge to. A token with text raises the line to its
    /// height.
    pub open spec fn push(self, t: TokenLayout) -> LineView {
        LineView {
            indent: self.indent,
            ascent: if t.token.blank() {
                self.ascent
            } else {
                larger(self.ascent, t.layout.ascent as int)
            },
            descent: if t.token.blank() {
                self.descent
            } else {
                larger(self.descent, t.layout.descent as int)
            },
            items: self.items.push((margin_between(last_token(self.items), t), t)),
        }
    }

    /// The line with the tokens of `other` put at its end. The first of them
    /// gets the margin that it merges to with the token before it; the others
    /// keep theirs.
    pub open spec fn append(self, other: LineView) -> LineView {
        if other.items.len() == 0 {
            self
        } else {
            let joined = self.push(other.items[0].1);
            LineView {
                indent: joined.indent,
                ascent: larger(joined.ascent, other.ascent),
                descent: larger(joined.descent, other.descent),
                items: joined.items + other.items.subrange(1, other.items.len() as int),
            }
        }
    }

    /// The line moved to the right by `by`.
    pub open spec fn indented(self, by: int) -> LineView {
        LineView { indent: self.indent + by, ..self }
    }
}

/// No line is wider than this: the limit for as many tokens as a line can
/// hold.
pub const WIDTH_CAP: u128 = 0x1_ffff_ffff_ffff_fffe_0000_0000;

/// A limit that the sum of the widths and margins of `n` tokens stays under.
pub open spec fn width_limit(n: int) -> int {
    n * 0x2_0000_0000
}

/// The width of a line stays under the limit for the number of its tokens.
pub proof fn lemma_total_width_bound(items: Seq<(u32, TokenLayout)>)
    ensures
        0 <= total_width(items) <= width_limit(items.len() as int),
    decreases items.len(),
{
    if items.len() > 0 {
        lemma_total_width_bound(items.drop_last());
    }
}

/// The width of two runs of tokens in a row is the sum of their widths.
pub proof fn lemma_total_width_concat(a: Seq<(u32, TokenLayout)>, b: Seq<(u32, TokenLayout)>)
    ensures
        total_width(a + b) == total_width(a) + total_width(b),
    decreases b.len(),
{
    if b.len() == 0 {
        assert(a + b =~= a);
    } else {
        lemma_total_width_concat(a, b.drop_last());
        assert((a + b).drop_last() =~= a + b.drop_last());
    }
}

/// The width of one token with its margin.
pub proof fn lemma_total_width_one(item: (u32, TokenLayout))
    ensures
        total_width(seq![item]) == item.0 + item.1.layout.width,
{
    let one = seq![item];
    assert(one.len() == 1);
    assert(one.last() == item);
    assert(one.drop_last().len() == 0);
    assert(total_width(one.drop_last()) == 0);
}

/// The width of a run of tokens is that of its first and that of the rest.
pub proof fn lemma_total_width_first(a: Seq<(u32, TokenLayout)>)
    requires
        a.len() > 0,
    ensures
        total_width(a) == a[0].0 + a[0].1.layout.width + total_width(a.subrange(1, a.len() as int)),
{
    let head = seq![a[0]];
    lemma_total_width_one(a[0]);
    assert(a =~= head + a.subrange(1, a.len() as int));
    lemma_total_width_concat(head, a.subrange(1, a.len() as int));
}

/// One visual row: tokens with the margins in front of them.
#[derive(Debug)]
pub struct Line {
    indent: u128,
    tokens: Vec<(u32, TokenLayout)>,
    ascent: u32,
    descent: u32,
    width: u128,
}

impl View for Line {
    type V = LineView;

    closed spec fn view(&self) -> LineView {
        LineView {
            indent: self.indent as int,
            ascent: self.ascent as int,
            descent: self.descent as int,
            items: self.tokens@,
        }
    }
}

impl Line {
    /// The line's invariant: the width it carries is the sum of the widths of
    /// its tokens and of the margins in front of them.
    pub closed spec fn wf(&self) -> bool {
        self.width == total_width(self.tokens@)
    }

    /// The line with nothing in it.
    pub fn new() -> (line: Line)
        ensures
            line.wf(),
            line@ == LineView::empty(),
    {
        Line { indent: 0, tokens: Vec::new(), width: 0, ascent: 0, descent: 0 }
    }

    /// How far the line is moved to the right.
    pub fn indent(&self) -> (r: u128)
        ensures
            r == self@.indent,
    {
        self.indent
    }

    /// The height of the line above its base line.
    pub fn ascent(&self) -> (r: u32)
        ensures
            r == self@.ascent,
    {
        self.ascent
    }

    /// The height of the line below its base line.
    pub fn descent(&self) -> (r: u32)
        ensures
            r == self@.descent,
    {
        self.descent
    }

    /// The tokens of the line, each with the margin in front of it.
    pub fn tokens(&self) -> (r: &Vec<(u32, TokenLayout)>)
        ensures
            r@ == self@.items,
    {
        &self.tokens
    }

    /// The line that holds one token.
    pub fn single(token: TokenLayout) -> (line: Line)
        ensures
            line.wf(),
            line@ == LineView::single(token),
    {
        let width = token.width();
        let mut tokens: Vec<(u32, TokenLayout)> = Vec::new();
        tokens.push((0, token));
        proof {
            assert(tokens@ =~= seq![(0u32, token)]);
            lemma_total_width_one((0u32, token));
        }
        Line { indent: 0, tokens, width: width as u128, ascent: 0, descent: 0 }
    }

    /// Whether the line holds no token.
    pub fn is_empty(&self) -> (b: bool)
        ensures
            b == (self@.items.len() == 0),
    {
        self.tokens.len() == 0
    }

    /// The number of tokens in the line.
    pub fn len(&self) -> (n: usize)
        ensures
            n == self@.items.len(),
    {
        self.tokens.len()
    }

    /// The first token of the line.
    pub fn first(&self) -> (r: Option<&TokenLayout>)
        ensures
            self@.items.len() == 0 ==> r is None,
            self@.items.len() > 0 ==> r == Some(&self@.items[0].1),
    {
        if self.tokens.len() == 0 {
            None
        } else {
            Some(&self.tokens[0].1)
        }
    }

    /// The last token of the line.
    pub fn last(&self) -> (r: Option<&TokenLayout>)
        ensures
            match r {
                Some(t) => last_token(self@.items) == Some(*t),
                None => last_token(self@.items) is None,
            },
    {
        if self.tokens.len() == 0 {
            None
        } else {
            Some(&self.tokens[self.tokens.len() - 1].1)
        }
    }

    /// The margin in front of `b` where it follows `a`.
    pub fn merge_margin(a: Option<&TokenLayout>, b: &TokenLayout) -> (m: u32)
        ensures
            m == margin_between(
                match a {
                    Some(t) => Some(*t),
                    None => None,
                },
                *b,
            ),
    {
        match a {
            Some(a) => merge_margin(a.is_separator, a.margin_right, b.is_separator, b.margin_left),
            None => 0,
        }
    }

    /// Puts `t` at the end of the line.
    pub fn push(&mut self, t: TokenLayout)
        requires
            old(self).wf(),
        ensures
            final(self).wf(),
            final(self)@ == old(self)@.push(t),
    {
        proof {
            lemma_total_width_bound(self.tokens@);
        }
        let n = self.tokens.len();
        if !t.token.is_empty() {
            if t.layout.ascent > self.ascent {
                self.ascent = t.layout.ascent;
            }
            if t.layout.descent > self.descent {
                self.descent = t.layout.descent;
            }
        }
        let margin = if n == 0 {
            0
        } else {
            let last = &self.tokens[n - 1].1;
            merge_margin(last.is_separator, last.margin_right, t.is_separator, t.margin_left)
        };
        self.width = self.width + margin as u128 + t.layout.width as u128;
        self.tokens.push((margin, t));
        proof {
            assert(self.tokens@.drop_last() =~= old(self).tokens@);
        }
    }

    /// Puts the tokens of `other` at the end of the line.
    pub fn append(&mut self, other: Line)
        requires
            old(self).wf(),
            other.wf(),
        ensures
            final(self).wf(),
            final(self)@ == old(self)@.append(other@),
    {
        let mut other = other;
        if other.tokens.len() != 0 {
            proof {
                lemma_total_width_bound(self.tokens@);
                lemma_total_width_bound(other.tokens@);
                lemma_total_width_first(other.tokens@);
            }
            let ghost theirs = other.tokens@;
            let (first_margin, t) = other.tokens.remove(0);
            let first_width = t.layout.width;
            assert(other.tokens@ =~= theirs.subrange(1, theirs.len() as int));
            self.push(t);
            proof {
                lemma_total_width_bound(self.tokens@);
                lemma_total_width_bound(other.tokens@);
                lemma_total_width_concat(self.tokens@, other.tokens@);
                assert(other.width == first_margin + first_width + total_width(other.tokens@));
                assert(self.tokens@.len() <= usize::MAX) by {
                    let n = self.tokens.len();
                }
                assert(other.tokens@.len() <= usize::MAX) by {
                    let n = other.tokens.len();
                }
            }
            self.width = self.width + (other.width - first_margin as u128 - first_width as u128);
            if other.ascent > self.ascent {
                self.ascent = other.ascent;
            }
            if other.descent > self.descent {
                self.descent = other.descent;
            }
            self.tokens.append(&mut other.tokens);
        }
    }

    /// The width of the line: the sum of the widths of its tokens and of the
    /// margins in front of them.
    pub fn width(&self) -> (w: u128)
        requires
            self.wf(),
        ensures
            w == self@.width(),
            w <= WIDTH_CAP,
    {
        proof {
            lemma_total_width_bound(self.tokens@);
            let n = self.tokens.len();
            assert(width_limit(n as int) <= WIDTH_CAP);
        }
        self.width
    }

    /// Moves the line to the right by `by`.
    pub fn shift(&mut self, by: u128)
        requires
            old(self).wf(),
            old(self)@.indent + by <= u128::MAX,
        ensures
            final(self).wf(),
            final(self)@ == old(self)@.indented(by as int),
    {
        self.indent = self.indent + by;
    }
}

/// The line that a block starts with.
pub open spec fn fresh_block() -> Seq<LineView> {
    seq![LineView::empty()]
}

/// The lines with `line` put at the end of the last of them.
pub open spec fn lines_append_line(lines: Seq<LineView>, line: LineView) -> Seq<LineView> {
    lines.update(lines.len() - 1, lines.last().append(line))
}

/// The lines with `t` put at the end of the last of them.
pub open spec fn lines_push(lines: Seq<LineView>, t: TokenLayout) -> Seq<LineView> {
    lines.update(lines.len() - 1, lines.last().push(t))
}

/// The lines followed by `other`, whose first line goes on at the end of the
/// last line.
pub open spec fn lines_append_block(lines: Seq<LineView>, other: Seq<LineView>) -> Seq<LineView> {
    if lines.len() == 0 {
        other
    } else if other.len() == 0 {
        lines
    } else {
        lines_append_line(lines, other[0]) + other.subrange(1, other.len() as int)
    }
}

/// The lines, each moved to the right by `by`.
pub open spec fn lines_indented(lines: Seq<LineView>, by: int) -> Seq<LineView> {
    Seq::new(lines.len(), |i: int| lines[i].indented(by))
}

/// The lines followed by an empty line at the indentation `indent`.
pub open spec fn lines_break(lines: Seq<LineView>, indent: int) -> Seq<LineView> {
    lines.push(LineView::empty().indented(indent))
}

/// The lines made ready for what starts a line at the indentation `indent`:
/// a last line that holds no token is taken for it, and else an empty line
/// follows.
pub open spec fn lines_turn(lines: Seq<LineView>, indent: int) -> Seq<LineView> {
    if lines.len() > 0 && lines.last().items.len() == 0 {
        lines.update(lines.len() - 1, LineView::empty().indented(indent))
    } else {
        lines_break(lines, indent)
    }
}

/// Whether every line holds a token.
pub open spec fn solid(lines: Seq<LineView>) -> bool {
    forall|i: int| 0 <= i < lines.len() ==> (#[trigger] lines[i]).items.len() > 0
}

/// The width of the widest of the lines.
pub open spec fn widest(lines: Seq<LineView>) -> int
    decreases lines.len(),
{
    if lines.len() == 0 {
        0
    } else {
        larger(widest(lines.drop_last()), lines.last().width())
    }
}

/// The result of laying out a node, as a value: one token, one line, or
/// several lines.
pub enum Shape {
    Single(TokenLayout),
    Line(LineView),
    Block(Seq<LineView>),
}

impl Shape {
    /// The lines of a block as a result: a block of one line is that line.
    pub open spec fn wrap(lines: Seq<LineView>) -> Shape {
        if lines.len() == 1 {
            Shape::Line(lines[0])
        } else {
            Shape::Block(lines)
        }
    }

    /// The result as lines.
    pub open spec fn lines(self) -> Seq<LineView> {
        match self {
            Shape::Single(t) => seq![LineView::single(t)],
            Shape::Line(l) => seq![l],
            Shape::Block(b) => b,
        }
    }

    /// The width of the result: that of its widest line.
    pub open spec fn width(self) -> int {
        match self {
            Shape::Single(t) => t.layout.width as int,
            Shape::Line(l) => l.width(),
            Shape::Block(b) => widest(b),
        }
    }

    /// The last token of a result of one line, if it has one.
    pub open spec fn last_token(self) -> Option<TokenLayout> {
        match self {
            Shape::Single(t) => Some(t),
            Shape::Line(l) => last_token(l.items),
            Shape::Block(_) => None,
        }
    }

    /// Whether the result holds no token in its first line.
    pub open spec fn blank(self) -> bool {
        self.first_token() is None
    }

    /// The first token of the result, if its first line has one.
    pub open spec fn first_token(self) -> Option<TokenLayout> {
        match self {
            Shape::Single(t) => Some(t),
            Shape::Line(l) => if l.items.len() > 0 {
                Some(l.items[0].1)
            } else {
                None
            },
            Shape::Block(b) => if b.len() > 0 && b[0].items.len() > 0 {
                Some(b[0].items[0].1)
            } else {
                None
            },
        }
    }
}

/// The lines with the result put at their end: a token or a line goes on at
/// the end of the last line, and so does the first line of a block.
pub open spec fn lines_append(lines: Seq<LineView>, r: Shape) -> Seq<LineView> {
    match r {
        Shape::Single(t) => lines_push(lines, t),
        Shape::Line(l) => lines_append_line(lines, l),
        Shape::Block(b) => lines_append_block(lines, b),
    }
}

/// One line or more.
#[derive(Debug)]
pub struct Block {
    lines: Vec<Line>,
}

impl View for Block {
    type V = Seq<LineView>;

    closed spec fn view(&self) -> Seq<LineView> {
        Seq::new(self.lines@.len(), |i: int| self.lines@[i]@)
    }
}

impl Block {
    /// The block's invariant: it has a line, and each line has its
    /// invariant.
    pub closed spec fn wf(&self) -> bool {
        &&& self.lines@.len() >= 1
        &&& forall|i: int| 0 <= i < self.lines@.len() ==> (#[trigger] self.lines@[i]).wf()
    }

    /// A block has a line.
    pub proof fn lemma_has_line(&self)
        requires
            self.wf(),
        ensures
            self@.len() >= 1,
    {
    }

    /// The block of one empty line.
    pub fn new() -> (b: Block)
        ensures
            b.wf(),
            b@ == fresh_block(),
    {
        let mut lines: Vec<Line> = Vec::new();
        lines.push(Line::new());
        let b = Block { lines };
        assert(b@ =~= fresh_block());
        b
    }

    /// The number of lines.
    pub fn len(&self) -> (n: usize)
        ensures
            n == self@.len(),
    {
        self.lines.len()
    }

    /// Whether the block has one line only.
    pub fn single_line(&self) -> (b: bool)
        ensures
            b == (self@.len() == 1),
    {
        self.lines.len() == 1
    }

    /// The width of the last line.
    pub fn last_width(&self) -> (w: u128)
        requires
            self.wf(),
        ensures
            w == self@.last().width(),
            w <= WIDTH_CAP,
    {
        self.lines[self.lines.len() - 1].width()
    }

    /// The width of the widest line.
    pub fn width(&self) -> (w: u128)
        requires
            self.wf(),
        ensures
            w == widest(self@),
            w <= WIDTH_CAP,
    {
        let mut w: u128 = 0;
        let mut i: usize = 0;
        while i < self.lines.len()
            invariant
                self.wf(),
                i <= self.lines@.len(),
                w == widest(self@.subrange(0, i as int)),
                w <= WIDTH_CAP,
            decreases self.lines@.len() - i,
        {
            let lw = self.lines[i].width();
            assert(self@.subrange(0, i + 1).drop_last() =~= self@.subrange(0, i as int));
            if lw > w {
                w = lw;
            }
            i += 1;
        }
        assert(self@.subrange(0, i as int) =~= self@);
        w
    }

    /// The block as a result: a block of one line is that line.
    pub fn wrap(self) -> (r: LayoutResult)
        requires
            self.wf(),
        ensures
            r.wf(),
            r@ == Shape::wrap(self@),
    {
        let mut this = self;
        if this.lines.len() == 1 {
            let line = this.lines.remove(0);
            LayoutResult::Line(line)
        } else {
            LayoutResult::Block(this)
        }
    }

    /// Puts `line` at the end of the last line.
    pub fn append_line(&mut self, line: Line)
        requires
            old(self).wf(),
            line.wf(),
        ensures
            final(self).wf(),
            final(self)@ == lines_append_line(old(self)@, line@),
    {
        let mut last = self.lines.pop().unwrap();
        last.append(line);
        self.lines.push(last);
        assert(self@ =~= lines_append_line(old(self)@, line@));
    }

    /// Puts `t` at the end of the last line.
    pub fn push(&mut self, t: TokenLayout)
        requires
            old(self).wf(),
        ensures
            final(self).wf(),
            final(self)@ == lines_push(old(self)@, t),
    {
        let mut last = self.lines.pop().unwrap();
        last.push(t);
        self.lines.push(last);
        assert(self@ =~= lines_push(old(self)@, t));
    }

    /// Puts the lines of `b` at the end: the first of them goes on at the end
    /// of the last line.
    pub fn append_block(&mut self, b: Block)
        requires
            old(self).wf(),
            b.wf(),
        ensures
            final(self).wf(),
            final(self)@ == lines_append_block(old(self)@, b@),
    {
        let mut b = b;
        let ghost theirs = b@;
        let first = b.lines.remove(0);
        self.append_line(first);
        let ghost joined = self@;
        self.lines.append(&mut b.lines);
        assert(self@ =~= joined + theirs.subrange(1, theirs.len() as int));
    }

    /// Puts the result at the end of the block.
    pub fn append(&mut self, res: LayoutResult)
        requires
            old(self).wf(),
            res.wf(),
        ensures
            final(self).wf(),
            final(self)@ == lines_append(old(self)@, res@),
    {
        match res {
            LayoutResult::Single(a) => self.push(a),
            LayoutResult::Line(l) => self.append_line(l),
            LayoutResult::Block(b) => self.append_block(b),
        }
    }

    /// Moves every line to the right by `indent`.
    pub fn indent(&mut self, indent: u128)
        requires
            old(self).wf(),
            forall|i: int| 0 <= i < old(self)@.len() ==> (#[trigger] old(self)@[i]).indent + indent
                <= u128::MAX,
        ensures
            final(self).wf(),
            final(self)@ == lines_indented(old(self)@, indent as int),
    {
        let ghost before = self@;
        let mut rest: Vec<Line> = Vec::new();
        let mut i: usize = self.lines.len();
        while i > 0
            invariant
                i == self.lines@.len(),
                forall|k: int| 0 <= k < i ==> (#[trigger] self.lines@[k]).wf() && self.lines@[k]@
                    == before[k],
                rest@.len() + i == before.len(),
                forall|k: int|
                    0 <= k < rest@.len() ==> (#[trigger] rest@[k]).wf() && rest@[k]@
                        == before[before.len() - 1 - k].indented(indent as int),
                forall|k: int| 0 <= k < before.len() ==> (#[trigger] before[k]).indent + indent
                    <= u128::MAX,
            decreases i,
        {
            let mut line = self.lines.pop().unwrap();
            line.shift(indent);
            rest.push(line);
            i -= 1;
        }
        while rest.len() > 0
            invariant
                rest@.len() + self.lines@.len() == before.len(),
                forall|k: int|
                    0 <= k < self.lines@.len() ==> (#[trigger] self.lines@[k]).wf()
                        && self.lines@[k]@ == before[k].indented(indent as int),
                forall|k: int|
                    0 <= k < rest@.len() ==> (#[trigger] rest@[k]).wf() && rest@[k]@
                        == before[before.len() - 1 - k].indented(indent as int),
            decreases rest@.len(),
        {
            let line = rest.pop().unwrap();
            self.lines.push(line);
        }
        assert(self@ =~= lines_indented(before, indent as int));
    }

    /// Starts a new line at the indentation `indent`.
    pub fn nl(&mut self, indent: u128)
        requires
            old(self).wf(),
        ensures
            final(self).wf(),
            final(self)@ == lines_break(old(self)@, indent as int),
    {
        let mut line = Line::new();
        line.shift(indent);
        self.lines.push(line);
        assert(self@ =~= lines_break(old(self)@, indent as int));
    }

    /// Makes the block ready for what starts a line at the indentation
    /// `indent`: a last line that holds no token is taken for it, and else a
    /// new line is started.
    pub fn turn(&mut self, indent: u128)
        requires
            old(self).wf(),
        ensures
            final(self).wf(),
            final(self)@ == lines_turn(old(self)@, indent as int),
    {
        let n = self.lines.len();
        if self.lines[n - 1].is_empty() {
            let mut line = Line::new();
            line.shift(indent);
            self.lines.pop();
            self.lines.push(line);
            assert(self@ =~= lines_turn(old(self)@, indent as int));
        } else {
            self.nl(indent);
        }
    }

    /// The lines of the block.
    pub fn into_lines(self) -> (lines: Vec<Line>)
        requires
            self.wf(),
        ensures
            lines@.len() == self@.len(),
            forall|i: int| 0 <= i < lines@.len() ==> (#[trigger] lines@[i]).wf() && lines@[i]@
                == self@[i],
    {
        self.lines
    }

    /// The block of the given lines.
    pub fn from_lines(lines: Vec<Line>) -> (b: Block)
        requires
            lines@.len() >= 1,
            forall|i: int| 0 <= i < lines@.len() ==> (#[trigger] lines@[i]).wf(),
        ensures
            b.wf(),
            b@.len() == lines@.len(),
            forall|i: int| 0 <= i < lines@.len() ==> b@[i] == (#[trigger] lines@[i])@,
    {
        Block { lines }
    }
}

/// The result of laying out a node: one token, one line, or several lines.
#[derive(Debug)]
pub enum LayoutResult {
    Single(TokenLayout),
    Line(Line),
    Block(Block),
}

impl View for LayoutResult {
    type V = Shape;

    open spec fn view(&self) -> Shape {
        match self {
            LayoutResult::Single(t) => Shape::Single(*t),
            LayoutResult::Line(l) => Shape::Line(l@),
            LayoutResult::Block(b) => Shape::Block(b@),
        }
    }
}

impl LayoutResult {
    /// The result's invariant: that of its line or block.
    pub open spec fn wf(&self) -> bool {
        match self {
            LayoutResult::Single(_) => true,
            LayoutResult::Line(l) => l.wf(),
            LayoutResult::Block(b) => b.wf(),
        }
    }

    /// The width of the result: that of its widest line.
    pub fn width(&self) -> (w: u128)
        requires
            self.wf(),
        ensures
            w == self@.width(),
            w <= WIDTH_CAP,
    {
        match self {
            LayoutResult::Single(t) => t.width() as u128,
            LayoutResult::Line(l) => l.width(),
            LayoutResult::Block(b) => b.width(),
        }
    }

    /// Whether the result has several lines.
    pub fn is_block(&self) -> (b: bool)
        ensures
            b == (self@ is Block),
    {
        match self {
            LayoutResult::Block(_) => true,
            _ => false,
        }
    }

    /// The last token of a result of one line, if it has one.
    pub fn last_token(&self) -> (r: Option<&TokenLayout>)
        requires
            self.wf(),
        ensures
            match r {
                Some(t) => self@.last_token() == Some(*t),
                None => self@.last_token() is None,
            },
    {
        match self {
            LayoutResult::Single(t) => Some(t),
            LayoutResult::Line(l) => l.last(),
            LayoutResult::Block(_) => None,
        }
    }

    /// The first token of the result, if its first line has one.
    pub fn first_token(&self) -> (r: Option<&TokenLayout>)
        requires
            self.wf(),
        ensures
            match r {
                Some(t) => self@.first_token() == Some(*t),
                None => self@.first_token() is None,
            },
    {
        match self {
            LayoutResult::Single(t) => Some(t),
            LayoutResult::Line(l) => l.first(),
            LayoutResult::Block(b) => b.lines[0].first(),
        }
    }

    /// The result as lines.
    pub fn to_lines(self) -> (lines: Vec<Line>)
        requires
            self.wf(),
        ensures
            lines@.len() == self@.lines().len(),
            lines@.len() >= 1,
            forall|i: int| 0 <= i < lines@.len() ==> (#[trigger] lines@[i]).wf() && lines@[i]@
                == self@.lines()[i],
    {
        match self {
            LayoutResult::Single(t) => {
                let mut lines: Vec<Line> = Vec::new();
                lines.push(Line::single(t));
                lines
            },
            LayoutResult::Line(l) => {
                let mut lines: Vec<Line> = Vec::new();
                lines.push(l);
                lines
            },
            LayoutResult::Block(b) => b.lines,
        }
    }

    /// The result as a block.
    pub fn to_block(self) -> (b: Block)
        requires
            self.wf(),
        ensures
            b.wf(),
            b@ == self@.lines(),
    {
        let ghost shape = self@;
        let b = Block { lines: self.to_lines() };
        assert(b@ =~= shape.lines());
        b
    }
}

} // verus!

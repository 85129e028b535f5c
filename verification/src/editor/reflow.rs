//! The layout of a parse tree under an available width.
//!
//! A node is laid out with two widths: the room left on the line on which it
//! starts, and the room that a line of its own has. A token is one drawn
//! token. A bracketed tree stays on one line while its children fit there; a
//! child of several lines, or one that does not fit, turns it into a block,
//! in which each child that is neither bracket nor separator starts a line.
//! A composition puts its children one behind the other.

use crate::data::Token;
use crate::editor::layout::{
    fresh_block, lines_append, lines_append_block, lines_indented, lines_turn, margin_between,
    Block, LayoutResult, Line, LineView, Metrics, Shape, TokenLayout,
};
use crate::editor::tree::{SyntaxNode, SyntaxTree};
use crate::language::{role_of, Language, Role};
use crate::spec::NodeSpec;
use vstd::prelude::*;

verus! {

/// The margin on both sides of a separator.
pub const SEPARATOR_MARGIN: u32 = 2;

/// The margin on both sides of any other token.
pub const TOKEN_MARGIN: u32 = 8;

/// What a layout is made from, as values.
pub struct Scene {
    /// The tokens of the buffer.
    pub tokens: Seq<Token>,
    /// The measure of each token of the buffer.
    pub measures: Seq<Metrics>,
    /// The node kinds of the grammar.
    pub kinds: Seq<NodeSpec>,
    /// The nodes of the parse tree.
    pub nodes: Seq<SyntaxNode>,
    /// The indentation of one level.
    pub indent: int,
    /// The mark drawn in place of a node that cannot be laid out.
    pub fault: TokenLayout,
}

/// `a - b`, or nothing where `b` is the larger.
pub open spec fn minus(a: int, b: int) -> int {
    if a >= b {
        a - b
    } else {
        0
    }
}

/// `a - b`, or nothing where `b` is the larger.
pub fn room_left(a: u128, b: u128) -> (r: u128)
    ensures
        r == minus(a as int, b as int),
{
    if a >= b {
        a - b
    } else {
        0
    }
}

/// Whether node `id` cannot be laid out: the parser made it up or found no
/// place for it, its kind is unknown to the grammar or is the error kind, or
/// it is a token that the buffer or the measures do not hold.
pub open spec fn faulty(scene: Scene, id: int) -> bool {
    let node = scene.nodes[id];
    ||| node.missing
    ||| node.extra
    ||| node.kind >= scene.kinds.len()
    ||| scene.kinds[node.kind as int] is Error
    ||| (scene.kinds[node.kind as int] is Token && (node.token >= scene.tokens.len() || node.token
        >= scene.measures.len()))
}

/// The drawn token of the token node `id`.
pub open spec fn leaf(scene: Scene, id: int) -> TokenLayout {
    let node = scene.nodes[id];
    let separator = scene.kinds[node.kind as int]->Token_0.separator_class();
    let margin = if separator {
        SEPARATOR_MARGIN
    } else {
        TOKEN_MARGIN
    };
    TokenLayout {
        token: scene.tokens[node.token as int],
        margin_left: margin,
        margin_right: margin,
        is_separator: separator,
        layout: scene.measures[node.token as int],
    }
}

/// How far the children of a bracketed tree have been laid out.
pub struct Scan {
    /// The children so far, each with its kind.
    pub done: Seq<(u16, Shape)>,
    /// Whether the tree has turned into a block.
    pub block: bool,
    /// The width of the children so far on one line.
    pub width: int,
    /// The last token of the children so far.
    pub last: Option<TokenLayout>,
}

impl Scan {
    /// Before the first child.
    pub open spec fn start() -> Scan {
        Scan { done: Seq::empty(), block: false, width: 0, last: None }
    }

    /// After one more child, of kind `kind`. `r` is the child laid out in the
    /// room `room` that the line has left, `again` the child laid out on a
    /// line of its own.
    ///
    /// In a block every child is taken as it is. Before that, a child of
    /// several lines turns the tree into a block and is taken as laid out on
    /// its own line; a child that needs more than the room left, with the
    /// margin in front of it, turns the tree into a block too.
    pub open spec fn step(self, kind: u16, r: Shape, again: Shape, room: int) -> Scan {
        if self.block {
            Scan { done: self.done.push((kind, r)), ..self }
        } else if r is Block {
            Scan { done: self.done.push((kind, again)), block: true, ..self }
        } else {
            let added = r.width() + margin_before(self.last, r.first_token());
            if room < added {
                Scan { done: self.done.push((kind, r)), block: true, ..self }
            } else {
                Scan {
                    done: self.done.push((kind, r)),
                    block: false,
                    width: self.width + added,
                    last: if r.last_token() is Some {
                        r.last_token()
                    } else {
                        self.last
                    },
                }
            }
        }
    }
}

/// The margin in front of the token `first`, if there is one, behind `last`.
pub open spec fn margin_before(last: Option<TokenLayout>, first: Option<TokenLayout>) -> int {
    match first {
        Some(t) => margin_between(last, t) as int,
        None => 0,
    }
}

/// The lines of a block after one more child, and whether the block is
/// between its opening and closing bracket then.
///
/// A child without a token leaves the block as it is. An opening bracket or
/// a separator goes on at the end of the last line. A closing bracket starts
/// a line. Any other child starts a line, indented by one level; between the
/// brackets its own lines are indented by one level too. Where the last line
/// holds no token yet, the child that would start a line takes that line.
pub open spec fn place(
    kinds: Seq<NodeSpec>,
    parent: int,
    lines: Seq<LineView>,
    inside: bool,
    kind: u16,
    r: Shape,
    indent: int,
) -> (Seq<LineView>, bool) {
    if r.blank() {
        (lines, inside)
    } else {
        match role_of(kinds, parent, kind) {
            Role::Start => (lines_append(lines, r), true),
            Role::End => (lines_append(lines_turn(lines, 0), r), false),
            Role::Sep => (lines_append(lines, r), inside),
            Role::Plain => (
                lines_append_block(
                    lines_turn(lines, indent),
                    if inside {
                        lines_indented(r.lines(), indent)
                    } else {
                        r.lines()
                    },
                ),
                inside,
            ),
        }
    }
}

/// The lines of a block after the children from `k` on, given the lines
/// before them.
pub open spec fn stack_up(
    kinds: Seq<NodeSpec>,
    parent: int,
    done: Seq<(u16, Shape)>,
    k: int,
    lines: Seq<LineView>,
    inside: bool,
    indent: int,
) -> Seq<LineView>
    decreases done.len() - k,
{
    if 0 <= k < done.len() {
        let next = place(kinds, parent, lines, inside, done[k].0, done[k].1, indent);
        stack_up(kinds, parent, done, k + 1, next.0, next.1, indent)
    } else {
        lines
    }
}

/// The line after one more child on it.
pub open spec fn extend(line: LineView, r: Shape) -> LineView {
    match r {
        Shape::Single(t) => line.push(t),
        Shape::Line(l) => line.append(l),
        Shape::Block(_) => line,
    }
}

/// The line after the children from `k` on, given the line before them.
pub open spec fn in_a_row(done: Seq<(u16, Shape)>, k: int, line: LineView) -> LineView
    decreases done.len() - k,
{
    if 0 <= k < done.len() {
        in_a_row(done, k + 1, extend(line, done[k].1))
    } else {
        line
    }
}

/// Whether `c` is a child of `p` at which the walk over the children of `p`
/// goes on.
pub open spec fn child_at(scene: Scene, p: int, c: int) -> bool {
    &&& 0 <= p < c < scene.nodes.len()
    &&& c < scene.nodes[p].end
    &&& c < scene.nodes[c].end <= scene.nodes.len()
}

/// The layout of node `id` with the room `first` on the line on which it
/// starts and the room `rest` on a line of its own.
pub open spec fn layout(scene: Scene, id: int, first: int, rest: int) -> Shape
    decreases scene.nodes.len() - id, scene.nodes.len() + 1,
{
    if !(0 <= id < scene.nodes.len()) || faulty(scene, id) {
        Shape::Single(scene.fault)
    } else {
        let node = scene.nodes[id];
        match scene.kinds[node.kind as int] {
            NodeSpec::Token(_) => Shape::Single(leaf(scene, id)),
            NodeSpec::Tree { .. } => {
                let s = scan(scene, id, id + 1, Scan::start(), first, rest);
                if s.block {
                    Shape::wrap(
                        stack_up(
                            scene.kinds,
                            node.kind as int,
                            s.done,
                            0,
                            fresh_block(),
                            false,
                            scene.indent,
                        ),
                    )
                } else {
                    Shape::Line(in_a_row(s.done, 0, LineView::empty()))
                }
            },
            NodeSpec::Compose => Shape::wrap(
                compose(scene, id, id + 1, fresh_block(), first, rest),
            ),
            NodeSpec::Error => Shape::Single(scene.fault),
        }
    }
}

/// The children of the bracketed tree `p` from `c` on, laid out one after
/// the other, given how far the ones before them have come.
pub open spec fn scan(scene: Scene, p: int, c: int, state: Scan, first: int, rest: int) -> Scan
    decreases scene.nodes.len() - p, scene.nodes.len() - c,
{
    if child_at(scene, p, c) {
        let own = minus(rest, scene.indent);
        let room = if state.block {
            own
        } else {
            minus(first, state.width)
        };
        let r = layout(scene, c, room, own);
        let again = layout(scene, c, own, own);
        scan(
            scene,
            p,
            scene.nodes[c].end as int,
            state.step(scene.nodes[c].kind, r, again, room),
            first,
            rest,
        )
    } else {
        state
    }
}

/// The lines of the composition `p` after its children from `c` on, given
/// the lines before them. Each child goes on at the end of the last line,
/// with the room that this line has left.
pub open spec fn compose(
    scene: Scene,
    p: int,
    c: int,
    lines: Seq<LineView>,
    first: int,
    rest: int,
) -> Seq<LineView>
    decreases scene.nodes.len() - p, scene.nodes.len() - c,
{
    if child_at(scene, p, c) {
        let width = if lines.len() == 1 {
            first
        } else {
            rest
        };
        let r = layout(scene, c, minus(width, lines.last().width()), rest);
        compose(scene, p, scene.nodes[c].end as int, lines_append(lines, r), first, rest)
    } else {
        lines
    }
}

/// The children of a scan, as values.
pub open spec fn shapes(done: Seq<(u16, LayoutResult)>) -> Seq<(u16, Shape)> {
    Seq::new(done.len(), |i: int| (done[i].0, done[i].1@))
}

/// No line is indented by more than `bound`.
pub open spec fn within(lines: Seq<LineView>, bound: int) -> bool {
    forall|i: int| 0 <= i < lines.len() ==> 0 <= (#[trigger] lines[i]).indent <= bound
}

/// Whether the lines are the layout of the whole tree under the width
/// `width`.
pub open spec fn laid_out(scene: Scene, width: int, lines: Seq<Line>) -> bool {
    &&& lines.len() == layout(scene, 0, width, width).lines().len()
    &&& forall|i: int|
        0 <= i < lines.len() ==> (#[trigger] lines[i]).wf() && lines[i]@ == layout(
            scene,
            0,
            width,
            width,
        ).lines()[i]
}

/// Laying out the same tree twice under the same width gives the same
/// lines.
pub proof fn layout_is_repeatable(scene: Scene, width: int, once: Seq<Line>, twice: Seq<Line>)
    requires
        laid_out(scene, width, once),
        laid_out(scene, width, twice),
    ensures
        once.len() == twice.len(),
        forall|i: int| 0 <= i < once.len() ==> (#[trigger] once[i])@ == twice[i]@,
{
}

/// What a layout is made from.
pub struct LayoutParams<'a> {
    /// The tokens of the buffer.
    pub tokens: &'a Vec<Token>,
    /// The measure of each token of the buffer.
    pub measures: &'a Vec<Metrics>,
    pub language: &'a Language,
    pub tree: &'a SyntaxTree,
    /// The indentation of one level.
    pub indent: u32,
    /// The mark drawn in place of a node that cannot be laid out.
    pub fault: TokenLayout,
}

impl<'a> LayoutParams<'a> {
    /// The grammar and the tree have their invariants.
    pub open spec fn wf(&self) -> bool {
        self.language.wf() && self.tree.wf()
    }

    /// The parameters as values.
    pub open spec fn scene(&self) -> Scene {
        Scene {
            tokens: self.tokens@,
            measures: self.measures@,
            kinds: self.language.kinds(),
            nodes: self.tree@,
            indent: self.indent as int,
            fault: self.fault,
        }
    }

    /// The drawn token of the token node `id`.
    fn layout_token(&self, id: usize) -> (t: TokenLayout)
        requires
            self.wf(),
            id < self.tree@.len(),
            !faulty(self.scene(), id as int),
            self.language.kinds()[self.tree@[id as int].kind as int] is Token,
        ensures
            t == leaf(self.scene(), id as int),
    {
        let node = self.tree.node(id);
        let separator = self.language.node(node.kind).as_token().is_separator();
        let margin = if separator {
            SEPARATOR_MARGIN
        } else {
            TOKEN_MARGIN
        };
        TokenLayout::new(
            self.tokens[node.token].snapshot(),
            margin,
            margin,
            separator,
            self.measures[node.token],
        )
    }

    /// The lines of the whole tree under the width `max_width`.
    pub fn layout(&self, max_width: u128) -> (lines: Vec<Line>)
        requires
            self.wf(),
        ensures
            laid_out(self.scene(), max_width as int, lines@),
    {
        self.layout_node(0, max_width, max_width).to_lines()
    }

    /// The layout of node `id` with the room `first` on the line on which it
    /// starts and the room `rest` on a line of its own.
    pub fn layout_node(&self, id: usize, first: u128, rest: u128) -> (r: LayoutResult)
        requires
            self.wf(),
        ensures
            r.wf(),
            r@ == layout(self.scene(), id as int, first as int, rest as int),
            id < self.tree@.len() ==> within(
                r@.lines(),
                self.indent * (self.tree@[id as int].end - id),
            ),
            id >= self.tree@.len() ==> within(r@.lines(), 0),
        decreases self.tree@.len() - id,
    {
        let ghost scene = self.scene();
        if id >= self.tree.len() {
            return LayoutResult::Single(self.fault.snapshot());
        }
        let node = self.tree.node(id);
        let ghost size = node.end - id;
        assert(0 <= self.indent * size) by (nonlinear_arith)
            requires
                0 <= self.indent,
                0 <= size,
        ;
        if node.missing || node.extra || (node.kind as usize) >= self.language.node_count() {
            return LayoutResult::Single(self.fault.snapshot());
        }
        match self.language.node(node.kind) {
            NodeSpec::Token(_) => {
                if node.token >= self.tokens.len() || node.token >= self.measures.len() {
                    LayoutResult::Single(self.fault.snapshot())
                } else {
                    LayoutResult::Single(self.layout_token(id))
                }
            },
            NodeSpec::Error => LayoutResult::Single(self.fault.snapshot()),
            NodeSpec::Compose => {
                let mut block = Block::new();
                let mut c: usize = id + 1;
                let ghost bound = self.indent * (size - 1);
                assert(0 <= bound <= self.indent * size) by (nonlinear_arith)
                    requires
                        bound == self.indent * (size - 1),
                        0 <= self.indent,
                        1 <= size,
                ;
                while c < node.end
                    invariant
                        self.wf(),
                        scene == self.scene(),
                        id < self.tree@.len(),
                        node == self.tree@[id as int],
                        size == node.end - id,
                        bound == self.indent * (size - 1),
                        id < c <= node.end,
                        block.wf(),
                        within(block@, bound),
                        compose(scene, id as int, c as int, block@, first as int, rest as int)
                            == compose(
                            scene,
                            id as int,
                            id + 1,
                            fresh_block(),
                            first as int,
                            rest as int,
                        ),
                    decreases node.end - c,
                {
                    let child = self.tree.node(c);
                    assert(child_at(scene, id as int, c as int));
                    proof {
                        block.lemma_has_line();
                    }
                    let width = if block.single_line() {
                        first
                    } else {
                        rest
                    };
                    let r = self.layout_node(c, room_left(width, block.last_width()), rest);
                    proof {
                        lemma_grows(self.indent as int, child.end - c, size - 1);
                        lemma_within_append(block@, r@, bound);
                    }
                    block.append(r);
                    c = child.end;
                }
                assert(!child_at(scene, id as int, c as int));
                block.wrap()
            },
            NodeSpec::Tree { .. } => {
                let own = room_left(rest, self.indent as u128);
                let mut done: Vec<(u16, LayoutResult)> = Vec::new();
                let mut turned = false;
                let mut width: u128 = 0;
                let mut last: Option<TokenLayout> = None;
                let mut c: usize = id + 1;
                let ghost bound = self.indent * (size - 1);
                assert(0 <= bound && bound + self.indent == self.indent * size) by (nonlinear_arith)
                    requires
                        bound == self.indent * (size - 1),
                        0 <= self.indent,
                        1 <= size,
                ;
                assert(shapes(done@) =~= Scan::start().done);
                while c < node.end
                    invariant
                        self.wf(),
                        scene == self.scene(),
                        id < self.tree@.len(),
                        node == self.tree@[id as int],
                        size == node.end - id,
                        bound == self.indent * (size - 1),
                        own == minus(rest as int, self.indent as int),
                        id < c <= node.end,
                        !turned ==> width <= first,
                        forall|k: int| 0 <= k < done@.len() ==> (#[trigger] done@[k]).1.wf(),
                        forall|k: int|
                            0 <= k < done@.len() ==> within((#[trigger] done@[k]).1@.lines(), bound),
                        !turned ==> forall|k: int|
                            0 <= k < done@.len() ==> !((#[trigger] done@[k]).1@ is Block),
                        scan(
                            scene,
                            id as int,
                            c as int,
                            Scan { done: shapes(done@), block: turned, width: width as int, last },
                            first as int,
                            rest as int,
                        ) == scan(
                            scene,
                            id as int,
                            id + 1,
                            Scan::start(),
                            first as int,
                            rest as int,
                        ),
                    decreases node.end - c,
                {
                    let child = self.tree.node(c);
                    assert(child_at(scene, id as int, c as int));
                    let ghost state = Scan {
                        done: shapes(done@),
                        block: turned,
                        width: width as int,
                        last,
                    };
                    let ghost again = layout(scene, c as int, own as int, own as int);
                    let room = if turned {
                        own
                    } else {
                        room_left(first, width)
                    };
                    proof {
                        lemma_grows(self.indent as int, child.end - c, size - 1);
                    }
                    let r = self.layout_node(c, room, own);
                    let ghost shape = r@;
                    let ghost before = done@;
                    if turned {
                        done.push((child.kind, r));
                    } else if r.is_block() {
                        let redo = self.layout_node(c, own, own);
                        done.push((child.kind, redo));
                        turned = true;
                    } else {
                        let margin = match r.first_token() {
                            Some(t) => Line::merge_margin(last.as_ref(), t),
                            None => 0,
                        };
                        let added = r.width() + margin as u128;
                        if room < added {
                            turned = true;
                        } else {
                            width = width + added;
                            match r.last_token() {
                                Some(t) => {
                                    last = Some(t.snapshot());
                                },
                                None => {},
                            }
                        }
                        done.push((child.kind, r));
                    }
                    proof {
                        let next = state.step(child.kind, shape, again, room as int);
                        assert(shapes(done@) =~= next.done);
                        assert(next == Scan {
                            done: shapes(done@),
                            block: turned,
                            width: width as int,
                            last,
                        });
                        assert forall|k: int| 0 <= k < done@.len() implies (#[trigger] done@[k]).1.wf()
                            && within(done@[k].1@.lines(), bound) by {
                            if k < before.len() {
                                assert(done@[k] == before[k]);
                            }
                        }
                        if !turned {
                            assert forall|k: int| 0 <= k < done@.len() implies !((
                            #[trigger] done@[k]).1@ is Block) by {
                                if k < before.len() {
                                    assert(done@[k] == before[k]);
                                }
                            }
                        }
                    }
                    c = child.end;
                }
                assert(!child_at(scene, id as int, c as int));
                let ghost all = shapes(done@);
                let ghost results = done@;
                let mut stack: Vec<(u16, LayoutResult)> = Vec::new();
                while done.len() > 0
                    invariant
                        done@.len() + stack@.len() == results.len(),
                        forall|k: int| 0 <= k < done@.len() ==> done@[k] == results[k],
                        forall|k: int|
                            0 <= k < stack@.len() ==> stack@[k] == results[results.len() - 1 - k],
                    decreases done@.len(),
                {
                    let item = done.pop().unwrap();
                    stack.push(item);
                }
                if turned {
                    let mut block = Block::new();
                    let mut inside = false;
                    while stack.len() > 0
                        invariant
                            self.wf(),
                            scene == self.scene(),
                            stack@.len() <= results.len(),
                            all == shapes(results),
                            bound + self.indent == self.indent * size,
                            0 <= bound,
                            1 <= size <= usize::MAX,
                            forall|k: int|
                                0 <= k < stack@.len() ==> stack@[k] == results[results.len() - 1
                                    - k],
                            forall|k: int| 0 <= k < results.len() ==> (#[trigger] results[k]).1.wf(),
                            forall|k: int|
                                0 <= k < results.len() ==> within(
                                    (#[trigger] results[k]).1@.lines(),
                                    bound,
                                ),
                            block.wf(),
                            within(block@, bound + self.indent),
                            stack_up(
                                scene.kinds,
                                node.kind as int,
                                all,
                                results.len() - stack@.len(),
                                block@,
                                inside,
                                scene.indent,
                            ) == stack_up(
                                scene.kinds,
                                node.kind as int,
                                all,
                                0,
                                fresh_block(),
                                false,
                                scene.indent,
                            ),
                        decreases stack@.len(),
                    {
                        let ghost k = results.len() - stack@.len();
                        let ghost lines = block@;
                        let (kind, child) = stack.pop().unwrap();
                        assert((kind, child) == results[k]);
                        assert(all[k] == (kind, child@));
                        proof {
                            block.lemma_has_line();
                            lemma_within_place(
                                scene.kinds,
                                node.kind as int,
                                lines,
                                inside,
                                kind,
                                child@,
                                scene.indent,
                                bound,
                            );
                        }
                        let role = self.language.role(node.kind, kind);
                        if child.first_token().is_none() {
                        } else {
                            match role {
                                Role::Start => {
                                    block.append(child);
                                    inside = true;
                                },
                                Role::End => {
                                    inside = false;
                                    block.turn(0);
                                    block.append(child);
                                },
                                Role::Sep => {
                                    block.append(child);
                                },
                                Role::Plain => {
                                    block.turn(self.indent as u128);
                                    let mut lines = child.to_block();
                                    if inside {
                                        assert(bound + self.indent <= u128::MAX) by (nonlinear_arith)
                                            requires
                                                bound + self.indent == self.indent * size,
                                                0 <= self.indent <= u32::MAX,
                                                0 <= size <= usize::MAX,
                                                usize::MAX <= 0xffff_ffff_ffff_ffff,
                                        ;
                                        lines.indent(self.indent as u128);
                                    }
                                    block.append_block(lines);
                                },
                            }
                        }
                    }
                    block.wrap()
                } else {
                    let mut line = Line::new();
                    while stack.len() > 0
                        invariant
                            stack@.len() <= results.len(),
                            all == shapes(results),
                            forall|k: int|
                                0 <= k < stack@.len() ==> stack@[k] == results[results.len() - 1
                                    - k],
                            forall|k: int| 0 <= k < results.len() ==> (#[trigger] results[k]).1.wf(),
                            line.wf(),
                            line@.indent == 0,
                            in_a_row(all, results.len() - stack@.len(), line@) == in_a_row(
                                all,
                                0,
                                LineView::empty(),
                            ),
                        decreases stack@.len(),
                    {
                        let ghost k = results.len() - stack@.len();
                        let (kind, child) = stack.pop().unwrap();
                        assert((kind, child) == results[k]);
                        assert(all[k] == (kind, child@));
                        match child {
                            LayoutResult::Single(a) => {
                                line.push(a);
                            },
                            LayoutResult::Line(b) => {
                                line.append(b);
                            },
                            LayoutResult::Block(_) => {},
                        }
                    }
                    assert(within(seq![line@], self.indent * size));
                    LayoutResult::Line(line)
                }
            },
        }
    }
}

/// A child's subtree is smaller than its parent's, and so is the indentation
/// that it can reach.
proof fn lemma_grows(indent: int, child: int, parent: int)
    requires
        0 <= indent,
        0 <= child <= parent,
    ensures
        indent * child <= indent * parent,
{
    assert(indent * child <= indent * parent) by (nonlinear_arith)
        requires
            0 <= indent,
            0 <= child <= parent,
    ;
}

/// Lines that stay within a bound stay within it when a result that does so
/// is put at their end.
proof fn lemma_within_append(lines: Seq<LineView>, r: Shape, bound: int)
    requires
        lines.len() >= 1,
        within(lines, bound),
        exists|inner: int| inner <= bound && within(r.lines(), inner),
    ensures
        within(lines_append(lines, r), bound),
{
    let inner = choose|inner: int| inner <= bound && within(r.lines(), inner);
    let after = lines_append(lines, r);
    assert forall|i: int| 0 <= i < after.len() implies 0 <= (#[trigger] after[i]).indent
        <= bound by {
        if i < lines.len() {
            assert(after[i].indent == lines[i].indent);
        } else {
            assert(r is Block);
            assert(after[i] == r.lines()[i - lines.len() + 1]);
        }
    }
}

/// Lines of a block that stay within a bound stay within one level more when
/// a child that stays within the bound is placed.
proof fn lemma_within_place(
    kinds: Seq<NodeSpec>,
    parent: int,
    lines: Seq<LineView>,
    inside: bool,
    kind: u16,
    r: Shape,
    indent: int,
    bound: int,
)
    requires
        lines.len() >= 1,
        0 <= indent,
        0 <= bound,
        within(lines, bound + indent),
        within(r.lines(), bound),
    ensures
        within(place(kinds, parent, lines, inside, kind, r, indent).0, bound + indent),
        place(kinds, parent, lines, inside, kind, r, indent).0.len() >= 1,
{
    let after = place(kinds, parent, lines, inside, kind, r, indent).0;
    if !r.blank() {
        match role_of(kinds, parent, kind) {
        Role::Start => {
            lemma_within_append(lines, r, bound + indent);
        },
        Role::Sep => {
            lemma_within_append(lines, r, bound + indent);
        },
        Role::End => {
            let broken = lines_turn(lines, 0);
            assert(within(broken, bound + indent));
            lemma_within_append(broken, r, bound + indent);
        },
        Role::Plain => {
            let broken = lines_turn(lines, indent);
            assert(within(broken, bound + indent));
            let theirs = if inside {
                lines_indented(r.lines(), indent)
            } else {
                r.lines()
            };
            assert(within(theirs, bound + indent));
            assert forall|i: int| 0 <= i < after.len() implies 0 <= (#[trigger] after[i]).indent
                <= bound + indent by {
                if i < broken.len() {
                    assert(after[i].indent == broken[i].indent);
                } else {
                    assert(after[i] == theirs[i - broken.len() + 1]);
                }
            }
        },
    }
    }
}

} // verus!

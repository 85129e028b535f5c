//! How the number of lines of a layout depends on the available width.

use crate::editor::layout::{
    fresh_block, last_token, lemma_total_width_one, lines_append, lines_indented, lines_turn,
    margin_between, LineView, Shape, TokenLayout,
};
use crate::editor::reflow::{
    child_at, compose, extend, faulty, in_a_row, layout, minus, place, scan, stack_up, Scan, Scene,
};
use crate::editor::layout::total_width;
use crate::editor::solid::{all_sound, hollow, lemma_filled, lemma_scan_filled, none_tall, sound};
use crate::editor::tree::nested;
use crate::language::{role_of, Role};
use crate::spec::NodeSpec;
use vstd::prelude::*;

verus! {

/// The number of lines of a result.
pub open spec fn height(s: Shape) -> int {
    s.lines().len() as int
}

/// Whether a child of kind `kind` starts a line in a block of kind `parent`:
/// a closing bracket or a plain child does, an opening bracket or a separator
/// does not.
pub open spec fn breaks(kinds: Seq<NodeSpec>, parent: int, kind: u16) -> bool {
    match role_of(kinds, parent, kind) {
        Role::Start => false,
        Role::Sep => false,
        Role::End => true,
        Role::Plain => true,
    }
}

/// The lines that one child adds to a block: none where it holds no token;
/// else the line that it starts, where a line with a token stands in front of
/// it, and the lines that it has beyond its first.
pub open spec fn adds(kinds: Seq<NodeSpec>, parent: int, child: (u16, Shape), started: bool) -> int {
    if child.1.blank() {
        0
    } else {
        (if started && breaks(kinds, parent, child.0) {
            1int
        } else {
            0int
        }) + height(child.1) - 1
    }
}

/// The lines that the children from `k` on add to a block. `started` says
/// whether the last line in front of them holds a token.
pub open spec fn grown(
    kinds: Seq<NodeSpec>,
    parent: int,
    done: Seq<(u16, Shape)>,
    k: int,
    started: bool,
) -> int
    decreases done.len() - k,
{
    if 0 <= k < done.len() {
        adds(kinds, parent, done[k], started) + grown(
            kinds,
            parent,
            done,
            k + 1,
            started || !done[k].1.blank(),
        )
    } else {
        0
    }
}

/// A sound result that holds a token has a line, and its last line holds a
/// token.
pub proof fn lemma_sound_ends(r: Shape)
    requires
        sound(r),
        !r.blank(),
    ensures
        height(r) >= 1,
        r.lines().last().items.len() > 0,
        r.lines()[0].items.len() > 0,
{
    if r == Shape::Line(LineView::empty()) {
    } else {
        assert(r.lines()[r.lines().len() - 1].items.len() > 0);
        assert(r.lines()[0].items.len() > 0);
    }
}

/// A result that holds no token is one empty line.
pub proof fn lemma_blank_is_empty(r: Shape)
    requires
        sound(r),
        r.blank(),
    ensures
        r == Shape::Line(LineView::empty()),
        height(r) == 1,
{
    if r != Shape::Line(LineView::empty()) {
        assert(r.lines()[0].items.len() > 0);
    }
}

/// A result put at the end of lines adds the lines that it has beyond its
/// first.
pub proof fn lemma_append_len(lines: Seq<LineView>, r: Shape)
    requires
        lines.len() >= 1,
        height(r) >= 1,
    ensures
        lines_append(lines, r).len() == lines.len() + height(r) - 1,
{
}

/// A child placed in a block adds the lines that [`adds`] counts, and the
/// last line holds a token then where it did before or the child holds one.
pub proof fn lemma_place_len(
    kinds: Seq<NodeSpec>,
    parent: int,
    lines: Seq<LineView>,
    inside: bool,
    kind: u16,
    r: Shape,
    indent: int,
)
    requires
        lines.len() >= 1,
        sound(r),
    ensures
        place(kinds, parent, lines, inside, kind, r, indent).0.len() == lines.len() + adds(
            kinds,
            parent,
            (kind, r),
            lines.last().items.len() > 0,
        ),
        place(kinds, parent, lines, inside, kind, r, indent).0.len() >= 1,
        place(kinds, parent, lines, inside, kind, r, indent).0.last().items.len() > 0 <==> (
        lines.last().items.len() > 0 || !r.blank()),
{
    if !r.blank() {
        lemma_sound_ends(r);
        let after = place(kinds, parent, lines, inside, kind, r, indent).0;
        match role_of(kinds, parent, kind) {
            Role::Start => {
                lemma_append_len(lines, r);
            },
            Role::Sep => {
                lemma_append_len(lines, r);
            },
            Role::End => {
                lemma_append_len(lines_turn(lines, 0), r);
            },
            Role::Plain => {
                let theirs = if inside {
                    lines_indented(r.lines(), indent)
                } else {
                    r.lines()
                };
                assert(theirs.last().items == r.lines().last().items);
                assert(theirs[0].items == r.lines()[0].items);
            },
        }
    }
}

/// A block has the lines that it started with and those that its children
/// add.
pub proof fn lemma_stack_len(
    kinds: Seq<NodeSpec>,
    parent: int,
    done: Seq<(u16, Shape)>,
    k: int,
    lines: Seq<LineView>,
    inside: bool,
    indent: int,
)
    requires
        lines.len() >= 1,
        all_sound(done),
        0 <= k,
    ensures
        stack_up(kinds, parent, done, k, lines, inside, indent).len() == lines.len() + grown(
            kinds,
            parent,
            done,
            k,
            lines.last().items.len() > 0,
        ),
        grown(kinds, parent, done, k, lines.last().items.len() > 0) >= 0,
    decreases done.len() - k,
{
    if k < done.len() {
        let next = place(kinds, parent, lines, inside, done[k].0, done[k].1, indent);
        assert(sound(done[k].1));
        lemma_place_len(kinds, parent, lines, inside, done[k].0, done[k].1, indent);
        lemma_stack_len(kinds, parent, done, k + 1, next.0, next.1, indent);
        if !done[k].1.blank() {
            lemma_sound_ends(done[k].1);
        }
    }
}

/// Children that hold a token where the others do, and have at most as many
/// lines, add at most as many lines to a block.
pub proof fn lemma_grown_monotone(
    kinds: Seq<NodeSpec>,
    parent: int,
    a: Seq<(u16, Shape)>,
    b: Seq<(u16, Shape)>,
    k: int,
    started: bool,
)
    requires
        a.len() == b.len(),
        all_sound(b),
        forall|i: int|
            0 <= i < a.len() ==> (#[trigger] a[i]).0 == b[i].0 && a[i].1.blank() == b[i].1.blank()
                && height(b[i].1) <= height(a[i].1),
        0 <= k,
    ensures
        0 <= grown(kinds, parent, b, k, started) <= grown(kinds, parent, a, k, started),
    decreases a.len() - k,
{
    if k < a.len() {
        assert(a[k].0 == b[k].0);
        assert(sound(b[k].1));
        if !b[k].1.blank() {
            lemma_sound_ends(b[k].1);
        }
        lemma_grown_monotone(kinds, parent, a, b, k + 1, started || !a[k].1.blank());
    }
}

/// Every result has a line, and a result of the block form has two.
pub proof fn lemma_height(scene: Scene, id: int, first: int, rest: int)
    requires
        nested(scene.nodes),
    ensures
        height(layout(scene, id, first, rest)) >= 1,
        layout(scene, id, first, rest) is Block ==> height(layout(scene, id, first, rest)) >= 2,
{
    if 0 <= id < scene.nodes.len() {
        lemma_filled(scene, id, first, rest);
        let r = layout(scene, id, first, rest);
        if r.blank() {
            lemma_blank_is_empty(r);
        } else {
            lemma_sound_ends(r);
        }
    }
}

/// A composition has at least the lines that it started with.
pub proof fn lemma_compose_len(
    scene: Scene,
    p: int,
    c: int,
    lines: Seq<LineView>,
    first: int,
    rest: int,
)
    requires
        nested(scene.nodes),
        lines.len() >= 1,
    ensures
        compose(scene, p, c, lines, first, rest).len() >= lines.len(),
    decreases scene.nodes.len() - p, scene.nodes.len() - c,
{
    if child_at(scene, p, c) {
        let width = if lines.len() == 1 {
            first
        } else {
            rest
        };
        let r = layout(scene, c, minus(width, lines.last().width()), rest);
        lemma_height(scene, c, minus(width, lines.last().width()), rest);
        lemma_append_len(lines, r);
        lemma_compose_len(scene, p, scene.nodes[c].end as int, lines_append(lines, r), first, rest);
    }
}

/// Tokens with the margins in front of them.
pub type Items = Seq<(u32, TokenLayout)>;

/// The tokens of a result of one line.
pub open spec fn row(r: Shape) -> Items {
    match r {
        Shape::Single(t) => seq![(0u32, t)],
        Shape::Line(l) => l.items,
        Shape::Block(_) => Seq::empty(),
    }
}

/// The tokens of `a` followed by those of `b`, of which the first gets the
/// margin that it merges to with the token in front of it.
pub open spec fn join(a: Items, b: Items) -> Items {
    if b.len() == 0 {
        a
    } else {
        a.push((margin_between(last_token(a), b[0].1), b[0].1)) + b.subrange(1, b.len() as int)
    }
}

/// The tokens of `items` followed by those of the rows from `k` on.
pub open spec fn fold_rows(rows: Seq<Items>, k: int, items: Items) -> Items
    decreases rows.len() - k,
{
    if 0 <= k < rows.len() {
        fold_rows(rows, k + 1, join(items, rows[k]))
    } else {
        items
    }
}

/// The tokens of node `id` on one line.
pub open spec fn natural_items(scene: Scene, id: int) -> Items
    decreases scene.nodes.len() - id, scene.nodes.len() + 1,
{
    if hollow(scene, id) {
        fold_rows(natural_rows(scene, id, id + 1, Seq::empty()), 0, Seq::empty())
    } else {
        row(layout(scene, id, 0, 0))
    }
}

/// The tokens of each child of node `p` from `c` on, on one line, behind
/// those in `rows`.
pub open spec fn natural_rows(scene: Scene, p: int, c: int, rows: Seq<Items>) -> Seq<Items>
    decreases scene.nodes.len() - p, scene.nodes.len() - c,
{
    if child_at(scene, p, c) {
        natural_rows(scene, p, scene.nodes[c].end as int, rows.push(natural_items(scene, c)))
    } else {
        rows
    }
}

/// A result has a line, and one of the block form has two.
pub open spec fn proper(r: Shape) -> bool {
    height(r) >= 1 && (r is Block ==> height(r) >= 2)
}

/// Every child has a line, and one of the block form has two.
pub open spec fn all_proper(done: Seq<(u16, Shape)>) -> bool {
    forall|i: int| 0 <= i < done.len() ==> proper((#[trigger] done[i]).1)
}

/// The children laid out so far have the tokens of the rows, but for the
/// ones of several lines.
pub open spec fn follows(done: Seq<(u16, Shape)>, rows: Seq<Items>) -> bool {
    &&& done.len() == rows.len()
    &&& forall|i: int|
        0 <= i < done.len() ==> (!((#[trigger] done[i]).1 is Block) ==> row(done[i].1) == rows[i])
}

/// A line with a result of one line put at its end holds the tokens of the
/// line followed by those of the result.
pub proof fn lemma_extend_items(line: LineView, r: Shape)
    requires
        !(r is Block),
    ensures
        extend(line, r).items == join(line.items, row(r)),
{
    match r {
        Shape::Single(t) => {
            assert(extend(line, r).items =~= join(line.items, row(r)));
        },
        Shape::Line(l) => {
            assert(extend(line, r).items =~= join(line.items, row(r)));
        },
        Shape::Block(_) => {},
    }
}

/// The width of a result of one line, and its first and last token, are
/// those of its tokens.
pub proof fn lemma_row_face(r: Shape)
    requires
        !(r is Block),
    ensures
        r.width() == total_width(row(r)),
        r.first_token() == if row(r).len() > 0 {
            Some(row(r)[0].1)
        } else {
            None
        },
        r.last_token() == last_token(row(r)),
{
    match r {
        Shape::Single(t) => {
            lemma_total_width_one((0u32, t));
        },
        _ => {},
    }
}

/// The tokens of rows behind one more row are those of the rows followed by
/// those of that row.
pub proof fn lemma_fold_rows_push(rows: Seq<Items>, k: int, items: Items, x: Items)
    requires
        0 <= k <= rows.len(),
    ensures
        fold_rows(rows.push(x), k, items) == join(fold_rows(rows, k, items), x),
    decreases rows.len() - k,
{
    let longer = rows.push(x);
    if k < rows.len() {
        assert(longer[k] == rows[k]);
        lemma_fold_rows_push(rows, k + 1, join(items, rows[k]), x);
    } else {
        assert(longer[k] == x);
        assert(fold_rows(longer, k + 1, join(items, x)) == join(items, x));
    }
}

/// A row of children of one line each holds the tokens of their rows.
pub proof fn lemma_row_fold(done: Seq<(u16, Shape)>, rows: Seq<Items>, k: int, line: LineView)
    requires
        follows(done, rows),
        none_tall(done),
        0 <= k,
    ensures
        in_a_row(done, k, line).items == fold_rows(rows, k, line.items),
    decreases done.len() - k,
{
    if k < done.len() {
        lemma_extend_items(line, done[k].1);
        lemma_row_fold(done, rows, k + 1, extend(line, done[k].1));
    }
}

/// A block that stays on one line holds the tokens of the rows of its
/// children.
pub proof fn lemma_stack_single(
    kinds: Seq<NodeSpec>,
    parent: int,
    done: Seq<(u16, Shape)>,
    rows: Seq<Items>,
    k: int,
    lines: Seq<LineView>,
    inside: bool,
    indent: int,
)
    requires
        follows(done, rows),
        all_sound(done),
        all_proper(done),
        0 <= k,
        lines.len() == 1,
        stack_up(kinds, parent, done, k, lines, inside, indent).len() == 1,
    ensures
        stack_up(kinds, parent, done, k, lines, inside, indent)[0].items == fold_rows(
            rows,
            k,
            lines[0].items,
        ),
    decreases done.len() - k,
{
    if k < done.len() {
        let r = done[k].1;
        assert(sound(r));
        assert(proper(r));
        let next = place(kinds, parent, lines, inside, done[k].0, r, indent);
        lemma_place_len(kinds, parent, lines, inside, done[k].0, r, indent);
        lemma_stack_len(kinds, parent, done, k + 1, next.0, next.1, indent);
        assert(next.0.len() == 1);
        if r.blank() {
            lemma_blank_is_empty(r);
            assert(join(lines[0].items, rows[k]) =~= lines[0].items);
        } else {
            lemma_sound_ends(r);
            assert(!(r is Block));
            assert(row(r) == rows[k]);
            let line = lines[0];
            let started = line.items.len() > 0;
            match role_of(kinds, parent, done[k].0) {
                Role::Start => {
                    lemma_extend_items(line, r);
                    assert(next.0[0] == extend(line, r));
                },
                Role::Sep => {
                    lemma_extend_items(line, r);
                    assert(next.0[0] == extend(line, r));
                },
                Role::End => {
                    assert(!started);
                    let fresh = LineView::empty().indented(0);
                    lemma_extend_items(fresh, r);
                    assert(next.0[0] == extend(fresh, r));
                    assert(line.items =~= fresh.items);
                },
                Role::Plain => {
                    assert(!started);
                    let fresh = LineView::empty().indented(indent);
                    let theirs = if inside {
                        lines_indented(r.lines(), indent)
                    } else {
                        r.lines()
                    };
                    assert(theirs[0].items == row(r));
                    assert(next.0[0] == fresh.append(theirs[0]));
                    lemma_extend_items(fresh, Shape::Line(theirs[0]));
                    assert(line.items =~= fresh.items);
                },
            }
        }
        lemma_stack_single(kinds, parent, done, rows, k + 1, next.0, next.1, indent);
    }
}

/// A composition that stays on one line holds the tokens of the rows of its
/// children.
pub proof fn lemma_compose_single(
    scene: Scene,
    p: int,
    c: int,
    lines: Seq<LineView>,
    rows: Seq<Items>,
    first: int,
    rest: int,
)
    requires
        nested(scene.nodes),
        lines.len() == 1,
        lines[0].items == fold_rows(rows, 0, Seq::empty()),
    ensures
        compose(scene, p, c, lines, first, rest).len() == 1 ==> compose(
            scene,
            p,
            c,
            lines,
            first,
            rest,
        )[0].items == fold_rows(natural_rows(scene, p, c, rows), 0, Seq::empty()),
    decreases scene.nodes.len() - p, scene.nodes.len() - c,
{
    if child_at(scene, p, c) {
        let room = minus(first, lines.last().width());
        let r = layout(scene, c, room, rest);
        let next = lines_append(lines, r);
        lemma_row_is_natural(scene, c, room, rest);
        lemma_height(scene, c, room, rest);
        lemma_append_len(lines, r);
        lemma_compose_len(scene, p, scene.nodes[c].end as int, next, first, rest);
        if next.len() == 1 {
            assert(!(r is Block));
            lemma_extend_items(lines[0], r);
            assert(next[0] == extend(lines[0], r));
            lemma_fold_rows_push(rows, 0, Seq::empty(), natural_items(scene, c));
            lemma_compose_single(
                scene,
                p,
                scene.nodes[c].end as int,
                next,
                rows.push(natural_items(scene, c)),
                first,
                rest,
            );
        }
    }
}

/// The children of a scan have the tokens of their rows on one line, but for
/// the ones of several lines; and each has a line, and two where it is of the
/// block form.
pub proof fn lemma_scan_follows(
    scene: Scene,
    p: int,
    c: int,
    state: Scan,
    rows: Seq<Items>,
    first: int,
    rest: int,
)
    requires
        nested(scene.nodes),
        follows(state.done, rows),
        all_proper(state.done),
    ensures
        follows(scan(scene, p, c, state, first, rest).done, natural_rows(scene, p, c, rows)),
        all_proper(scan(scene, p, c, state, first, rest).done),
    decreases scene.nodes.len() - p, scene.nodes.len() - c,
{
    if child_at(scene, p, c) {
        let own = minus(rest, scene.indent);
        let room = if state.block {
            own
        } else {
            minus(first, state.width)
        };
        let r = layout(scene, c, room, own);
        let again = layout(scene, c, own, own);
        lemma_row_is_natural(scene, c, room, own);
        lemma_row_is_natural(scene, c, own, own);
        lemma_height(scene, c, room, own);
        lemma_height(scene, c, own, own);
        let kind = scene.nodes[c].kind;
        let next = state.step(kind, r, again, room);
        let longer = rows.push(natural_items(scene, c));
        assert forall|i: int| 0 <= i < next.done.len() implies proper((#[trigger] next.done[i]).1)
            && (!(next.done[i].1 is Block) ==> row(next.done[i].1) == longer[i]) by {
            if i < state.done.len() {
                assert(next.done[i] == state.done[i]);
                assert(longer[i] == rows[i]);
            }
        }
        lemma_scan_follows(scene, p, scene.nodes[c].end as int, next, longer, first, rest);
    }
}

/// A result that is no block holds the tokens of its node on one line.
pub proof fn lemma_row_is_natural(scene: Scene, id: int, first: int, rest: int)
    requires
        nested(scene.nodes),
        0 <= id < scene.nodes.len(),
    ensures
        !(layout(scene, id, first, rest) is Block) ==> row(layout(scene, id, first, rest))
            == natural_items(scene, id),
    decreases scene.nodes.len() - id, scene.nodes.len() + 1,
{
    if faulty(scene, id) {
    } else {
        let node = scene.nodes[id];
        match scene.kinds[node.kind as int] {
            NodeSpec::Tree { .. } => {
                let s = scan(scene, id, id + 1, Scan::start(), first, rest);
                let rows = natural_rows(scene, id, id + 1, Seq::empty());
                lemma_scan_follows(scene, id, id + 1, Scan::start(), Seq::empty(), first, rest);
                lemma_scan_filled(scene, id, id + 1, Scan::start(), first, rest);
                if s.block {
                    let lines = stack_up(
                        scene.kinds,
                        node.kind as int,
                        s.done,
                        0,
                        fresh_block(),
                        false,
                        scene.indent,
                    );
                    if lines.len() == 1 {
                        lemma_stack_single(
                            scene.kinds,
                            node.kind as int,
                            s.done,
                            rows,
                            0,
                            fresh_block(),
                            false,
                            scene.indent,
                        );
                    }
                } else {
                    lemma_row_fold(s.done, rows, 0, LineView::empty());
                }
            },
            NodeSpec::Compose => {
                lemma_compose_single(
                    scene,
                    id,
                    id + 1,
                    fresh_block(),
                    Seq::empty(),
                    first,
                    rest,
                );
            },
            _ => {},
        }
    }
}

/// Whether node `j` is of the kind of a bracketed tree.
pub open spec fn tree_kind(scene: Scene, j: int) -> bool {
    &&& 0 <= j < scene.nodes.len()
    &&& scene.nodes[j].kind < scene.kinds.len()
    &&& scene.kinds[scene.nodes[j].kind as int] is Tree
}

/// Whether the subtree of node `id` holds no bracketed tree.
pub open spec fn flat(scene: Scene, id: int) -> bool {
    forall|j: int| id <= j < scene.nodes[id].end ==> !#[trigger] tree_kind(scene, j)
}

/// Whether no child of node `p` from `c` on holds a bracketed tree.
pub open spec fn all_flat_from(scene: Scene, p: int, c: int) -> bool
    decreases scene.nodes.len() - c,
{
    if child_at(scene, p, c) {
        flat(scene, c) && all_flat_from(scene, p, scene.nodes[c].end as int)
    } else {
        true
    }
}

/// Whether the layout of node `id` with the room `first` and `rest` is mild:
/// in every composition that is laid out for it, the children behind the
/// first child of several lines hold no bracketed tree.
pub open spec fn mild(scene: Scene, id: int, first: int, rest: int) -> bool
    decreases scene.nodes.len() - id, scene.nodes.len() + 1,
{
    if !(0 <= id < scene.nodes.len()) || faulty(scene, id) {
        true
    } else {
        match scene.kinds[scene.nodes[id].kind as int] {
            NodeSpec::Tree { .. } => mild_scan(scene, id, id + 1, Scan::start(), first, rest),
            NodeSpec::Compose => mild_run(scene, id, id + 1, fresh_block(), first, rest),
            _ => true,
        }
    }
}

/// Whether the layouts of the children of the bracketed tree `p` from `c` on
/// are mild, as the scan lays them out: in the room that is left, and on a
/// line of their own.
pub open spec fn mild_scan(
    scene: Scene,
    p: int,
    c: int,
    state: Scan,
    first: int,
    rest: int,
) -> bool
    decreases scene.nodes.len() - p, scene.nodes.len() - c,
{
    if child_at(scene, p, c) {
        let own = minus(rest, scene.indent);
        let room = if state.block {
            own
        } else {
            minus(first, state.width)
        };
        let r = layout(scene, c, room, own);
        let again = layout(scene, c, own, own);
        &&& mild(scene, c, room, own)
        &&& mild(scene, c, own, own)
        &&& mild_scan(
            scene,
            p,
            scene.nodes[c].end as int,
            state.step(scene.nodes[c].kind, r, again, room),
            first,
            rest,
        )
    } else {
        true
    }
}

/// Whether the layouts of the children of the composition `p` from `c` on are
/// mild, and those behind the first child of several lines hold no bracketed
/// tree.
pub open spec fn mild_run(
    scene: Scene,
    p: int,
    c: int,
    lines: Seq<LineView>,
    first: int,
    rest: int,
) -> bool
    decreases scene.nodes.len() - p, scene.nodes.len() - c,
{
    if child_at(scene, p, c) {
        let width = if lines.len() == 1 {
            first
        } else {
            rest
        };
        let room = minus(width, lines.last().width());
        let r = layout(scene, c, room, rest);
        &&& if lines.len() == 1 {
            mild(scene, c, room, rest)
        } else {
            flat(scene, c)
        }
        &&& mild_run(scene, p, scene.nodes[c].end as int, lines_append(lines, r), first, rest)
    } else {
        true
    }
}

/// The subtree of a child lies in that of its parent.
pub proof fn lemma_child_within(scene: Scene, p: int, c: int)
    requires
        nested(scene.nodes),
        child_at(scene, p, c),
    ensures
        p < c,
        scene.nodes[c].end <= scene.nodes[p].end,
        flat(scene, p) ==> flat(scene, c),
{
    assert(scene.nodes[c].end <= scene.nodes[p].end);
}

/// A subtree without a bracketed tree is laid out on one line, the same at
/// every width.
pub proof fn lemma_flat(scene: Scene, id: int, first: int, rest: int, first2: int, rest2: int)
    requires
        nested(scene.nodes),
        0 <= id < scene.nodes.len() ==> flat(scene, id),
    ensures
        layout(scene, id, first, rest) == layout(scene, id, first2, rest2),
        !(layout(scene, id, first, rest) is Block),
    decreases scene.nodes.len() - id, scene.nodes.len() + 1,
{
    if !(0 <= id < scene.nodes.len()) || faulty(scene, id) {
    } else {
        let node = scene.nodes[id];
        match scene.kinds[node.kind as int] {
            NodeSpec::Tree { .. } => {
                assert(tree_kind(scene, id));
            },
            NodeSpec::Compose => {
                lemma_compose_flat(scene, id, id + 1, fresh_block(), first, rest, first2, rest2);
            },
            _ => {},
        }
    }
}

/// A composition without a bracketed tree stays on its one line, the same at
/// every width.
pub proof fn lemma_compose_flat(
    scene: Scene,
    p: int,
    c: int,
    lines: Seq<LineView>,
    first: int,
    rest: int,
    first2: int,
    rest2: int,
)
    requires
        nested(scene.nodes),
        0 <= p < scene.nodes.len(),
        flat(scene, p),
        lines.len() == 1,
    ensures
        compose(scene, p, c, lines, first, rest) == compose(scene, p, c, lines, first2, rest2),
        compose(scene, p, c, lines, first, rest).len() == 1,
    decreases scene.nodes.len() - p, scene.nodes.len() - c,
{
    if child_at(scene, p, c) {
        lemma_child_within(scene, p, c);
        let w = lines.last().width();
        lemma_flat(scene, c, minus(first, w), rest, minus(first2, w), rest2);
        let r = layout(scene, c, minus(first, w), rest);
        lemma_compose_flat(
            scene,
            p,
            scene.nodes[c].end as int,
            lines_append(lines, r),
            first,
            rest,
            first2,
            rest2,
        );
    }
}

/// Children without a bracketed tree add no line to a composition.
pub proof fn lemma_compose_keeps_len(
    scene: Scene,
    p: int,
    c: int,
    lines: Seq<LineView>,
    first: int,
    rest: int,
)
    requires
        nested(scene.nodes),
        all_flat_from(scene, p, c),
        lines.len() >= 1,
    ensures
        compose(scene, p, c, lines, first, rest).len() == lines.len(),
    decreases scene.nodes.len() - p, scene.nodes.len() - c,
{
    if child_at(scene, p, c) {
        let width = if lines.len() == 1 {
            first
        } else {
            rest
        };
        let room = minus(width, lines.last().width());
        let r = layout(scene, c, room, rest);
        lemma_flat(scene, c, room, rest, room, rest);
        lemma_append_len(lines, r);
        lemma_compose_keeps_len(
            scene,
            p,
            scene.nodes[c].end as int,
            lines_append(lines, r),
            first,
            rest,
        );
    }
}

/// Behind a child of several lines, the children of a mild composition hold
/// no bracketed tree.
pub proof fn lemma_mild_run_flat(
    scene: Scene,
    p: int,
    c: int,
    lines: Seq<LineView>,
    first: int,
    rest: int,
)
    requires
        nested(scene.nodes),
        lines.len() > 1,
        mild_run(scene, p, c, lines, first, rest),
    ensures
        all_flat_from(scene, p, c),
    decreases scene.nodes.len() - p, scene.nodes.len() - c,
{
    if child_at(scene, p, c) {
        let room = minus(rest, lines.last().width());
        let r = layout(scene, c, room, rest);
        lemma_height(scene, c, room, rest);
        lemma_append_len(lines, r);
        lemma_mild_run_flat(
            scene,
            p,
            scene.nodes[c].end as int,
            lines_append(lines, r),
            first,
            rest,
        );
    }
}

/// How a scan with more room stands to the scan with less: it has come as
/// far, each of its children holds a token where the other's does and has at
/// most as many lines, and as long as the one with less room has not turned
/// into a block the other has not, and they are as wide and end alike.
pub open spec fn eased(narrow: Scan, wide: Scan) -> bool {
    &&& narrow.done.len() == wide.done.len()
    &&& all_sound(narrow.done)
    &&& all_sound(wide.done)
    &&& all_proper(narrow.done)
    &&& all_proper(wide.done)
    &&& forall|i: int|
        0 <= i < narrow.done.len() ==> {
            &&& (#[trigger] narrow.done[i]).0 == wide.done[i].0
            &&& narrow.done[i].1.blank() == wide.done[i].1.blank()
            &&& height(wide.done[i].1) <= height(narrow.done[i].1)
        }
    &&& !narrow.block ==> !wide.block && wide.width == narrow.width && wide.last == narrow.last
}

/// More room never gives more lines, where the layout with less room is
/// mild: the layout of a node with more room on its first line and on its
/// other lines has at most as many lines as with less.
pub proof fn wider_is_never_longer(
    scene: Scene,
    id: int,
    first: int,
    rest: int,
    first2: int,
    rest2: int,
)
    requires
        nested(scene.nodes),
        mild(scene, id, first, rest),
        first <= first2,
        rest <= rest2,
    ensures
        height(layout(scene, id, first2, rest2)) <= height(layout(scene, id, first, rest)),
    decreases scene.nodes.len() - id, scene.nodes.len() + 1,
{
    if !(0 <= id < scene.nodes.len()) || faulty(scene, id) {
    } else {
        let node = scene.nodes[id];
        match scene.kinds[node.kind as int] {
            NodeSpec::Tree { .. } => {
                let narrow = scan(scene, id, id + 1, Scan::start(), first, rest);
                let wide = scan(scene, id, id + 1, Scan::start(), first2, rest2);
                lemma_scan_eased(
                    scene,
                    id,
                    id + 1,
                    Scan::start(),
                    Scan::start(),
                    first,
                    rest,
                    first2,
                    rest2,
                );
                lemma_height(scene, id, first, rest);
                if wide.block {
                    lemma_stack_len(
                        scene.kinds,
                        node.kind as int,
                        narrow.done,
                        0,
                        fresh_block(),
                        false,
                        scene.indent,
                    );
                    lemma_stack_len(
                        scene.kinds,
                        node.kind as int,
                        wide.done,
                        0,
                        fresh_block(),
                        false,
                        scene.indent,
                    );
                    lemma_grown_monotone(
                        scene.kinds,
                        node.kind as int,
                        narrow.done,
                        wide.done,
                        0,
                        false,
                    );
                }
            },
            NodeSpec::Compose => {
                lemma_compose_eased(
                    scene,
                    id,
                    id + 1,
                    fresh_block(),
                    fresh_block(),
                    first,
                    rest,
                    first2,
                    rest2,
                );
                lemma_compose_len(scene, id, id + 1, fresh_block(), first, rest);
                lemma_compose_len(scene, id, id + 1, fresh_block(), first2, rest2);
            },
            _ => {},
        }
    }
}

/// A composition with more room has at most as many lines as the mild one
/// with less.
pub proof fn lemma_compose_eased(
    scene: Scene,
    p: int,
    c: int,
    lines: Seq<LineView>,
    lines2: Seq<LineView>,
    first: int,
    rest: int,
    first2: int,
    rest2: int,
)
    requires
        nested(scene.nodes),
        0 <= p < scene.nodes.len(),
        mild_run(scene, p, c, lines, first, rest),
        first <= first2,
        rest <= rest2,
        lines.len() == 1,
        lines2.len() == 1,
        lines2[0].items == lines[0].items,
    ensures
        compose(scene, p, c, lines2, first2, rest2).len() <= compose(
            scene,
            p,
            c,
            lines,
            first,
            rest,
        ).len(),
    decreases scene.nodes.len() - p, scene.nodes.len() - c,
{
    if child_at(scene, p, c) {
        let end = scene.nodes[c].end as int;
        let w = lines.last().width();
        assert(lines2.last().width() == w);
        let r = layout(scene, c, minus(first, w), rest);
        let r2 = layout(scene, c, minus(first2, w), rest2);
        let next = lines_append(lines, r);
        let next2 = lines_append(lines2, r2);
        lemma_height(scene, c, minus(first, w), rest);
        lemma_height(scene, c, minus(first2, w), rest2);
        lemma_append_len(lines, r);
        lemma_append_len(lines2, r2);
        wider_is_never_longer(scene, c, minus(first, w), rest, minus(first2, w), rest2);
        if r is Block {
            lemma_mild_run_flat(scene, p, end, next, first, rest);
            lemma_compose_keeps_len(scene, p, end, next, first, rest);
            lemma_compose_keeps_len(scene, p, end, next2, first2, rest2);
        } else {
            lemma_row_is_natural(scene, c, minus(first, w), rest);
            lemma_row_is_natural(scene, c, minus(first2, w), rest2);
            lemma_extend_items(lines[0], r);
            lemma_extend_items(lines2[0], r2);
            assert(next[0] == extend(lines[0], r));
            assert(next2[0] == extend(lines2[0], r2));
            lemma_compose_eased(scene, p, end, next, next2, first, rest, first2, rest2);
        }
    }
}

/// A scan with more room stays eased against the mild scan with less.
pub proof fn lemma_scan_eased(
    scene: Scene,
    p: int,
    c: int,
    narrow: Scan,
    wide: Scan,
    first: int,
    rest: int,
    first2: int,
    rest2: int,
)
    requires
        nested(scene.nodes),
        0 <= p < scene.nodes.len(),
        mild_scan(scene, p, c, narrow, first, rest),
        first <= first2,
        rest <= rest2,
        eased(narrow, wide),
    ensures
        eased(
            scan(scene, p, c, narrow, first, rest),
            scan(scene, p, c, wide, first2, rest2),
        ),
    decreases scene.nodes.len() - p, scene.nodes.len() - c,
{
    if child_at(scene, p, c) {
        let kind = scene.nodes[c].kind;
        let own = minus(rest, scene.indent);
        let own2 = minus(rest2, scene.indent);
        let room = if narrow.block {
            own
        } else {
            minus(first, narrow.width)
        };
        let room2 = if wide.block {
            own2
        } else {
            minus(first2, wide.width)
        };
        let r = layout(scene, c, room, own);
        let r2 = layout(scene, c, room2, own2);
        let again = layout(scene, c, own, own);
        let again2 = layout(scene, c, own2, own2);
        lemma_height(scene, c, room, own);
        lemma_height(scene, c, room2, own2);
        lemma_height(scene, c, own, own);
        lemma_height(scene, c, own2, own2);
        lemma_filled(scene, c, room, own);
        lemma_filled(scene, c, room2, own2);
        lemma_filled(scene, c, own, own);
        lemma_filled(scene, c, own2, own2);
        wider_is_never_longer(scene, c, own, own, own2, own2);
        if !narrow.block {
            wider_is_never_longer(scene, c, room, own, room2, own2);
            lemma_row_is_natural(scene, c, room, own);
            lemma_row_is_natural(scene, c, room2, own2);
            if !(r is Block) {
                lemma_row_face(r);
                lemma_row_face(r2);
            }
        }
        let next = narrow.step(kind, r, again, room);
        let next2 = wide.step(kind, r2, again2, room2);
        assert(eased(next, next2)) by {
            assert forall|i: int| 0 <= i < next.done.len() implies sound(
                (#[trigger] next.done[i]).1,
            ) && proper(next.done[i].1) by {
                if i < narrow.done.len() {
                    assert(next.done[i] == narrow.done[i]);
                }
            }
            assert forall|i: int| 0 <= i < next2.done.len() implies sound(
                (#[trigger] next2.done[i]).1,
            ) && proper(next2.done[i].1) by {
                if i < wide.done.len() {
                    assert(next2.done[i] == wide.done[i]);
                }
            }
            assert forall|i: int| 0 <= i < next.done.len() implies {
                &&& (#[trigger] next.done[i]).0 == next2.done[i].0
                &&& next.done[i].1.blank() == next2.done[i].1.blank()
                &&& height(next2.done[i].1) <= height(next.done[i].1)
            } by {
                if i < narrow.done.len() {
                    assert(next.done[i] == narrow.done[i]);
                    assert(next2.done[i] == wide.done[i]);
                }
            }
        }
        lemma_scan_eased(
            scene,
            p,
            scene.nodes[c].end as int,
            next,
            next2,
            first,
            rest,
            first2,
            rest2,
        );
    }
}

} // verus!

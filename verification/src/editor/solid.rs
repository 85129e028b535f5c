//! Every line of a layout holds a token.

use crate::editor::layout::{
    fresh_block, lines_append, lines_indented, lines_turn, solid, LineView, Shape,
};
use crate::editor::reflow::{
    child_at, compose, extend, faulty, in_a_row, layout, minus, place, scan, stack_up, Scan, Scene,
};
use crate::editor::tree::nested;
use crate::language::{role_of, Role};
use crate::spec::NodeSpec;
use vstd::prelude::*;

verus! {

/// Whether node `j` is a bracketed tree or a composition that can be laid
/// out: a node that holds no token itself.
pub open spec fn hollow(scene: Scene, j: int) -> bool {
    &&& 0 <= j < scene.nodes.len()
    &&& !faulty(scene, j)
    &&& (scene.kinds[scene.nodes[j].kind as int] is Tree || scene.kinds[scene.nodes[j].kind as int]
        is Compose)
}

/// Whether no node from `a` up to `b` holds a token.
pub open spec fn bare_from(scene: Scene, a: int, b: int) -> bool {
    forall|j: int| a <= j < b ==> #[trigger] hollow(scene, j)
}

/// Whether the subtree of node `id` holds no token: it is made up of
/// bracketed trees and compositions alone.
pub open spec fn bare(scene: Scene, id: int) -> bool {
    bare_from(scene, id, scene.nodes[id].end as int)
}

/// A result is one empty line, or lines that hold a token each.
pub open spec fn sound(r: Shape) -> bool {
    r == Shape::Line(LineView::empty()) || (r.lines().len() >= 1 && solid(r.lines()))
}

/// Every child is one empty line, or lines that hold a token each.
pub open spec fn all_sound(done: Seq<(u16, Shape)>) -> bool {
    forall|i: int| 0 <= i < done.len() ==> sound((#[trigger] done[i]).1)
}

/// No child from `k` on holds a token.
pub open spec fn all_blank(done: Seq<(u16, Shape)>, k: int) -> bool {
    forall|i: int| k <= i < done.len() ==> (#[trigger] done[i]).1.blank()
}

/// No child is of several lines.
pub open spec fn none_tall(done: Seq<(u16, Shape)>) -> bool {
    forall|i: int| 0 <= i < done.len() ==> !((#[trigger] done[i]).1 is Block)
}

/// The lines are one line without a token.
pub open spec fn pristine(lines: Seq<LineView>) -> bool {
    lines.len() == 1 && lines[0].items.len() == 0
}

/// The layout of a node is one empty line where its subtree holds no token,
/// and lines that hold a token each where it holds one.
pub proof fn lemma_filled(scene: Scene, id: int, first: int, rest: int)
    requires
        nested(scene.nodes),
        0 <= id < scene.nodes.len(),
    ensures
        sound(layout(scene, id, first, rest)),
        layout(scene, id, first, rest).blank() <==> bare(scene, id),
    decreases scene.nodes.len() - id, scene.nodes.len() + 1,
{
    let node = scene.nodes[id];
    if faulty(scene, id) {
        assert(!hollow(scene, id));
    } else {
        match scene.kinds[node.kind as int] {
            NodeSpec::Tree { .. } => {
                assert(hollow(scene, id));
                let s = scan(scene, id, id + 1, Scan::start(), first, rest);
                lemma_scan_filled(scene, id, id + 1, Scan::start(), first, rest);
                assert(bare(scene, id) <==> bare_from(scene, id + 1, node.end as int));
                if s.block {
                    lemma_stack_filled(
                        scene.kinds,
                        node.kind as int,
                        s.done,
                        0,
                        fresh_block(),
                        false,
                        scene.indent,
                    );
                } else {
                    lemma_row_filled(s.done, 0, LineView::empty());
                }
            },
            NodeSpec::Compose => {
                assert(hollow(scene, id));
                lemma_compose_filled(scene, id, id + 1, fresh_block(), first, rest);
                assert(bare(scene, id) <==> bare_from(scene, id + 1, node.end as int));
            },
            _ => {
                assert(!hollow(scene, id));
            },
        }
    }
}

/// Every line of the layout of a node whose subtree holds a token holds a
/// token; and the layout of a node whose subtree holds none is one empty
/// line.
pub proof fn every_line_holds_a_token(scene: Scene, id: int, first: int, rest: int)
    requires
        nested(scene.nodes),
        0 <= id < scene.nodes.len(),
    ensures
        !bare(scene, id) ==> solid(layout(scene, id, first, rest).lines()) && layout(
            scene,
            id,
            first,
            rest,
        ).lines().len() >= 1,
        bare(scene, id) ==> layout(scene, id, first, rest) == Shape::Line(LineView::empty()),
{
    lemma_filled(scene, id, first, rest);
    let r = layout(scene, id, first, rest);
    if r.blank() && r != Shape::Line(LineView::empty()) {
        assert(r.lines()[0].items.len() > 0);
    }
}

/// The children of a scan are sound; they hold no token exactly where the
/// nodes that the scan has passed hold none; a tree that has turned into a
/// block holds a token, and one that has not holds no child of several lines.
pub proof fn lemma_scan_filled(scene: Scene, p: int, c: int, state: Scan, first: int, rest: int)
    requires
        nested(scene.nodes),
        0 <= p < c <= scene.nodes[p].end,
        p < scene.nodes.len(),
        all_sound(state.done),
        all_blank(state.done, 0) <==> bare_from(scene, p + 1, c),
        state.block ==> !all_blank(state.done, 0),
        !state.block ==> none_tall(state.done),
    ensures
        all_sound(scan(scene, p, c, state, first, rest).done),
        all_blank(scan(scene, p, c, state, first, rest).done, 0) <==> bare_from(
            scene,
            p + 1,
            scene.nodes[p].end as int,
        ),
        scan(scene, p, c, state, first, rest).block ==> !all_blank(
            scan(scene, p, c, state, first, rest).done,
            0,
        ),
        !scan(scene, p, c, state, first, rest).block ==> none_tall(
            scan(scene, p, c, state, first, rest).done,
        ),
    decreases scene.nodes.len() - p, scene.nodes.len() - c,
{
    if child_at(scene, p, c) {
        let own = minus(rest, scene.indent);
        let room = if state.block {
            own
        } else {
            minus(first, state.width)
        };
        let r = layout(scene, c, room, own);
        let again = layout(scene, c, own, own);
        lemma_filled(scene, c, room, own);
        lemma_filled(scene, c, own, own);
        let kind = scene.nodes[c].kind;
        let next = state.step(kind, r, again, room);
        let end = scene.nodes[c].end as int;
        assert(end <= scene.nodes[p].end);
        let put = next.done[state.done.len() as int].1;
        assert(put == r || put == again);
        assert forall|i: int| 0 <= i < next.done.len() implies sound((#[trigger] next.done[i]).1) by {
            if i < state.done.len() {
                assert(next.done[i] == state.done[i]);
            }
        }
        assert(all_blank(next.done, 0) <==> all_blank(state.done, 0) && put.blank()) by {
            if all_blank(next.done, 0) {
                assert forall|i: int| 0 <= i < state.done.len() implies (
                #[trigger] state.done[i]).1.blank() by {
                    assert(next.done[i] == state.done[i]);
                }
                assert(next.done[state.done.len() as int].1.blank());
            }
            if all_blank(state.done, 0) && put.blank() {
                assert forall|i: int| 0 <= i < next.done.len() implies (
                #[trigger] next.done[i]).1.blank() by {
                    if i < state.done.len() {
                        assert(next.done[i] == state.done[i]);
                    }
                }
            }
        }
        assert(bare_from(scene, p + 1, end) <==> bare_from(scene, p + 1, c) && bare(scene, c)) by {
            if bare_from(scene, p + 1, c) && bare(scene, c) {
                assert forall|j: int| p + 1 <= j < end implies #[trigger] hollow(scene, j) by {
                    if j >= c {
                        assert(bare_from(scene, c, end));
                    }
                }
            }
        }
        if next.block {
            if state.block {
                let i = choose|i: int| 0 <= i < state.done.len() && !(#[trigger] state.done[i]).1.blank();
                assert(next.done[i] == state.done[i]);
            } else if r is Block {
                assert(!r.blank());
                assert(!next.done[state.done.len() as int].1.blank());
            } else {
                assert(!r.blank()) by {
                    if r.blank() {
                        assert(r == Shape::Line(LineView::empty()));
                        assert(r.width() == 0);
                    }
                }
                assert(!next.done[state.done.len() as int].1.blank());
            }
        } else {
            assert forall|i: int| 0 <= i < next.done.len() implies !((#[trigger] next.done[i]).1
                is Block) by {
                if i < state.done.len() {
                    assert(next.done[i] == state.done[i]);
                }
            }
        }
        lemma_scan_filled(scene, p, end, next, first, rest);
    } else {
        assert(c == scene.nodes[p].end);
    }
}

/// A row of sound children of one line each is the line before them where
/// none holds a token, and holds a token where one of them does.
pub proof fn lemma_row_filled(done: Seq<(u16, Shape)>, k: int, line: LineView)
    requires
        all_sound(done),
        none_tall(done),
        0 <= k,
    ensures
        all_blank(done, k) ==> in_a_row(done, k, line) == line,
        !all_blank(done, k) || line.items.len() > 0 ==> in_a_row(done, k, line).items.len() > 0,
    decreases done.len() - k,
{
    if k < done.len() {
        let r = done[k].1;
        assert(sound(r));
        let next = extend(line, r);
        lemma_row_filled(done, k + 1, next);
        if r.blank() {
            assert(next == line);
            if !all_blank(done, k) {
                let i = choose|i: int| k <= i < done.len() && !(#[trigger] done[i]).1.blank();
                assert(i >= k + 1);
            }
        } else {
            assert(next.items.len() > 0);
        }
        if all_blank(done, k) {
            assert(all_blank(done, k + 1));
        }
    }
}

/// A block of sound children stays one line without a token or lines that
/// hold a token each, and holds a token in every line once a child holds one.
pub proof fn lemma_stack_filled(
    kinds: Seq<NodeSpec>,
    parent: int,
    done: Seq<(u16, Shape)>,
    k: int,
    lines: Seq<LineView>,
    inside: bool,
    indent: int,
)
    requires
        all_sound(done),
        0 <= k,
        pristine(lines) || (lines.len() >= 1 && solid(lines)),
    ensures
        stack_up(kinds, parent, done, k, lines, inside, indent).len() >= 1,
        !pristine(lines) || !all_blank(done, k) ==> solid(
            stack_up(kinds, parent, done, k, lines, inside, indent),
        ),
    decreases done.len() - k,
{
    if k < done.len() {
        let r = done[k].1;
        assert(sound(r));
        let next = place(kinds, parent, lines, inside, done[k].0, r, indent);
        lemma_placed(kinds, parent, lines, inside, done[k].0, r, indent);
        lemma_stack_filled(kinds, parent, done, k + 1, next.0, next.1, indent);
        if r.blank() && !all_blank(done, k) {
            let i = choose|i: int| k <= i < done.len() && !(#[trigger] done[i]).1.blank();
            assert(i >= k + 1);
        }
    }
}

/// A sound child placed in a block leaves it as it is where it holds no
/// token, and leaves every line with a token where it holds one.
pub proof fn lemma_placed(
    kinds: Seq<NodeSpec>,
    parent: int,
    lines: Seq<LineView>,
    inside: bool,
    kind: u16,
    r: Shape,
    indent: int,
)
    requires
        sound(r),
        pristine(lines) || (lines.len() >= 1 && solid(lines)),
    ensures
        r.blank() ==> place(kinds, parent, lines, inside, kind, r, indent).0 == lines,
        !r.blank() ==> solid(place(kinds, parent, lines, inside, kind, r, indent).0) && place(
            kinds,
            parent,
            lines,
            inside,
            kind,
            r,
            indent,
        ).0.len() >= 1,
{
    if !r.blank() {
        let after = place(kinds, parent, lines, inside, kind, r, indent).0;
        match role_of(kinds, parent, kind) {
            Role::Start => {
                lemma_appended(lines, r);
            },
            Role::Sep => {
                lemma_appended(lines, r);
            },
            Role::End => {
                lemma_appended(lines_turn(lines, 0), r);
            },
            Role::Plain => {
                let turned = lines_turn(lines, indent);
                let theirs = if inside {
                    lines_indented(r.lines(), indent)
                } else {
                    r.lines()
                };
                assert(solid(theirs)) by {
                    assert forall|i: int| 0 <= i < theirs.len() implies (
                    #[trigger] theirs[i]).items.len() > 0 by {
                        assert(r.lines()[i].items.len() > 0);
                    }
                }
                assert forall|i: int| 0 <= i < after.len() implies (#[trigger] after[i]).items.len()
                    > 0 by {
                    if i < turned.len() - 1 {
                        assert(after[i] == turned[i]);
                        assert(turned[i] == lines[i]);
                    } else if i == turned.len() - 1 {
                        assert(theirs[0].items.len() > 0);
                    } else {
                        assert(after[i] == theirs[i - turned.len() + 1]);
                    }
                }
            },
        }
    }
}

/// A result that holds a token, put at the end of lines of which all but the
/// last hold a token, leaves every line with a token.
pub proof fn lemma_appended(lines: Seq<LineView>, r: Shape)
    requires
        sound(r),
        !r.blank(),
        lines.len() >= 1,
        forall|i: int| 0 <= i < lines.len() - 1 ==> (#[trigger] lines[i]).items.len() > 0,
    ensures
        solid(lines_append(lines, r)),
        lines_append(lines, r).len() >= lines.len(),
{
    let after = lines_append(lines, r);
    assert forall|i: int| 0 <= i < after.len() implies (#[trigger] after[i]).items.len() > 0 by {
        if i < lines.len() - 1 {
            assert(after[i] == lines[i]);
        } else if i == lines.len() - 1 {
            assert(r.lines()[0].items.len() > 0);
        } else {
            assert(after[i] == r.lines()[i - lines.len() + 1]);
        }
    }
}

/// The lines of a composition stay one line without a token where the nodes
/// passed hold none, and hold a token each where they hold one.
pub proof fn lemma_compose_filled(
    scene: Scene,
    p: int,
    c: int,
    lines: Seq<LineView>,
    first: int,
    rest: int,
)
    requires
        nested(scene.nodes),
        0 <= p < c <= scene.nodes[p].end,
        p < scene.nodes.len(),
        lines.len() >= 1,
        bare_from(scene, p + 1, c) ==> pristine(lines),
        !bare_from(scene, p + 1, c) ==> solid(lines),
    ensures
        compose(scene, p, c, lines, first, rest).len() >= 1,
        bare_from(scene, p + 1, scene.nodes[p].end as int) ==> compose(
            scene,
            p,
            c,
            lines,
            first,
            rest,
        ) == lines,
        !bare_from(scene, p + 1, scene.nodes[p].end as int) ==> solid(
            compose(scene, p, c, lines, first, rest),
        ),
    decreases scene.nodes.len() - p, scene.nodes.len() - c,
{
    if child_at(scene, p, c) {
        let width = if lines.len() == 1 {
            first
        } else {
            rest
        };
        let room = minus(width, lines.last().width());
        let r = layout(scene, c, room, rest);
        lemma_filled(scene, c, room, rest);
        let end = scene.nodes[c].end as int;
        assert(end <= scene.nodes[p].end);
        let next = lines_append(lines, r);
        assert(bare_from(scene, p + 1, end) <==> bare_from(scene, p + 1, c) && bare(scene, c)) by {
            if bare_from(scene, p + 1, c) && bare(scene, c) {
                assert forall|j: int| p + 1 <= j < end implies #[trigger] hollow(scene, j) by {
                    if j >= c {
                        assert(bare_from(scene, c, end));
                    }
                }
            }
        }
        if r.blank() {
            if r != Shape::Line(LineView::empty()) {
                assert(r.lines()[0].items.len() > 0);
            }
            assert(next =~= lines);
        } else {
            lemma_appended(lines, r);
        }
        lemma_compose_filled(scene, p, end, next, first, rest);
    } else {
        assert(c == scene.nodes[p].end);
    }
}

} // verus!

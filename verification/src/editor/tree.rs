//! The parse tree as the layout reads it: the nodes in the order in which a
//! walk from the root meets them, each with the place where its subtree ends.

use vstd::prelude::*;

verus! {

/// One node of the parse tree.
#[derive(Clone, Copy, Debug, PartialEq, Eq, Structural)]
pub struct SyntaxNode {
    /// The id of the node's kind in the grammar.
    pub kind: u16,
    /// The index of the first token that the node spans.
    pub token: usize,
    /// The index behind the last node of this node's subtree.
    pub end: usize,
    /// Whether the parser made the node up to recover from an error.
    pub missing: bool,
    /// Whether the node stands where the grammar has no place for it.
    pub extra: bool,
}

/// Every subtree ends behind its root and inside the list, and lies within
/// the subtree of each node that it starts in.
pub open spec fn nested(nodes: Seq<SyntaxNode>) -> bool {
    &&& forall|i: int| 0 <= i < nodes.len() ==> i < (#[trigger] nodes[i]).end <= nodes.len()
    &&& forall|i: int, j: int|
        0 <= i < j < nodes.len() && j < (#[trigger] nodes[i]).end ==> (#[trigger] nodes[j]).end
            <= nodes[i].end
}

/// `tree_sitter::TreeCursor`, a place in a tree that can be moved.
#[verifier::external_type_specification]
#[verifier::external_body]
pub struct ExTreeCursor<'a>(tree_sitter::TreeCursor<'a>);

/// The nodes of the tree, in the order in which a walk from its root meets
/// them: each node in front of its children, and the children in their
/// order. Each node stands with its kind, the byte at which it starts,
/// whether it is missing or extra, and the number of nodes above it, as
/// `tree_sitter::Node` and the moves of `tree_sitter::TreeCursor` give them.
pub uninterp spec fn tree_walk(tree: tree_sitter::Tree) -> Seq<Mark>;

/// The nodes of the tree that the cursor walks, in the order of
/// [`tree_walk`].
pub uninterp spec fn cursor_walk(cursor: tree_sitter::TreeCursor<'_>) -> Seq<Mark>;

/// The index, in that order, of the node under the cursor.
pub uninterp spec fn cursor_place(cursor: tree_sitter::TreeCursor<'_>) -> int;

/// Calls `tree_sitter::Tree::walk`. Trusted: the cursor walks the nodes of
/// the tree and stands on the first of them, the root; a tree has a root, the
/// root alone has no node above it, and a node lies at most one deeper than
/// the node in front of it.
#[verifier::external_body]
fn walk<'a>(tree: &'a tree_sitter::Tree) -> (cursor: tree_sitter::TreeCursor<'a>)
    ensures
        cursor_walk(cursor) == tree_walk(*tree),
        cursor_place(cursor) == 0,
        proper_walk(cursor_walk(cursor)),
{
    tree.walk()
}

/// Calls `tree_sitter::TreeCursor::goto_first_child`. Trusted: the cursor
/// moves exactly where the node under it has a child, which is the node
/// behind it in the order of the walk, one deeper.
#[verifier::external_body]
fn goto_first_child<'a>(cursor: &mut tree_sitter::TreeCursor<'a>) -> (moved: bool)
    ensures
        cursor_walk(*final(cursor)) == cursor_walk(*old(cursor)),
        moved == has_child(cursor_walk(*old(cursor)), cursor_place(*old(cursor))),
        cursor_place(*final(cursor)) == if moved {
            cursor_place(*old(cursor)) + 1
        } else {
            cursor_place(*old(cursor))
        },
{
    cursor.goto_first_child()
}

/// Calls `tree_sitter::TreeCursor::goto_next_sibling`. Trusted: the cursor
/// moves exactly where the node under it has a next sibling, which is the
/// node behind its subtree where that lies as deep as it.
#[verifier::external_body]
fn goto_next_sibling<'a>(cursor: &mut tree_sitter::TreeCursor<'a>) -> (moved: bool)
    ensures
        cursor_walk(*final(cursor)) == cursor_walk(*old(cursor)),
        moved == has_sibling(cursor_walk(*old(cursor)), cursor_place(*old(cursor))),
        cursor_place(*final(cursor)) == if moved {
            subtree_end(cursor_walk(*old(cursor)), cursor_place(*old(cursor)))
        } else {
            cursor_place(*old(cursor))
        },
{
    cursor.goto_next_sibling()
}

/// Calls `tree_sitter::TreeCursor::goto_parent`. Trusted: the cursor moves
/// exactly where the node under it is not the root, to its parent: the last
/// node in front of it that lies less deep.
#[verifier::external_body]
fn goto_parent<'a>(cursor: &mut tree_sitter::TreeCursor<'a>) -> (moved: bool)
    ensures
        cursor_walk(*final(cursor)) == cursor_walk(*old(cursor)),
        moved == (cursor_walk(*old(cursor))[cursor_place(*old(cursor))].depth > 0),
        cursor_place(*final(cursor)) == if moved {
            last_above(
                cursor_walk(*old(cursor)),
                cursor_walk(*old(cursor))[cursor_place(*old(cursor))].depth as int,
                cursor_place(*old(cursor)) - 1,
            )
        } else {
            cursor_place(*old(cursor))
        },
{
    cursor.goto_parent()
}

/// Calls `tree_sitter::Node::kind_id` on the node under the cursor.
#[verifier::external_body]
fn kind_id<'a>(cursor: &tree_sitter::TreeCursor<'a>) -> (kind: u16)
    ensures
        kind == cursor_walk(*cursor)[cursor_place(*cursor)].kind,
{
    cursor.node().kind_id()
}

/// Calls `tree_sitter::Node::start_byte` on the node under the cursor.
#[verifier::external_body]
fn start_byte<'a>(cursor: &tree_sitter::TreeCursor<'a>) -> (token: usize)
    ensures
        token == cursor_walk(*cursor)[cursor_place(*cursor)].token,
{
    cursor.node().start_byte()
}

/// Calls `tree_sitter::Node::is_missing` on the node under the cursor.
#[verifier::external_body]
fn is_missing<'a>(cursor: &tree_sitter::TreeCursor<'a>) -> (missing: bool)
    ensures
        missing == cursor_walk(*cursor)[cursor_place(*cursor)].missing,
{
    cursor.node().is_missing()
}

/// Calls `tree_sitter::Node::is_extra` on the node under the cursor.
#[verifier::external_body]
fn is_extra<'a>(cursor: &tree_sitter::TreeCursor<'a>) -> (extra: bool)
    ensures
        extra == cursor_walk(*cursor)[cursor_place(*cursor)].extra,
{
    cursor.node().is_extra()
}

/// A parse tree. Node 0 is the root; the first child of a node follows it
/// directly, and the next sibling of a node stands where its subtree ends.
#[derive(Debug)]
pub struct SyntaxTree {
    nodes: Vec<SyntaxNode>,
}

impl View for SyntaxTree {
    type V = Seq<SyntaxNode>;

    closed spec fn view(&self) -> Seq<SyntaxNode> {
        self.nodes@
    }
}

impl SyntaxTree {
    /// The tree's invariant: its subtrees are nested.
    pub open spec fn wf(&self) -> bool {
        nested(self@)
    }

    /// Makes a tree of the nodes; `None` when their subtrees are not nested.
    pub fn new(nodes: Vec<SyntaxNode>) -> (r: Option<SyntaxTree>)
        ensures
            r is Some <==> nested(nodes@),
            r matches Some(tree) ==> tree@ == nodes@,
    {
        let n = nodes.len();
        let mut i: usize = 0;
        while i < n
            invariant
                n == nodes@.len(),
                i <= n,
                forall|k: int| 0 <= k < i ==> k < (#[trigger] nodes@[k]).end <= n,
                forall|k: int, j: int|
                    0 <= k < j < n && k < i && j < (#[trigger] nodes@[k]).end ==> (
                    #[trigger] nodes@[j]).end <= nodes@[k].end,
            decreases n - i,
        {
            let end = nodes[i].end;
            if end <= i || end > n {
                return None;
            }
            let mut j: usize = i + 1;
            while j < end
                invariant
                    n == nodes@.len(),
                    i < n,
                    end == nodes@[i as int].end,
                    i < j <= end <= n,
                    forall|m: int| i < m < j ==> (#[trigger] nodes@[m]).end <= end,
                decreases end - j,
            {
                if nodes[j].end > end {
                    return None;
                }
                j += 1;
            }
            i += 1;
        }
        Some(SyntaxTree { nodes })
    }

    /// Reads the parser's tree by a walk from its root, node by node: the
    /// tree of all its nodes, in the order of the walk. `None` where the tree
    /// has more than `limit` nodes.
    pub fn read(tree: &tree_sitter::Tree, limit: usize) -> (r: Option<SyntaxTree>)
        ensures
            r is Some <==> tree_walk(*tree).len() <= limit,
            r matches Some(read) ==> {
                &&& read.wf()
                &&& read@ == arranged(tree_walk(*tree))
                &&& 1 <= read@.len() <= limit
                &&& read@[0].end == read@.len()
            },
    {
        let mut cursor = walk(tree);
        let ghost all = tree_walk(*tree);
        let mut marks: Vec<Mark> = Vec::new();
        let mut depth: usize = 0;
        let mut done = false;
        while !done
            invariant
                all == tree_walk(*tree),
                proper_walk(all),
                cursor_walk(cursor) == all,
                marks@.len() <= limit,
                marks@.len() <= all.len(),
                forall|k: int| 0 <= k < marks@.len() ==> marks@[k] == all[k],
                !done ==> cursor_place(cursor) == marks@.len() && marks@.len() < all.len()
                    && depth == all[marks@.len() as int].depth,
                done ==> marks@.len() == all.len(),
            decreases limit - marks@.len(), if done { 0int } else { 1int },
        {
            if marks.len() >= limit {
                return None;
            }
            let ghost at = marks@.len() as int;
            marks.push(
                Mark {
                    kind: kind_id(&cursor),
                    token: start_byte(&cursor),
                    missing: is_missing(&cursor),
                    extra: is_extra(&cursor),
                    depth,
                },
            );
            assert(marks@[at] == all[at]);
            if goto_first_child(&mut cursor) {
                depth = depth + 1;
            } else {
                let ghost count = at + 1;
                proof {
                    lemma_next_is(all, all[at].depth as int, at + 1, count);
                }
                let mut moved = false;
                while !moved && !done
                    invariant
                        proper_walk(all),
                        cursor_walk(cursor) == all,
                        count == marks@.len(),
                        count <= all.len(),
                        !moved && !done ==> {
                            &&& 0 <= cursor_place(cursor) < count
                            &&& depth == all[cursor_place(cursor)].depth
                            &&& subtree_end(all, cursor_place(cursor)) == count
                        },
                        moved ==> cursor_place(cursor) == count && count < all.len() && depth
                            == all[count].depth,
                        done ==> count == all.len(),
                    decreases depth, if moved || done { 0int } else { 1int },
                {
                    let ghost here = cursor_place(cursor);
                    if depth == 0 {
                        proof {
                            lemma_root_ends_all(all);
                        }
                        done = true;
                    } else if goto_next_sibling(&mut cursor) {
                        moved = true;
                    } else if goto_parent(&mut cursor) {
                        proof {
                            lemma_parent_spans(all, here, count);
                        }
                        depth = depth - 1;
                    } else {
                        done = true;
                    }
                }
            }
        }
        proof {
            assert(marks@ =~= all);
            lemma_root_ends_all(all);
            lemma_next_no_deeper(all, 0, 1);
        }
        Some(SyntaxTree::from_walk(&marks))
    }

    /// The tree of the nodes that a walk met, in the order in which it met
    /// them: the subtree of each ends at the next node that lies no deeper.
    pub fn from_walk(marks: &Vec<Mark>) -> (tree: SyntaxTree)
        ensures
            tree.wf(),
            tree@ == arranged(marks@),
    {
        let n = marks.len();
        let mut nodes: Vec<SyntaxNode> = Vec::new();
        let mut i: usize = 0;
        while i < n
            invariant
                n == marks@.len(),
                i <= n,
                nodes@.len() == i,
                forall|k: int| 0 <= k < i ==> nodes@[k] == arranged(marks@)[k],
            decreases n - i,
        {
            let mark = marks[i];
            let mut j: usize = i + 1;
            while j < n && marks[j].depth > mark.depth
                invariant
                    n == marks@.len(),
                    i < j <= n,
                    mark == marks@[i as int],
                    next_no_deeper(marks@, mark.depth as int, j as int) == next_no_deeper(
                        marks@,
                        mark.depth as int,
                        i + 1,
                    ),
                decreases n - j,
            {
                j += 1;
            }
            nodes.push(
                SyntaxNode {
                    kind: mark.kind,
                    token: mark.token,
                    end: j,
                    missing: mark.missing,
                    extra: mark.extra,
                },
            );
            i += 1;
        }
        proof {
            assert(nodes@ =~= arranged(marks@));
            lemma_arranged_is_nested(marks@);
        }
        SyntaxTree { nodes }
    }

    /// The number of nodes.
    pub fn len(&self) -> (n: usize)
        ensures
            n == self@.len(),
    {
        self.nodes.len()
    }

    /// Node `i`.
    pub fn node(&self, i: usize) -> (node: SyntaxNode)
        requires
            i < self@.len(),
        ensures
            node == self@[i as int],
    {
        self.nodes[i]
    }
}

/// A node as a walk over a tree meets it: what it holds, and how many
/// nodes lie above it.
#[derive(Clone, Copy, Debug, PartialEq, Eq, Structural)]
pub struct Mark {
    /// The id of the node's kind in the grammar.
    pub kind: u16,
    /// The index of the first token that the node spans.
    pub token: usize,
    /// Whether the parser made the node up to recover from an error.
    pub missing: bool,
    /// Whether the node stands where the grammar has no place for it.
    pub extra: bool,
    /// The number of nodes above the node.
    pub depth: usize,
}

/// The index of the first mark from `j` on that lies no deeper than `depth`,
/// or the number of marks where there is none.
pub open spec fn next_no_deeper(marks: Seq<Mark>, depth: int, j: int) -> int
    decreases marks.len() - j,
{
    if 0 <= j < marks.len() && marks[j].depth > depth {
        next_no_deeper(marks, depth, j + 1)
    } else if 0 <= j < marks.len() {
        j
    } else {
        marks.len() as int
    }
}

/// Where the subtree of mark `i` ends: at the next mark that lies no deeper.
pub open spec fn subtree_end(marks: Seq<Mark>, i: int) -> int {
    next_no_deeper(marks, marks[i].depth as int, i + 1)
}

/// The nodes of the tree that a walk met, each with the end of its subtree.
pub open spec fn arranged(marks: Seq<Mark>) -> Seq<SyntaxNode> {
    Seq::new(
        marks.len(),
        |i: int|
            SyntaxNode {
                kind: marks[i].kind,
                token: marks[i].token,
                end: subtree_end(marks, i) as usize,
                missing: marks[i].missing,
                extra: marks[i].extra,
            },
    )
}

/// The marks are those of a walk from a root: there is a first mark, it
/// alone lies at the top, and each mark lies at most one deeper than the mark
/// in front of it.
pub open spec fn proper_walk(marks: Seq<Mark>) -> bool {
    &&& marks.len() >= 1
    &&& marks[0].depth == 0
    &&& forall|k: int|
        1 <= k < marks.len() ==> 1 <= (#[trigger] marks[k]).depth <= marks[k - 1].depth + 1
}

/// Whether mark `i` has a child: the mark behind it lies deeper.
pub open spec fn has_child(marks: Seq<Mark>, i: int) -> bool {
    i + 1 < marks.len() && marks[i + 1].depth > marks[i].depth
}

/// Whether mark `i` has a next sibling: the mark behind its subtree lies as
/// deep as it.
pub open spec fn has_sibling(marks: Seq<Mark>, i: int) -> bool {
    subtree_end(marks, i) < marks.len() && marks[subtree_end(marks, i)].depth == marks[i].depth
}

/// The index of the last mark from `j` back that lies less deep than
/// `depth`, or -1 where there is none.
pub open spec fn last_above(marks: Seq<Mark>, depth: int, j: int) -> int
    decreases j + 1,
{
    if 0 <= j < marks.len() && marks[j].depth >= depth {
        last_above(marks, depth, j - 1)
    } else if 0 <= j < marks.len() {
        j
    } else {
        -1
    }
}

/// The next mark that lies no deeper stands at or behind the start of the
/// search and inside the marks or at their end; the marks in front of it lie
/// deeper, and it does not.
pub proof fn lemma_next_no_deeper(marks: Seq<Mark>, depth: int, j: int)
    requires
        0 <= j <= marks.len(),
    ensures
        j <= next_no_deeper(marks, depth, j) <= marks.len(),
        forall|m: int|
            j <= m < next_no_deeper(marks, depth, j) ==> (#[trigger] marks[m]).depth > depth,
        next_no_deeper(marks, depth, j) < marks.len() ==> marks[next_no_deeper(
            marks,
            depth,
            j,
        )].depth <= depth,
    decreases marks.len() - j,
{
    if j < marks.len() && marks[j].depth > depth {
        lemma_next_no_deeper(marks, depth, j + 1);
    }
}

/// The subtrees of the tree that a walk met are nested.
pub proof fn lemma_arranged_is_nested(marks: Seq<Mark>)
    requires
        marks.len() <= usize::MAX,
    ensures
        nested(arranged(marks)),
{
    let nodes = arranged(marks);
    assert forall|i: int| 0 <= i < nodes.len() implies i < (#[trigger] nodes[i]).end
        <= nodes.len() by {
        lemma_next_no_deeper(marks, marks[i].depth as int, i + 1);
    }
    assert forall|i: int, j: int|
        0 <= i < j < nodes.len() && j < (#[trigger] nodes[i]).end implies (#[trigger] nodes[j]).end
        <= nodes[i].end by {
        lemma_next_no_deeper(marks, marks[i].depth as int, i + 1);
        lemma_next_no_deeper(marks, marks[j].depth as int, j + 1);
        let outer = subtree_end(marks, i);
        let inner = subtree_end(marks, j);
        assert(marks[j].depth > marks[i].depth);
        if inner > outer {
            assert(marks[outer].depth > marks[j].depth);
        }
    }
}

/// Where the marks from `j` up to `m` lie deeper than `depth` and the mark
/// at `m`, if there is one, does not, the next mark from `j` on that lies no
/// deeper is the one at `m`.
pub proof fn lemma_next_is(marks: Seq<Mark>, depth: int, j: int, m: int)
    requires
        0 <= j <= m <= marks.len(),
        forall|k: int| j <= k < m ==> (#[trigger] marks[k]).depth > depth,
        m < marks.len() ==> marks[m].depth <= depth,
    ensures
        next_no_deeper(marks, depth, j) == m,
    decreases m - j,
{
    if j < m {
        assert(marks[j].depth > depth);
        lemma_next_is(marks, depth, j + 1, m);
    }
}

/// In a walk from a root, the subtree of the root is the whole walk.
pub proof fn lemma_root_ends_all(marks: Seq<Mark>)
    requires
        proper_walk(marks),
    ensures
        subtree_end(marks, 0) == marks.len(),
        forall|k: int| 0 <= k < marks.len() && (#[trigger] marks[k]).depth == 0 ==> k == 0,
{
    lemma_next_is(marks, 0, 1, marks.len() as int);
}

/// The last mark from `j` back that lies less deep than `depth` lies one
/// less deep, where the mark behind `j` lies no less deep than `depth`; and
/// the marks between it and `j` lie no less deep than `depth`.
pub proof fn lemma_last_above_back(marks: Seq<Mark>, depth: int, j: int)
    requires
        proper_walk(marks),
        0 <= j,
        j + 1 < marks.len(),
        depth > 0,
        marks[j + 1].depth >= depth,
    ensures
        0 <= last_above(marks, depth, j) <= j,
        marks[last_above(marks, depth, j)].depth == depth - 1,
        forall|k: int|
            last_above(marks, depth, j) < k <= j ==> (#[trigger] marks[k]).depth >= depth,
    decreases j,
{
    if marks[j].depth >= depth {
        assert(j >= 1);
        lemma_last_above_back(marks, depth, j - 1);
    } else {
        assert(marks[j + 1].depth <= marks[j].depth + 1);
    }
}

/// Where the subtree of a node ends at `m` and no sibling follows it, the
/// subtree of its parent ends at `m` too, and the parent lies one less deep.
pub proof fn lemma_parent_spans(marks: Seq<Mark>, q: int, m: int)
    requires
        proper_walk(marks),
        0 <= q < m <= marks.len(),
        marks[q].depth > 0,
        subtree_end(marks, q) == m,
        !has_sibling(marks, q),
    ensures
        0 <= last_above(marks, marks[q].depth as int, q - 1) < q,
        marks[last_above(marks, marks[q].depth as int, q - 1)].depth == marks[q].depth - 1,
        subtree_end(marks, last_above(marks, marks[q].depth as int, q - 1)) == m,
{
    let d = marks[q].depth as int;
    assert(q >= 1);
    lemma_last_above_back(marks, d, q - 1);
    let r = last_above(marks, d, q - 1);
    lemma_next_no_deeper(marks, d, q + 1);
    assert forall|k: int| r + 1 <= k < m implies (#[trigger] marks[k]).depth > d - 1 by {
        if k > q {
            assert(marks[k].depth > d);
        }
    }
    lemma_next_is(marks, d - 1, r + 1, m);
}

} // verus!

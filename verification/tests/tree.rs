use nolex::editor::tree::{Mark, SyntaxNode, SyntaxTree};

fn node(kind: u16, token: usize, end: usize) -> SyntaxNode {
    SyntaxNode { kind, token, end, missing: false, extra: false }
}

#[test]
fn nested_subtrees_make_a_tree() {
    let nodes = vec![node(1, 0, 5), node(2, 0, 3), node(3, 0, 3), node(4, 1, 5), node(5, 1, 5)];
    let tree = SyntaxTree::new(nodes.clone()).unwrap();
    assert_eq!(tree.len(), 5);
    for i in 0..5 {
        assert_eq!(tree.node(i), nodes[i]);
    }
}

#[test]
fn empty_list_is_a_tree() {
    let tree = SyntaxTree::new(vec![]).unwrap();
    assert_eq!(tree.len(), 0);
}

#[test]
fn several_roots_make_a_tree() {
    assert!(SyntaxTree::new(vec![node(1, 0, 1), node(1, 1, 2)]).is_some());
}

#[test]
fn subtree_must_end_behind_its_root() {
    assert!(SyntaxTree::new(vec![node(1, 0, 0)]).is_none());
    assert!(SyntaxTree::new(vec![node(1, 0, 2), node(1, 0, 1)]).is_none());
}

#[test]
fn subtree_must_end_inside_the_list() {
    assert!(SyntaxTree::new(vec![node(1, 0, 2)]).is_none());
    assert!(SyntaxTree::new(vec![node(1, 0, 2), node(1, 0, 3)]).is_none());
}

#[test]
fn subtree_must_lie_within_its_parent() {
    let nodes = vec![node(1, 0, 2), node(2, 0, 3), node(3, 0, 3)];
    assert!(SyntaxTree::new(nodes).is_none());
    let nodes = vec![node(1, 0, 3), node(2, 0, 2), node(3, 0, 4), node(3, 0, 4)];
    assert!(SyntaxTree::new(nodes).is_none());
}

fn mark(kind: u16, token: usize, depth: usize) -> Mark {
    Mark { kind, token, missing: false, extra: false, depth }
}

fn ends(tree: &SyntaxTree) -> Vec<usize> {
    (0..tree.len()).map(|i| tree.node(i).end).collect()
}

#[test]
fn walk_of_one_node() {
    let tree = SyntaxTree::from_walk(&vec![mark(7, 0, 0)]);
    assert_eq!(tree.len(), 1);
    assert_eq!(tree.node(0), node(7, 0, 1));
}

#[test]
fn walk_of_no_node() {
    let tree = SyntaxTree::from_walk(&vec![]);
    assert_eq!(tree.len(), 0);
}

#[test]
fn subtree_ends_at_the_next_node_no_deeper() {
    let marks = vec![
        mark(15, 0, 0),
        mark(1, 0, 1),
        mark(13, 1, 1),
        mark(7, 1, 2),
        mark(4, 2, 2),
        mark(7, 3, 2),
        mark(3, 4, 1),
    ];
    let tree = SyntaxTree::from_walk(&marks);
    assert_eq!(ends(&tree), vec![7, 2, 6, 4, 5, 6, 7]);
    for i in 0..7 {
        assert_eq!(tree.node(i).kind, marks[i].kind);
        assert_eq!(tree.node(i).token, marks[i].token);
        assert!(!tree.node(i).missing);
        assert!(!tree.node(i).extra);
    }
    assert!(SyntaxTree::new((0..7).map(|i| tree.node(i)).collect()).is_some());
}

#[test]
fn walk_keeps_the_flags() {
    let marks = vec![
        Mark { kind: 1, token: 0, missing: true, extra: false, depth: 0 },
        Mark { kind: 2, token: 3, missing: false, extra: true, depth: 1 },
    ];
    let tree = SyntaxTree::from_walk(&marks);
    assert_eq!(
        tree.node(0),
        SyntaxNode { kind: 1, token: 0, end: 2, missing: true, extra: false }
    );
    assert_eq!(
        tree.node(1),
        SyntaxNode { kind: 2, token: 3, end: 2, missing: false, extra: true }
    );
}

#[test]
fn walk_with_uneven_depths_is_still_nested() {
    let marks = vec![mark(1, 0, 3), mark(1, 0, 9), mark(1, 0, 5), mark(1, 0, 3), mark(1, 0, 0)];
    let tree = SyntaxTree::from_walk(&marks);
    assert_eq!(ends(&tree), vec![3, 2, 3, 4, 5]);
    assert!(SyntaxTree::new((0..5).map(|i| tree.node(i)).collect()).is_some());
}

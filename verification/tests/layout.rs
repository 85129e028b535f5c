use nolex::data::Token;
use nolex::editor::layout::{
    merge_margin, Block, LayoutResult, Line, Metrics, TokenLayout, WIDTH_CAP,
};
use nolex::editor::reflow::{room_left, LayoutParams, SEPARATOR_MARGIN, TOKEN_MARGIN};
use nolex::editor::tree::{SyntaxNode, SyntaxTree};
use nolex::language::{Language, ERROR_KIND};
use nolex::languages::json;

fn drawn(text: &str, width: u32, separator: bool) -> TokenLayout {
    let margin = if separator { 2 } else { 8 };
    TokenLayout::new(
        Token::new(7, text),
        margin,
        margin,
        separator,
        Metrics { width, ascent: 10, descent: 3 },
    )
}

fn texts(line: &Line) -> Vec<String> {
    line.tokens().iter().map(|t| t.1.token.str.clone()).collect()
}

fn margins(line: &Line) -> Vec<u32> {
    line.tokens().iter().map(|t| t.0).collect()
}

fn node(kind: u16, token: usize, end: usize) -> SyntaxNode {
    SyntaxNode { kind, token, end, missing: false, extra: false }
}

fn fault() -> TokenLayout {
    TokenLayout::new(Token::new(12, ""), 8, 8, false, Metrics { width: 5, ascent: 1, descent: 1 })
}

fn measure(tokens: &Vec<Token>) -> Vec<Metrics> {
    tokens
        .iter()
        .map(|t| Metrics { width: 10 * t.shown_text().len() as u32, ascent: 10, descent: 3 })
        .collect()
}

fn lay_out(
    language: &Language,
    tokens: &Vec<Token>,
    tree: &SyntaxTree,
    width: u128,
) -> Vec<Line> {
    let measures = measure(tokens);
    let params =
        LayoutParams { tokens, measures: &measures, language, tree, indent: 12, fault: fault() };
    params.layout(width)
}

fn summary(lines: &Vec<Line>) -> Vec<(u128, u128, Vec<u32>, Vec<String>)> {
    lines.iter().map(|l| (l.indent(), l.width(), margins(l), texts(l))).collect()
}

fn object_tokens() -> Vec<Token> {
    vec![
        Token::new(1, "{"),
        Token::new(7, "\"k\""),
        Token::new(4, ":"),
        Token::new(7, "\"1\""),
        Token::new(3, "}"),
    ]
}

fn object_tree() -> SyntaxTree {
    SyntaxTree::new(vec![
        node(15, 0, 7),
        node(1, 0, 2),
        node(13, 1, 6),
        node(7, 1, 4),
        node(4, 2, 5),
        node(7, 3, 6),
        node(3, 4, 7),
    ])
    .unwrap()
}

fn nested_tokens() -> Vec<Token> {
    vec![
        Token::new(1, "{"),
        Token::new(5, "["),
        Token::new(7, "aaaa"),
        Token::new(6, "]"),
        Token::new(3, "}"),
    ]
}

fn nested_tree() -> SyntaxTree {
    SyntaxTree::new(vec![
        node(15, 0, 7),
        node(1, 0, 2),
        node(17, 1, 6),
        node(5, 1, 4),
        node(7, 2, 5),
        node(6, 3, 6),
        node(3, 4, 7),
    ])
    .unwrap()
}

#[test]
fn margin_merge_rule() {
    assert_eq!(merge_margin(true, 2, true, 2), 0);
    assert_eq!(merge_margin(false, 8, true, 2), 2);
    assert_eq!(merge_margin(true, 2, false, 8), 2);
    assert_eq!(merge_margin(false, 8, false, 8), 8);
    assert_eq!(merge_margin(false, 3, false, 9), 9);
    assert_eq!(merge_margin(false, 9, false, 3), 9);
    assert_eq!(merge_margin(true, 7, true, 5), 0);
    assert_eq!(merge_margin(false, 7, true, 5), 5);
    assert_eq!(merge_margin(true, 7, false, 5), 7);
}

#[test]
fn margin_depends_on_the_four_values_only() {
    let a = drawn("a", 10, false);
    let b = drawn("b", 20, false);
    let c = TokenLayout::new(Token::new(3, "zzz"), 1, 8, false, Metrics { width: 99, ascent: 0, descent: 0 });
    let d = TokenLayout::new(Token::new(9, ""), 8, 77, false, Metrics { width: 1, ascent: 5, descent: 5 });
    assert_eq!(Line::merge_margin(Some(&a), &b), Line::merge_margin(Some(&c), &d));
    assert_eq!(Line::merge_margin(None, &b), 0);
}

#[test]
fn token_layout_getters() {
    let t = TokenLayout::new(Token::new(4, ":"), 2, 3, true, Metrics { width: 11, ascent: 9, descent: 2 });
    assert_eq!(t.tp(), 4);
    assert_eq!(t.width(), 11);
    assert!(!t.is_empty());
    assert_eq!(*t.layout(), Metrics { width: 11, ascent: 9, descent: 2 });
    assert_eq!(t.margin_left, 2);
    assert_eq!(t.margin_right, 3);
    assert!(t.is_separator);
    let copy = t.snapshot();
    assert_eq!(copy.token.str, ":");
    assert_eq!(copy.layout, t.layout);
    assert!(fault().is_empty());
}

#[test]
fn new_line_is_empty() {
    let line = Line::new();
    assert!(line.is_empty());
    assert_eq!(line.len(), 0);
    assert_eq!(line.width(), 0);
    assert_eq!(line.indent(), 0);
    assert_eq!(line.ascent(), 0);
    assert_eq!(line.descent(), 0);
    assert!(line.first().is_none());
    assert!(line.last().is_none());
}

#[test]
fn single_line_holds_one_token() {
    let line = Line::single(drawn("abc", 30, false));
    assert!(!line.is_empty());
    assert_eq!(line.width(), 30);
    assert_eq!(margins(&line), vec![0]);
    assert_eq!(texts(&line), vec!["abc"]);
    assert_eq!(line.ascent(), 0);
    assert_eq!(line.descent(), 0);
}

#[test]
fn push_adds_width_and_merged_margin() {
    let mut line = Line::new();
    line.push(drawn("a", 10, false));
    assert_eq!(line.width(), 10);
    line.push(drawn(",", 4, true));
    assert_eq!(line.width(), 16);
    line.push(drawn(":", 4, true));
    assert_eq!(line.width(), 20);
    line.push(drawn("b", 10, false));
    assert_eq!(line.width(), 32);
    line.push(drawn("c", 10, false));
    assert_eq!(line.width(), 50);
    assert_eq!(margins(&line), vec![0, 2, 0, 2, 8]);
    assert_eq!(texts(&line), vec!["a", ",", ":", "b", "c"]);
    assert_eq!(line.first().unwrap().token.str, "a");
    assert_eq!(line.last().unwrap().token.str, "c");
    assert_eq!(line.len(), 5);
}

#[test]
fn push_raises_the_line_for_tokens_with_text_only() {
    let mut line = Line::new();
    line.push(TokenLayout::new(Token::new(7, ""), 8, 8, false, Metrics { width: 7, ascent: 50, descent: 40 }));
    assert_eq!(line.ascent(), 0);
    assert_eq!(line.descent(), 0);
    assert_eq!(line.width(), 7);
    line.push(TokenLayout::new(Token::new(7, "x"), 8, 8, false, Metrics { width: 7, ascent: 12, descent: 4 }));
    assert_eq!(line.ascent(), 12);
    assert_eq!(line.descent(), 4);
    line.push(TokenLayout::new(Token::new(7, "y"), 8, 8, false, Metrics { width: 7, ascent: 9, descent: 6 }));
    assert_eq!(line.ascent(), 12);
    assert_eq!(line.descent(), 6);
}

#[test]
fn append_merges_the_margin_at_the_joint() {
    let mut left = Line::new();
    left.push(drawn("a", 10, false));
    left.push(drawn(",", 4, true));
    let mut right = Line::new();
    right.push(drawn("b", 10, false));
    right.push(drawn("c", 10, false));
    assert_eq!(right.width(), 28);
    left.append(right);
    assert_eq!(margins(&left), vec![0, 2, 2, 8]);
    assert_eq!(left.width(), 10 + 2 + 4 + 2 + 10 + 8 + 10);
    assert_eq!(texts(&left), vec!["a", ",", "b", "c"]);
    assert_eq!(left.ascent(), 10);
    assert_eq!(left.descent(), 3);
}

#[test]
fn append_of_an_empty_line_changes_nothing() {
    let mut left = Line::new();
    left.push(drawn("a", 10, false));
    left.append(Line::new());
    assert_eq!(left.width(), 10);
    assert_eq!(left.len(), 1);
    let mut empty = Line::new();
    empty.append(Line::new());
    assert!(empty.is_empty());
}

#[test]
fn shift_moves_the_line() {
    let mut line = Line::single(drawn("a", 10, false));
    line.shift(12);
    line.shift(12);
    assert_eq!(line.indent(), 24);
    assert_eq!(line.width(), 10);
}

#[test]
fn new_block_has_one_empty_line() {
    let block = Block::new();
    assert_eq!(block.len(), 1);
    assert!(block.single_line());
    assert_eq!(block.width(), 0);
    assert_eq!(block.last_width(), 0);
    let lines = block.into_lines();
    assert_eq!(lines.len(), 1);
    assert!(lines[0].is_empty());
}

#[test]
fn block_appends_results() {
    let mut block = Block::new();
    block.append(LayoutResult::Single(drawn("a", 10, false)));
    block.append(LayoutResult::Line(Line::single(drawn("b", 20, false))));
    assert_eq!(block.len(), 1);
    assert_eq!(block.last_width(), 38);
    let mut other = Block::new();
    other.push(drawn("c", 30, false));
    other.nl(12);
    other.push(drawn("dd", 60, false));
    other.nl(0);
    other.push(drawn("e", 5, false));
    assert_eq!(other.len(), 3);
    assert_eq!(other.width(), 60);
    assert_eq!(other.last_width(), 5);
    block.append(LayoutResult::Block(other));
    assert_eq!(block.len(), 3);
    assert_eq!(block.width(), 76);
    assert_eq!(block.last_width(), 5);
    let lines = block.into_lines();
    assert_eq!(
        summary(&lines),
        vec![
            (0, 76, vec![0, 8, 8], vec!["a".to_string(), "b".to_string(), "c".to_string()]),
            (12, 60, vec![0], vec!["dd".to_string()]),
            (0, 5, vec![0], vec!["e".to_string()]),
        ]
    );
}

#[test]
fn block_indent_moves_every_line() {
    let mut block = Block::new();
    block.push(drawn("a", 10, false));
    block.nl(12);
    block.push(drawn("b", 10, false));
    block.nl(0);
    block.indent(7);
    let lines = block.into_lines();
    assert_eq!(lines.iter().map(|l| l.indent()).collect::<Vec<u128>>(), vec![7, 19, 7]);
    assert_eq!(texts(&lines[0]), vec!["a"]);
    assert_eq!(texts(&lines[1]), vec!["b"]);
    assert!(lines[2].is_empty());
}

#[test]
fn wrap_gives_a_line_for_one_line() {
    let mut block = Block::new();
    block.push(drawn("a", 10, false));
    match block.wrap() {
        LayoutResult::Line(line) => assert_eq!(line.width(), 10),
        _ => panic!("one line"),
    }
    let mut block = Block::new();
    block.push(drawn("a", 10, false));
    block.nl(0);
    match block.wrap() {
        LayoutResult::Block(b) => assert_eq!(b.len(), 2),
        _ => panic!("two lines"),
    }
}

#[test]
fn result_width_and_lines() {
    let single = LayoutResult::Single(drawn("a", 10, false));
    assert_eq!(single.width(), 10);
    assert!(!single.is_block());
    assert_eq!(single.first_token().unwrap().token.str, "a");
    assert_eq!(single.last_token().unwrap().token.str, "a");
    let lines = single.to_lines();
    assert_eq!(summary(&lines), vec![(0, 10, vec![0], vec!["a".to_string()])]);

    let mut line = Line::new();
    line.push(drawn("a", 10, false));
    line.push(drawn("b", 10, false));
    let result = LayoutResult::Line(line);
    assert_eq!(result.width(), 28);
    assert_eq!(result.first_token().unwrap().token.str, "a");
    assert_eq!(result.last_token().unwrap().token.str, "b");
    let block = result.to_block();
    assert_eq!(block.len(), 1);
    assert_eq!(block.width(), 28);

    let mut block = Block::new();
    block.push(drawn("a", 10, false));
    block.nl(0);
    block.push(drawn("bbb", 30, false));
    let result = LayoutResult::Block(block);
    assert!(result.is_block());
    assert_eq!(result.width(), 30);
    assert!(result.last_token().is_none());
    assert_eq!(result.first_token().unwrap().token.str, "a");
    assert_eq!(result.to_lines().len(), 2);
    assert!(WIDTH_CAP > u64::MAX as u128);
}

#[test]
fn room_left_stops_at_nothing() {
    assert_eq!(room_left(10, 3), 7);
    assert_eq!(room_left(3, 10), 0);
    assert_eq!(room_left(3, 3), 0);
    assert_eq!(SEPARATOR_MARGIN, 2);
    assert_eq!(TOKEN_MARGIN, 8);
}

#[test]
fn object_fits_on_one_line_at_its_natural_width() {
    let language = json::create().unwrap();
    let tokens = object_tokens();
    let tree = object_tree();
    for width in [110u128, 111, 500, u128::MAX] {
        let lines = lay_out(&language, &tokens, &tree, width);
        assert_eq!(
            summary(&lines),
            vec![(
                0,
                110,
                vec![0, 8, 2, 2, 8],
                vec![
                    "{".to_string(),
                    "\"k\"".to_string(),
                    ":".to_string(),
                    "\"1\"".to_string(),
                    "}".to_string()
                ]
            )]
        );
        assert_eq!(lines[0].ascent(), 10);
        assert_eq!(lines[0].descent(), 3);
    }
}

#[test]
fn object_breaks_into_three_lines_when_narrower() {
    let language = json::create().unwrap();
    let tokens = object_tokens();
    let tree = object_tree();
    for width in [109u128, 100, 93] {
        let lines = lay_out(&language, &tokens, &tree, width);
        assert_eq!(
            summary(&lines),
            vec![
                (0, 10, vec![0], vec!["{".to_string()]),
                (12, 74, vec![0, 2, 2], vec!["\"k\"".to_string(), ":".to_string(), "\"1\"".to_string()]),
                (0, 10, vec![0], vec!["}".to_string()]),
            ]
        );
    }
}

#[test]
fn separators_take_the_small_margin() {
    let language = json::create().unwrap();
    let tokens = object_tokens();
    let tree = object_tree();
    let lines = lay_out(&language, &tokens, &tree, 1000);
    let drawn = lines[0].tokens();
    assert!(!drawn[0].1.is_separator);
    assert_eq!(drawn[0].1.margin_left, 8);
    assert_eq!(drawn[0].1.margin_right, 8);
    assert!(drawn[2].1.is_separator);
    assert_eq!(drawn[2].1.margin_left, 2);
    assert_eq!(drawn[2].1.margin_right, 2);
    assert_eq!(drawn[2].1.tp(), 4);
    assert_eq!(drawn[1].1.width(), 30);
}

#[test]
fn nested_tree_breaks_outside_first() {
    let language = json::create().unwrap();
    let tokens = nested_tokens();
    let tree = nested_tree();
    let lines = lay_out(&language, &tokens, &tree, 112);
    assert_eq!(lines.len(), 1);
    assert_eq!(lines[0].width(), 112);
    let lines = lay_out(&language, &tokens, &tree, 100);
    assert_eq!(
        summary(&lines),
        vec![
            (0, 10, vec![0], vec!["{".to_string()]),
            (12, 76, vec![0, 8, 8], vec!["[".to_string(), "aaaa".to_string(), "]".to_string()]),
            (0, 10, vec![0], vec!["}".to_string()]),
        ]
    );
}

#[test]
fn block_child_is_laid_out_again_on_its_own_line() {
    let language = json::create().unwrap();
    let tokens = nested_tokens();
    let tree = nested_tree();
    let lines = lay_out(&language, &tokens, &tree, 60);
    assert_eq!(
        summary(&lines),
        vec![
            (0, 10, vec![0], vec!["{".to_string()]),
            (12, 10, vec![0], vec!["[".to_string()]),
            (24, 40, vec![0], vec!["aaaa".to_string()]),
            (12, 10, vec![0], vec!["]".to_string()]),
            (0, 10, vec![0], vec!["}".to_string()]),
        ]
    );
}

#[test]
fn wider_never_means_more_lines() {
    let language = json::create().unwrap();
    for (tokens, tree) in [(object_tokens(), object_tree()), (nested_tokens(), nested_tree())] {
        let mut before = usize::MAX;
        for width in 0u128..200 {
            let count = lay_out(&language, &tokens, &tree, width).len();
            assert!(count <= before);
            before = count;
        }
        assert_eq!(before, 1);
    }
}

#[test]
fn layout_twice_gives_the_same() {
    let language = json::create().unwrap();
    let tokens = nested_tokens();
    let tree = nested_tree();
    for width in [0u128, 60, 100, 112, 1000] {
        let once = lay_out(&language, &tokens, &tree, width);
        let twice = lay_out(&language, &tokens, &tree, width);
        assert_eq!(summary(&once), summary(&twice));
    }
}

#[test]
fn compose_puts_children_in_a_row() {
    let language = json::create().unwrap();
    let tokens = vec![Token::new(7, "ab"), Token::new(4, ":"), Token::new(7, "cd")];
    let tree = SyntaxTree::new(vec![node(13, 0, 4), node(7, 0, 2), node(4, 1, 3), node(7, 2, 4)])
        .unwrap();
    for width in [0u128, 10, 1000] {
        let lines = lay_out(&language, &tokens, &tree, width);
        assert_eq!(
            summary(&lines),
            vec![(0, 54, vec![0, 2, 2], vec!["ab".to_string(), ":".to_string(), "cd".to_string()])]
        );
    }
}

#[test]
fn compose_goes_on_behind_a_block() {
    let language = json::create().unwrap();
    let tokens = vec![
        Token::new(5, "["),
        Token::new(7, "aaaa"),
        Token::new(6, "]"),
        Token::new(7, "zz"),
    ];
    let tree = SyntaxTree::new(vec![
        node(13, 0, 6),
        node(17, 0, 5),
        node(5, 0, 3),
        node(7, 1, 4),
        node(6, 2, 5),
        node(7, 3, 6),
    ])
    .unwrap();
    let lines = lay_out(&language, &tokens, &tree, 50);
    assert_eq!(
        summary(&lines),
        vec![
            (0, 10, vec![0], vec!["[".to_string()]),
            (12, 40, vec![0], vec!["aaaa".to_string()]),
            (0, 38, vec![0, 8], vec!["]".to_string(), "zz".to_string()]),
        ]
    );
}

#[test]
fn single_token_tree() {
    let language = json::create().unwrap();
    let tokens = vec![Token::new(7, "abc")];
    let tree = SyntaxTree::new(vec![node(7, 0, 1)]).unwrap();
    let lines = lay_out(&language, &tokens, &tree, 0);
    assert_eq!(summary(&lines), vec![(0, 30, vec![0], vec!["abc".to_string()])]);
}

#[test]
fn empty_token_is_measured_by_its_mark() {
    let language = json::create().unwrap();
    let tokens = vec![Token::new(12, "")];
    let tree = SyntaxTree::new(vec![node(12, 0, 1)]).unwrap();
    let lines = lay_out(&language, &tokens, &tree, 100);
    assert_eq!(summary(&lines), vec![(0, 10, vec![0], vec!["".to_string()])]);
}

#[test]
fn faulty_nodes_become_the_mark() {
    let language = json::create().unwrap();
    let tokens = vec![Token::new(7, "abc"), Token::new(7, "def")];
    let faults = vec![
        SyntaxNode { kind: 7, token: 1, end: 3, missing: true, extra: false },
        SyntaxNode { kind: 7, token: 1, end: 3, missing: false, extra: true },
        node(ERROR_KIND, 1, 3),
        node(18, 1, 3),
        node(7, 2, 3),
    ];
    for bad in faults {
        let tree = SyntaxTree::new(vec![node(13, 0, 3), node(7, 0, 2), bad]).unwrap();
        let lines = lay_out(&language, &tokens, &tree, 1000);
        assert_eq!(
            summary(&lines),
            vec![(0, 43, vec![0, 8], vec!["abc".to_string(), "".to_string()])]
        );
        assert_eq!(lines[0].tokens()[1].1.tp(), 12);
        assert_eq!(lines[0].tokens()[1].1.width(), 5);
    }
}

#[test]
fn faulty_node_hides_its_subtree() {
    let language = json::create().unwrap();
    let tokens = vec![Token::new(7, "abc"), Token::new(7, "def")];
    let tree = SyntaxTree::new(vec![
        node(13, 0, 4),
        node(7, 0, 2),
        node(ERROR_KIND, 1, 4),
        node(7, 1, 4),
    ])
    .unwrap();
    let lines = lay_out(&language, &tokens, &tree, 1000);
    assert_eq!(texts(&lines[0]), vec!["abc", ""]);
}

#[test]
fn tree_without_nodes_is_the_mark() {
    let language = json::create().unwrap();
    let tokens: Vec<Token> = vec![];
    let tree = SyntaxTree::new(vec![]).unwrap();
    let lines = lay_out(&language, &tokens, &tree, 1000);
    assert_eq!(summary(&lines), vec![(0, 5, vec![0], vec!["".to_string()])]);
}

#[test]
fn tree_without_children_is_an_empty_line() {
    let language = json::create().unwrap();
    let tokens: Vec<Token> = vec![];
    let tree = SyntaxTree::new(vec![node(15, 0, 1)]).unwrap();
    let lines = lay_out(&language, &tokens, &tree, 1000);
    assert_eq!(lines.len(), 1);
    assert!(lines[0].is_empty());
}

#[test]
fn layout_node_lays_out_a_subtree() {
    let language = json::create().unwrap();
    let tokens = object_tokens();
    let tree = object_tree();
    let measures = measure(&tokens);
    let params = LayoutParams {
        tokens: &tokens,
        measures: &measures,
        language: &language,
        tree: &tree,
        indent: 12,
        fault: fault(),
    };
    match params.layout_node(2, 0, 0) {
        LayoutResult::Line(line) => {
            assert_eq!(line.width(), 74);
            assert_eq!(texts(&line), vec!["\"k\"", ":", "\"1\""]);
        }
        _ => panic!("a line"),
    }
    match params.layout_node(4, 0, 0) {
        LayoutResult::Single(t) => {
            assert!(t.is_separator);
            assert_eq!(t.token.str, ":");
        }
        _ => panic!("a token"),
    }
    match params.layout_node(7, 0, 0) {
        LayoutResult::Single(t) => assert_eq!(t.tp(), 12),
        _ => panic!("the mark"),
    }
    match params.layout_node(0, 50, 50) {
        LayoutResult::Block(b) => assert_eq!(b.len(), 3),
        _ => panic!("a block"),
    }
}

#[test]
fn composition_of_two_bracketed_trees_can_get_longer_with_more_room() {
    let language = json::create().unwrap();
    let tokens = vec![
        Token::new(5, "["),
        Token::new(7, "aaaaaaaaaaaa"),
        Token::new(6, "]"),
        Token::new(5, "["),
        Token::new(7, "x"),
        Token::new(2, ","),
        Token::new(7, "y"),
        Token::new(2, ","),
        Token::new(7, "z"),
        Token::new(6, "]"),
    ];
    let tree = SyntaxTree::new(vec![
        node(13, 0, 13),
        node(17, 0, 5),
        node(5, 0, 3),
        node(7, 1, 4),
        node(6, 2, 5),
        node(17, 3, 13),
        node(5, 3, 7),
        node(7, 4, 8),
        node(2, 5, 9),
        node(7, 6, 10),
        node(2, 7, 11),
        node(7, 8, 12),
        node(6, 9, 13),
    ])
    .unwrap();
    let narrow = lay_out(&language, &tokens, &tree, 110);
    assert_eq!(
        summary(&narrow),
        vec![
            (0, 10, vec![0], vec!["[".to_string()]),
            (12, 120, vec![0], vec!["aaaaaaaaaaaa".to_string()]),
            (
                0,
                112,
                vec![0, 8, 8, 2, 2, 2, 2, 8],
                vec!["]", "[", "x", ",", "y", ",", "z", "]"].iter().map(|s| s.to_string()).collect()
            ),
        ]
    );
    let wide = lay_out(&language, &tokens, &tree, 160);
    assert_eq!(
        summary(&wide),
        vec![
            (
                0,
                174,
                vec![0, 8, 8, 8],
                vec!["[", "aaaaaaaaaaaa", "]", "["].iter().map(|s| s.to_string()).collect()
            ),
            (12, 22, vec![0, 2], vec!["x".to_string(), ",".to_string()]),
            (12, 22, vec![0, 2], vec!["y".to_string(), ",".to_string()]),
            (12, 10, vec![0], vec!["z".to_string()]),
            (0, 10, vec![0], vec!["]".to_string()]),
        ]
    );
}

#[test]
fn plain_first_child_takes_the_first_line() {
    let language = json::create().unwrap();
    let tokens = vec![Token::new(7, "a")];
    let tree = SyntaxTree::new(vec![node(15, 0, 2), node(7, 0, 2)]).unwrap();
    let lines = lay_out(&language, &tokens, &tree, 5);
    assert_eq!(summary(&lines), vec![(12, 10, vec![0], vec!["a".to_string()])]);
    let lines = lay_out(&language, &tokens, &tree, 10);
    assert_eq!(summary(&lines), vec![(0, 10, vec![0], vec!["a".to_string()])]);
}

#[test]
fn closing_first_child_takes_the_first_line() {
    let language = json::create().unwrap();
    let tokens = vec![Token::new(3, "}"), Token::new(7, "a")];
    let tree = SyntaxTree::new(vec![node(15, 0, 3), node(3, 0, 2), node(7, 1, 3)]).unwrap();
    let lines = lay_out(&language, &tokens, &tree, 5);
    assert_eq!(
        summary(&lines),
        vec![(0, 10, vec![0], vec!["}".to_string()]), (12, 10, vec![0], vec!["a".to_string()])]
    );
}

#[test]
fn child_without_a_token_starts_no_line() {
    let language = json::create().unwrap();
    let tokens = vec![Token::new(1, "{"), Token::new(7, "abcdef"), Token::new(3, "}")];
    let tree = SyntaxTree::new(vec![
        node(15, 0, 6),
        node(1, 0, 2),
        node(13, 1, 3),
        node(7, 1, 4),
        node(17, 2, 5),
        node(3, 2, 6),
    ])
    .unwrap();
    let lines = lay_out(&language, &tokens, &tree, 30);
    assert_eq!(
        summary(&lines),
        vec![
            (0, 10, vec![0], vec!["{".to_string()]),
            (12, 60, vec![0], vec!["abcdef".to_string()]),
            (0, 10, vec![0], vec!["}".to_string()]),
        ]
    );
}

#[test]
fn every_line_of_a_layout_holds_a_token() {
    let language = json::create().unwrap();
    for (tokens, tree) in [(object_tokens(), object_tree()), (nested_tokens(), nested_tree())] {
        for width in 0u128..200 {
            for line in lay_out(&language, &tokens, &tree, width) {
                assert!(!line.is_empty());
            }
        }
    }
}

#[test]
fn block_turn_takes_an_empty_last_line() {
    let mut block = Block::new();
    block.turn(12);
    assert_eq!(block.len(), 1);
    block.push(drawn("a", 10, false));
    block.turn(7);
    assert_eq!(block.len(), 2);
    block.turn(3);
    assert_eq!(block.len(), 2);
    let lines = block.into_lines();
    assert_eq!(lines.iter().map(|l| l.indent()).collect::<Vec<u128>>(), vec![12, 3]);
}

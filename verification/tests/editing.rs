use nolex::data::Token;
use nolex::editor::buffer::{EditAction, Movement, Reparse, Selection};
use nolex::editor::state::{Cursor, EditorState};
use nolex::language::Language;
use nolex::languages::json;
use nolex::languages::Language as ParserSource;
use nolex::spec::{NodeSpec, Pattern, RegexTokenSemantics, TokenSpec};

fn open<'a>(language: &'a Language, tokens: Vec<Token>) -> EditorState<'a> {
    EditorState::new(language, tree_sitter::Parser::new(), tokens).unwrap()
}

fn place(state: &EditorState) -> (usize, usize, usize) {
    match state.cursor() {
        Cursor::Point { token, selection } => (token, selection.start, selection.end),
    }
}

fn content(state: &EditorState) -> Vec<(u16, String)> {
    state.tokens().iter().map(|t| (t.tp, t.str.clone())).collect()
}

fn document(state: &EditorState) -> String {
    state.tokens().iter().map(|t| t.str.clone()).collect::<Vec<String>>().concat()
}

fn ends_are_no_separators(state: &EditorState) -> bool {
    let tokens = state.tokens();
    let first = tokens.first().unwrap().tp;
    let last = tokens.last().unwrap().tp;
    !tokens.is_empty()
        && !state.language().node(first).as_token().is_separator()
        && !state.language().node(last).as_token().is_separator()
}

fn window(start: usize, old_end: usize, new_end: usize) -> Reparse {
    Reparse { start, old_end, new_end }
}

fn object() -> Vec<Token> {
    vec![
        Token::new(1, "{"),
        Token::new(7, "k"),
        Token::new(4, ":"),
        Token::new(8, "1"),
        Token::new(3, "}"),
    ]
}

#[test]
fn selection_edges() {
    let s = Selection::new(5, 2);
    assert_eq!(s.start, 5);
    assert_eq!(s.end, 2);
    assert_eq!(s.min(), 2);
    assert_eq!(s.max(), 5);
    assert!(!s.is_caret());
    let c = Selection::caret(4);
    assert_eq!(c, Selection { start: 4, end: 4 });
    assert!(c.is_caret());
    assert_eq!(c.min(), 4);
    assert_eq!(c.max(), 4);
    assert_eq!(s.constrain_to(3), Selection { start: 3, end: 2 });
    assert_eq!(s.constrain_to(1), Selection { start: 1, end: 1 });
    assert_eq!(s.constrain_to(9), s);
}

#[test]
fn new_keeps_a_settled_buffer() {
    let language = json::create().unwrap();
    let state = open(&language, object());
    assert_eq!(state.version(), 0);
    assert_eq!(place(&state), (0, 0, 0));
    assert_eq!(state.tokens().len(), 5);
    assert_eq!(state.stream(), vec![1, 7, 4, 8, 3]);
    assert!(state.tree().is_none());
    assert_eq!(state.language().lex_error(), 12);
}

#[test]
fn new_refuses_tokens_of_no_category() {
    let language = json::create().unwrap();
    assert!(EditorState::new(&language, tree_sitter::Parser::new(), vec![Token::new(13, "x")])
        .is_none());
    assert!(EditorState::new(&language, tree_sitter::Parser::new(), vec![Token::new(99, "x")])
        .is_none());
    assert!(EditorState::new(
        &language,
        tree_sitter::Parser::new(),
        vec![Token::new(7, "x"), Token::new(65535, "x")]
    )
    .is_none());
}

#[test]
fn new_mends_an_empty_buffer() {
    let language = json::create().unwrap();
    let state = open(&language, vec![]);
    assert_eq!(content(&state), vec![(12, String::new())]);
    assert_eq!(state.version(), 1);
    assert_eq!(place(&state), (0, 0, 0));
}

#[test]
fn new_mends_both_ends() {
    let language = json::create().unwrap();
    let state = open(&language, vec![Token::new(2, ",")]);
    assert_eq!(
        content(&state),
        vec![(12, String::new()), (2, ",".to_string()), (12, String::new())]
    );
    assert_eq!(state.version(), 2);
    assert_eq!(place(&state), (0, 0, 0));
    let state = open(&language, vec![Token::new(7, "a"), Token::new(4, ":")]);
    assert_eq!(
        content(&state),
        vec![(7, "a".to_string()), (4, ":".to_string()), (12, String::new())]
    );
    assert_eq!(state.version(), 1);
}

#[test]
fn insert_puts_text_at_the_caret() {
    let language = json::create().unwrap();
    let mut state = open(&language, vec![Token::new(7, "ab")]);
    let log = state.insert("x");
    assert!(log.is_empty());
    assert_eq!(content(&state), vec![(7, "xab".to_string())]);
    assert_eq!(place(&state), (0, 1, 1));
    assert_eq!(state.version(), 0);
    let log = state.insert("é!");
    assert!(log.is_empty());
    assert_eq!(content(&state), vec![(7, "xé!ab".to_string())]);
    assert_eq!(place(&state), (0, 4, 4));
}

#[test]
fn insert_replaces_the_selection() {
    let language = json::create().unwrap();
    let mut state = open(&language, vec![Token::new(7, "ab")]);
    state.move_selection(Movement::RightOfLine, false);
    assert_eq!(place(&state), (0, 2, 2));
    state.move_selection(Movement::Left, true);
    assert_eq!(place(&state), (0, 2, 1));
    let log = state.insert("ZZ");
    assert!(log.is_empty());
    assert_eq!(content(&state), vec![(7, "aZZ".to_string())]);
    assert_eq!(place(&state), (0, 3, 3));
}

#[test]
fn editing_a_pattern_token_out_of_its_pattern_makes_it_a_lex_error() {
    let language = json::create().unwrap();
    let mut state = open(&language, vec![Token::new(8, "1")]);
    state.move_selection(Movement::RightOfLine, false);
    state.move_selection(Movement::Left, true);
    assert_eq!(place(&state), (0, 1, 0));
    let log = state.insert("x");
    assert_eq!(log, vec![window(0, 1, 1)]);
    assert_eq!(content(&state), vec![(12, "x".to_string())]);
    assert_eq!(state.version(), 1);
    assert_eq!(place(&state), (0, 1, 1));
}

#[test]
fn editing_a_pattern_token_within_its_pattern_changes_nothing_else() {
    let language = json::create().unwrap();
    let mut state = open(&language, vec![Token::new(8, "1")]);
    let log = state.insert("2");
    assert!(log.is_empty());
    assert_eq!(content(&state), vec![(8, "21".to_string())]);
    assert_eq!(state.version(), 0);
}

#[test]
fn editing_a_constant_token_makes_it_a_lex_error() {
    let language = json::create().unwrap();
    let mut state = open(&language, vec![Token::new(9, "true")]);
    state.move_selection(Movement::RightOfLine, false);
    let log = state.insert("r");
    assert_eq!(log, vec![window(0, 1, 1)]);
    assert_eq!(content(&state), vec![(12, "truer".to_string())]);
}

#[test]
fn lex_error_token_takes_the_category_of_its_text() {
    let language = json::create().unwrap();
    let mut state = open(&language, vec![]);
    let log = state.insert("{");
    assert_eq!(log, vec![window(0, 1, 1)]);
    assert_eq!(content(&state), vec![(1, "{".to_string())]);
    assert_eq!(state.version(), 2);
    assert_eq!(place(&state), (0, 1, 1));
}

#[test]
fn lex_error_token_becomes_a_string() {
    let language = json::create().unwrap();
    let mut state = open(&language, vec![]);
    let log = state.insert("abc");
    assert_eq!(log, vec![window(0, 1, 1)]);
    assert_eq!(content(&state), vec![(7, "abc".to_string())]);
    assert_eq!(state.version(), 2);
}

fn category(source: &str, precedence: i32, semantics: RegexTokenSemantics) -> NodeSpec {
    NodeSpec::Token(TokenSpec::Regex {
        name: "",
        regex: Pattern::new(source).unwrap(),
        precedence,
        can_empty: true,
        can_space: true,
        can_newline: true,
        can_wrap: true,
        semantics,
    })
}

#[test]
fn lex_error_token_stays_where_its_text_is_ambiguous() {
    let nodes = vec![
        category(".*", 9, RegexTokenSemantics::LexingError),
        category("[a-c]+", 1, RegexTokenSemantics::Literal),
        category("[a-z]+", 1, RegexTokenSemantics::Literal),
    ];
    let language = match Language::new(nodes) {
        Ok(language) => language,
        Err(_) => panic!("the table is a grammar"),
    };
    let mut state = open(&language, vec![]);
    let log = state.insert("abc");
    assert!(log.is_empty());
    assert_eq!(content(&state), vec![(0, "abc".to_string())]);
    assert_eq!(state.version(), 1);
    let log = state.insert("x");
    assert_eq!(log, vec![window(0, 1, 1)]);
    assert_eq!(content(&state), vec![(2, "abcx".to_string())]);
    let log = state.insert("1");
    assert_eq!(log, vec![window(0, 1, 1)]);
    assert_eq!(content(&state), vec![(0, "abcx1".to_string())]);
}

#[test]
fn new_refuses_tokens_that_their_category_does_not_accept() {
    let language = json::create().unwrap();
    for token in [Token::new(8, "abc"), Token::new(9, "tru"), Token::new(11, "true"), Token::new(1, "")] {
        assert!(EditorState::new(&language, tree_sitter::Parser::new(), vec![token]).is_none());
    }
    for token in [Token::new(12, "any"), Token::new(8, "12"), Token::new(9, "true"), Token::new(7, "")] {
        assert!(EditorState::new(&language, tree_sitter::Parser::new(), vec![token]).is_some());
    }
}

#[test]
fn every_token_fits_its_category_after_each_edit() {
    let language = json::create().unwrap();
    let mut state = open(&language, object());
    let actions = vec![
        EditAction::Insert("x".to_string()),
        EditAction::Move(Movement::Right),
        EditAction::Move(Movement::Right),
        EditAction::Backspace,
        EditAction::Insert("tru".to_string()),
        EditAction::Insert("e".to_string()),
        EditAction::Move(Movement::Right),
        EditAction::Insert(",".to_string()),
        EditAction::Move(Movement::Right),
        EditAction::Delete,
        EditAction::Insert("12".to_string()),
        EditAction::Backspace,
        EditAction::Backspace,
        EditAction::Backspace,
    ];
    for action in actions {
        state.do_edit_action(action);
        for token in state.tokens() {
            let category = state.language().node(token.tp).as_token();
            assert!(category.is_lex_error() || category.accept(&token.str));
        }
    }
}

#[test]
fn delete_forward_on_an_empty_token_behind_a_separator_stays_in_its_place() {
    let language = json::create().unwrap();
    let mut state =
        open(&language, vec![Token::new(7, "a"), Token::new(2, ","), Token::new(12, "")]);
    state.move_selection(Movement::RightOfLine, false);
    state.move_selection(Movement::Right, false);
    assert_eq!(place(&state), (2, 0, 0));
    let log = state.delete_forward();
    assert_eq!(log, vec![window(2, 3, 2), window(2, 2, 3)]);
    assert_eq!(
        content(&state),
        vec![(7, "a".to_string()), (2, ",".to_string()), (12, String::new())]
    );
    assert_eq!(place(&state), (2, 0, 0));
}

#[test]
fn typing_a_separator_mends_both_ends() {
    let language = json::create().unwrap();
    let mut state = open(&language, vec![]);
    assert_eq!(state.version(), 1);
    let log = state.insert(",");
    assert_eq!(log, vec![window(0, 1, 1), window(0, 0, 1), window(2, 2, 3)]);
    assert_eq!(
        content(&state),
        vec![(12, String::new()), (2, ",".to_string()), (12, String::new())]
    );
    assert_eq!(state.version(), 4);
    assert_eq!(place(&state), (0, 0, 0));
    assert_eq!(state.stream(), vec![12, 2, 12]);
}

#[test]
fn deleting_the_sole_character_of_a_token_that_needs_text_removes_it() {
    let language = json::create().unwrap();
    let mut state =
        open(&language, vec![Token::new(1, "{"), Token::new(8, "1"), Token::new(3, "}")]);
    state.move_selection(Movement::Right, false);
    assert_eq!(place(&state), (0, 1, 1));
    state.move_selection(Movement::Right, false);
    assert_eq!(place(&state), (1, 0, 0));
    state.move_selection(Movement::Right, false);
    assert_eq!(place(&state), (1, 1, 1));
    let log = state.delete_backward();
    assert_eq!(log, vec![window(1, 2, 1)]);
    assert_eq!(content(&state), vec![(1, "{".to_string()), (3, "}".to_string())]);
    assert_eq!(state.stream(), vec![1, 3]);
    assert_eq!(state.version(), 1);
    assert_eq!(place(&state), (0, 1, 1));
}

#[test]
fn emptying_a_token_that_may_be_empty_keeps_it() {
    let language = json::create().unwrap();
    let mut state = open(&language, vec![Token::new(7, "a")]);
    state.move_selection(Movement::RightOfLine, false);
    let log = state.delete_backward();
    assert!(log.is_empty());
    assert_eq!(content(&state), vec![(7, String::new())]);
    assert_eq!(place(&state), (0, 0, 0));
}

#[test]
fn delete_backward_takes_a_whole_cluster() {
    let language = json::create().unwrap();
    let mut state = open(&language, vec![Token::new(7, "xe\u{301}")]);
    state.move_selection(Movement::RightOfLine, false);
    assert_eq!(place(&state), (0, 4, 4));
    let log = state.delete_backward();
    assert!(log.is_empty());
    assert_eq!(content(&state), vec![(7, "x".to_string())]);
    assert_eq!(place(&state), (0, 1, 1));
}

#[test]
fn delete_backward_at_the_start_of_a_text_changes_nothing() {
    let language = json::create().unwrap();
    let mut state = open(&language, vec![Token::new(7, "ab")]);
    let log = state.delete_backward();
    assert!(log.is_empty());
    assert_eq!(content(&state), vec![(7, "ab".to_string())]);
    assert_eq!(place(&state), (0, 0, 0));
}

#[test]
fn delete_backward_takes_the_selection() {
    let language = json::create().unwrap();
    let mut state = open(&language, vec![Token::new(7, "abcd")]);
    state.move_selection(Movement::Right, false);
    state.move_selection(Movement::Right, true);
    state.move_selection(Movement::Right, true);
    assert_eq!(place(&state), (0, 1, 3));
    let log = state.delete_backward();
    assert!(log.is_empty());
    assert_eq!(content(&state), vec![(7, "ad".to_string())]);
    assert_eq!(place(&state), (0, 1, 1));
}

#[test]
fn delete_backward_on_an_empty_token_removes_it() {
    let language = json::create().unwrap();
    let mut state = open(&language, vec![Token::new(7, "a"), Token::new(12, "")]);
    state.move_selection(Movement::Right, false);
    state.move_selection(Movement::Right, false);
    assert_eq!(place(&state), (1, 0, 0));
    let log = state.delete_backward();
    assert_eq!(log, vec![window(1, 2, 1)]);
    assert_eq!(content(&state), vec![(7, "a".to_string())]);
    assert_eq!(place(&state), (0, 1, 1));
}

#[test]
fn delete_backward_on_the_only_token_leaves_a_placeholder() {
    let language = json::create().unwrap();
    let mut state = open(&language, vec![Token::new(7, "")]);
    let log = state.delete_backward();
    assert_eq!(log, vec![window(0, 1, 0), window(0, 0, 1)]);
    assert_eq!(content(&state), vec![(12, String::new())]);
    assert_eq!(place(&state), (0, 0, 0));
    assert_eq!(state.version(), 2);
}

#[test]
fn delete_forward_on_an_empty_last_token_moves_the_cursor_back() {
    let language = json::create().unwrap();
    let mut state = open(&language, vec![Token::new(7, "ab"), Token::new(12, "")]);
    state.move_selection(Movement::RightOfLine, false);
    state.move_selection(Movement::Right, false);
    assert_eq!(place(&state), (1, 0, 0));
    let log = state.delete_forward();
    assert_eq!(log, vec![window(1, 2, 1)]);
    assert_eq!(content(&state), vec![(7, "ab".to_string())]);
    assert_eq!(place(&state), (0, 2, 2));
}

#[test]
fn delete_forward_on_an_empty_token_stands_on_the_next() {
    let language = json::create().unwrap();
    let mut state = open(&language, vec![Token::new(12, ""), Token::new(7, "ab")]);
    let log = state.delete_forward();
    assert_eq!(log, vec![window(0, 1, 0)]);
    assert_eq!(content(&state), vec![(7, "ab".to_string())]);
    assert_eq!(place(&state), (0, 0, 0));
}

#[test]
fn delete_forward_uncovers_a_separator_and_mends() {
    let language = json::create().unwrap();
    let mut state = open(&language, vec![Token::new(2, ",")]);
    assert_eq!(place(&state), (0, 0, 0));
    let log = state.delete_forward();
    assert_eq!(log, vec![window(0, 1, 0), window(0, 0, 1)]);
    assert_eq!(
        content(&state),
        vec![(12, String::new()), (2, ",".to_string()), (12, String::new())]
    );
    assert_eq!(place(&state), (0, 0, 0));
    assert_eq!(state.version(), 4);
}

#[test]
fn delete_forward_takes_the_cluster_behind_the_caret() {
    let language = json::create().unwrap();
    let mut state = open(&language, vec![Token::new(7, "e\u{301}x")]);
    let log = state.delete_forward();
    assert!(log.is_empty());
    assert_eq!(content(&state), vec![(7, "x".to_string())]);
    assert_eq!(place(&state), (0, 0, 0));
}

#[test]
fn delete_forward_at_the_end_of_a_text_changes_nothing() {
    let language = json::create().unwrap();
    let mut state = open(&language, vec![Token::new(7, "ab"), Token::new(7, "cd")]);
    state.move_selection(Movement::RightOfLine, false);
    let log = state.delete_forward();
    assert!(log.is_empty());
    assert_eq!(content(&state), vec![(7, "ab".to_string()), (7, "cd".to_string())]);
    assert_eq!(place(&state), (0, 2, 2));
}

#[test]
fn delete_forward_takes_the_selection() {
    let language = json::create().unwrap();
    let mut state = open(&language, vec![Token::new(7, "abcd")]);
    state.move_selection(Movement::RightOfLine, false);
    state.move_selection(Movement::Left, true);
    state.move_selection(Movement::Left, true);
    assert_eq!(place(&state), (0, 4, 2));
    let log = state.delete_forward();
    assert!(log.is_empty());
    assert_eq!(content(&state), vec![(7, "ab".to_string())]);
    assert_eq!(place(&state), (0, 2, 2));
}

#[test]
fn cursor_moves_inside_a_text_by_clusters() {
    let language = json::create().unwrap();
    let mut state = open(&language, vec![Token::new(7, "ae\u{301}b")]);
    state.move_selection(Movement::Right, false);
    assert_eq!(place(&state), (0, 1, 1));
    state.move_selection(Movement::Right, false);
    assert_eq!(place(&state), (0, 4, 4));
    state.move_selection(Movement::Right, false);
    assert_eq!(place(&state), (0, 5, 5));
    state.move_selection(Movement::Right, false);
    assert_eq!(place(&state), (0, 5, 5));
    state.move_selection(Movement::Left, false);
    assert_eq!(place(&state), (0, 4, 4));
    state.move_selection(Movement::Left, false);
    assert_eq!(place(&state), (0, 1, 1));
    state.move_selection(Movement::LeftOfLine, false);
    assert_eq!(place(&state), (0, 0, 0));
    state.move_selection(Movement::Left, false);
    assert_eq!(place(&state), (0, 0, 0));
    state.move_selection(Movement::RightOfLine, true);
    assert_eq!(place(&state), (0, 0, 5));
    state.move_selection(Movement::Left, false);
    assert_eq!(place(&state), (0, 0, 0));
    state.move_selection(Movement::RightOfLine, true);
    state.move_selection(Movement::LeftOfLine, true);
    assert_eq!(place(&state), (0, 0, 0));
}

#[test]
fn giving_up_a_selection_goes_to_its_edge() {
    let language = json::create().unwrap();
    let mut state = open(&language, vec![Token::new(7, "abcd")]);
    state.move_selection(Movement::Right, false);
    state.move_selection(Movement::Right, true);
    state.move_selection(Movement::Right, true);
    assert_eq!(place(&state), (0, 1, 3));
    state.move_selection(Movement::Left, false);
    assert_eq!(place(&state), (0, 1, 1));
    state.move_selection(Movement::Right, true);
    state.move_selection(Movement::Right, true);
    state.move_selection(Movement::Left, true);
    assert_eq!(place(&state), (0, 1, 2));
    state.move_selection(Movement::Right, false);
    assert_eq!(place(&state), (0, 2, 2));
}

#[test]
fn cursor_passes_a_separator_between_tokens() {
    let language = json::create().unwrap();
    let mut state =
        open(&language, vec![Token::new(7, "a"), Token::new(2, ","), Token::new(7, "bc")]);
    state.move_selection(Movement::RightOfLine, false);
    state.move_selection(Movement::Right, false);
    assert_eq!(place(&state), (2, 0, 0));
    state.move_selection(Movement::Left, false);
    assert_eq!(place(&state), (0, 1, 1));
}

#[test]
fn cursor_passes_one_separator_only() {
    let language = json::create().unwrap();
    let mut state = open(
        &language,
        vec![Token::new(7, "a"), Token::new(2, ","), Token::new(4, ":"), Token::new(7, "b")],
    );
    state.move_selection(Movement::RightOfLine, false);
    state.move_selection(Movement::Right, false);
    assert_eq!(place(&state), (2, 0, 0));
    state.move_selection(Movement::RightOfLine, false);
    state.move_selection(Movement::Right, false);
    assert_eq!(place(&state), (3, 0, 0));
    state.move_selection(Movement::Left, false);
    assert_eq!(place(&state), (1, 1, 1));
    state.move_selection(Movement::LeftOfLine, false);
    state.move_selection(Movement::Left, false);
    assert_eq!(place(&state), (0, 1, 1));
}

#[test]
fn cursor_stays_at_the_ends_of_the_buffer() {
    let language = json::create().unwrap();
    let mut state = open(&language, vec![Token::new(7, "a"), Token::new(7, "b")]);
    state.move_selection(Movement::Left, false);
    assert_eq!(place(&state), (0, 0, 0));
    state.move_selection(Movement::Right, false);
    state.move_selection(Movement::Right, false);
    assert_eq!(place(&state), (1, 0, 0));
    state.move_selection(Movement::Right, false);
    state.move_selection(Movement::Right, false);
    assert_eq!(place(&state), (1, 1, 1));
    state.move_selection(Movement::Left, false);
    state.move_selection(Movement::Left, false);
    assert_eq!(place(&state), (0, 1, 1));
}

#[test]
fn actions_are_dispatched() {
    let language = json::create().unwrap();
    let mut state = open(&language, vec![Token::new(7, "ab")]);
    assert!(state.do_edit_action(EditAction::Move(Movement::Right)).is_empty());
    assert_eq!(place(&state), (0, 1, 1));
    assert!(state.do_edit_action(EditAction::Insert("xy".to_string())).is_empty());
    assert_eq!(content(&state), vec![(7, "axyb".to_string())]);
    assert!(state.do_edit_action(EditAction::Backspace).is_empty());
    assert_eq!(content(&state), vec![(7, "axb".to_string())]);
    assert!(state.do_edit_action(EditAction::Delete).is_empty());
    assert_eq!(content(&state), vec![(7, "ax".to_string())]);
    assert!(state.do_edit_action(EditAction::Ignored).is_empty());
    assert_eq!(content(&state), vec![(7, "ax".to_string())]);
    assert_eq!(place(&state), (0, 2, 2));
}

#[test]
fn ends_are_never_separators() {
    let language = json::create().unwrap();
    let mut state = open(&language, object());
    assert!(ends_are_no_separators(&state));
    let actions = vec![
        EditAction::Delete,
        EditAction::Insert(",".to_string()),
        EditAction::Move(Movement::Right),
        EditAction::Move(Movement::Right),
        EditAction::Backspace,
        EditAction::Backspace,
        EditAction::Delete,
        EditAction::Delete,
        EditAction::Insert(":".to_string()),
        EditAction::Move(Movement::RightOfLine),
        EditAction::Move(Movement::Right),
        EditAction::Move(Movement::Right),
        EditAction::Delete,
        EditAction::Backspace,
        EditAction::Backspace,
        EditAction::Backspace,
        EditAction::Backspace,
        EditAction::Backspace,
        EditAction::Backspace,
        EditAction::Backspace,
        EditAction::Backspace,
        EditAction::Insert(",".to_string()),
        EditAction::Delete,
        EditAction::Delete,
        EditAction::Delete,
    ];
    for action in actions {
        let before = state.version();
        let log = state.do_edit_action(action);
        assert!(ends_are_no_separators(&state));
        assert_eq!(state.version(), before + log.len() as u64);
        let (token, start, end) = place(&state);
        assert!(token < state.tokens().len());
        let text = &state.tokens()[token].str;
        assert!(text.is_char_boundary(start));
        assert!(text.is_char_boundary(end));
    }
}

#[test]
fn edits_change_the_document_where_the_cursor_stands_only() {
    let language = json::create().unwrap();
    let mut state = open(&language, object());
    assert_eq!(document(&state), "{k:1}");
    state.move_selection(Movement::Right, false);
    state.move_selection(Movement::Right, false);
    state.move_selection(Movement::Right, false);
    assert_eq!(place(&state), (1, 1, 1));
    state.insert("ey");
    assert_eq!(document(&state), "{key:1}");
    state.delete_backward();
    assert_eq!(document(&state), "{ke:1}");
    state.move_selection(Movement::LeftOfLine, false);
    state.delete_forward();
    assert_eq!(document(&state), "{e:1}");
    state.delete_forward();
    assert_eq!(document(&state), "{:1}");
    state.delete_forward();
    assert_eq!(document(&state), "{:1}");
    state.insert(",");
    assert_eq!(document(&state), "{,:1}");
}

#[test]
fn stream_cuts_categories_to_a_byte() {
    let mut nodes = vec![NodeSpec::Token(TokenSpec::Regex {
        name: "",
        regex: Pattern::new(".*").unwrap(),
        precedence: 0,
        can_empty: true,
        can_space: true,
        can_newline: true,
        can_wrap: true,
        semantics: RegexTokenSemantics::LexingError,
    })];
    while nodes.len() < 300 {
        nodes.push(NodeSpec::Token(TokenSpec::keyword("k")));
    }
    let language = match Language::new(nodes) {
        Ok(language) => language,
        Err(_) => panic!("the table is a grammar"),
    };
    let state = open(&language, vec![Token::new(255, "k"), Token::new(256, "k"), Token::new(299, "k")]);
    assert_eq!(state.stream(), vec![255, 0, 43]);
}

struct Plain;

impl ParserSource for Plain {
    fn new_parser() -> tree_sitter::Parser {
        tree_sitter::Parser::new()
    }
}

#[test]
fn a_language_makes_the_parser_of_a_state() {
    let language = json::create().unwrap();
    let mut state = EditorState::new(&language, Plain::new_parser(), object()).unwrap();
    assert!(state.tree().is_none());
    let log = state.insert("x");
    assert_eq!(log, vec![window(0, 1, 1)]);
    assert!(state.tree().is_none());
    assert_eq!(state.version(), 1);
    assert_eq!(content(&state)[0], (12, "x{".to_string()));
}

use nolex::data::Token;
use nolex::language::{Classification, GrammarError, Language, Role, ERROR_KIND};
use nolex::languages::json;
use nolex::spec::{
    same_text, unused_node_spec, ConstantTokenSemantics, NodeSpec, Pattern, RegexTokenSemantics,
    Rule, SemanticClass, Syntax, TokenRef, TokenSpec,
};

fn pattern(source: &str, precedence: i32, semantics: RegexTokenSemantics) -> NodeSpec {
    NodeSpec::Token(TokenSpec::Regex {
        name: "",
        regex: Pattern::new(source).unwrap(),
        precedence,
        can_empty: false,
        can_space: false,
        can_newline: false,
        can_wrap: false,
        semantics,
    })
}

fn small_grammar() -> Language {
    let nodes = vec![
        NodeSpec::Token(TokenSpec::keyword("if")),
        pattern("^[0-9]+$", 1, RegexTokenSemantics::Literal),
        pattern("^[a-z]+$", 1, RegexTokenSemantics::Literal),
        pattern("^[a-z0-9]+$", 5, RegexTokenSemantics::Unspecified),
        pattern("^[a-c]+$", 1, RegexTokenSemantics::Literal),
        NodeSpec::Token(TokenSpec::keyword("if")),
        pattern("^$", -3, RegexTokenSemantics::LexingError),
        NodeSpec::Tree { start: vec![0], sep: vec![1], end: vec![5] },
        NodeSpec::Compose,
    ];
    match Language::new(nodes) {
        Ok(language) => language,
        Err(_) => panic!("the table is a grammar"),
    }
}

#[test]
fn token_new_holds_its_text() {
    let t = Token::new(7, "key");
    assert_eq!(t.tp, 7);
    assert_eq!(t.str, "key");
    assert!(!t.is_empty());
    assert_eq!(t.shown_text(), "key");
}

#[test]
fn empty_token_shows_a_mark() {
    let t = Token::new(12, "");
    assert!(t.is_empty());
    assert_eq!(t.shown_text(), "*");
    let copy = t.snapshot();
    assert_eq!(copy.tp, 12);
    assert_eq!(copy.str, "");
}

#[test]
fn same_text_compares_bytes() {
    assert!(same_text("abc", "abc"));
    assert!(!same_text("abc", "abd"));
    assert!(!same_text("abc", "ab"));
    assert!(same_text("", ""));
    assert!(same_text("héllo", "héllo"));
    assert!(!same_text("héllo", "hello"));
}

#[test]
fn pattern_compiles_or_not() {
    assert!(Pattern::new("a+").is_some());
    assert!(Pattern::new("").is_some());
    assert!(Pattern::new("foo(bar").is_none());
}

#[test]
fn pattern_matches_the_whole_text_only() {
    let p = Pattern::new("b+").unwrap();
    assert!(p.is_match("bb"));
    assert!(p.is_match("b"));
    assert!(!p.is_match("abba"));
    assert!(!p.is_match("bba"));
    assert!(!p.is_match("acca"));
    assert!(!p.is_match(""));
    let q = Pattern::new("a|ab").unwrap();
    assert!(q.is_match("a"));
    assert!(q.is_match("ab"));
    assert!(!q.is_match("abb"));
    let r = Pattern::new("").unwrap();
    assert!(r.is_match(""));
    assert!(!r.is_match("x"));
    let s = Pattern::new(".*").unwrap();
    assert!(s.is_match(""));
    assert!(s.is_match("any text"));
    assert!(!s.is_match("two\nlines"));
}

#[test]
fn pattern_source_must_compile_alone() {
    assert!(Pattern::new("a)(b").is_none());
    assert!(Pattern::new("a)|(b").is_none());
}

#[test]
fn constant_accepts_its_literal_only() {
    let t = TokenSpec::delimiter("{");
    assert!(t.accept("{"));
    assert!(!t.accept("{{"));
    assert!(!t.accept(""));
    assert!(!t.accept("}"));
}

#[test]
fn regex_token_accepts_by_its_pattern() {
    let kind = pattern("^[0-9]+$", 0, RegexTokenSemantics::Literal);
    let t = kind.as_token();
    assert!(t.accept("123"));
    assert!(!t.accept("12a"));
    assert!(!t.accept(""));
}

#[test]
fn token_spec_builders() {
    match TokenSpec::delimiter("{") {
        TokenSpec::Constant { str, eager, semantics } => {
            assert_eq!(str, "{");
            assert!(eager);
            assert_eq!(semantics, ConstantTokenSemantics::Delimiter);
        }
        _ => panic!("a constant"),
    }
    match TokenSpec::separator(",") {
        TokenSpec::Constant { str, eager, semantics } => {
            assert_eq!(str, ",");
            assert!(eager);
            assert_eq!(semantics, ConstantTokenSemantics::Separator);
        }
        _ => panic!("a constant"),
    }
    match TokenSpec::keyword("true") {
        TokenSpec::Constant { str, eager, semantics } => {
            assert_eq!(str, "true");
            assert!(!eager);
            assert_eq!(semantics, ConstantTokenSemantics::Keyword);
        }
        _ => panic!("a constant"),
    }
}

#[test]
fn token_spec_classes() {
    let sep = TokenSpec::separator(",");
    let del = TokenSpec::delimiter("{");
    let key = TokenSpec::keyword("null");
    assert!(sep.is_separator());
    assert!(!del.is_separator());
    assert!(!key.is_separator());
    assert!(!sep.can_empty());
    assert!(!sep.is_lex_error());
    let error = pattern(".*", 1, RegexTokenSemantics::LexingError);
    assert!(error.as_token().is_lex_error());
    assert!(!error.as_token().is_separator());
    assert!(!error.as_token().can_empty());
    let literal = pattern(".*", 1, RegexTokenSemantics::Literal);
    assert!(!literal.as_token().is_lex_error());
}

#[test]
fn unused_node_spec_is_an_unspecified_pattern() {
    match unused_node_spec().unwrap() {
        NodeSpec::Token(t) => {
            assert!(t.can_empty());
            assert!(!t.is_lex_error());
            assert!(!t.is_separator());
            assert!(t.accept(""));
            assert!(!t.accept("anything"));
            match t {
                TokenSpec::Regex { precedence, can_space, can_newline, can_wrap, semantics, .. } => {
                    assert_eq!(precedence, 0);
                    assert!(!can_space);
                    assert!(!can_newline);
                    assert!(!can_wrap);
                    assert_eq!(semantics, RegexTokenSemantics::Unspecified);
                }
                _ => panic!("a pattern"),
            }
        }
        _ => panic!("a token"),
    }
}

#[test]
fn grammar_needs_a_lex_error_category() {
    let nodes = vec![NodeSpec::Token(TokenSpec::keyword("if")), NodeSpec::Compose];
    match Language::new(nodes) {
        Err(e) => assert_eq!(e, GrammarError::NoLexError),
        Ok(_) => panic!("no fallback in the table"),
    }
    match Language::new(vec![]) {
        Err(e) => assert_eq!(e, GrammarError::NoLexError),
        Ok(_) => panic!("no fallback in the table"),
    }
}

#[test]
fn grammar_has_room_for_65535_kinds() {
    let mut nodes = vec![pattern(".*", 0, RegexTokenSemantics::LexingError)];
    while nodes.len() < 65535 {
        nodes.push(NodeSpec::Compose);
    }
    let language = match Language::new(nodes) {
        Ok(language) => language,
        Err(_) => panic!("the table fits"),
    };
    assert_eq!(language.node_count(), 65535);
    assert_eq!(language.lex_error(), 0);
    let mut nodes = vec![pattern(".*", 0, RegexTokenSemantics::LexingError)];
    while nodes.len() < 65536 {
        nodes.push(NodeSpec::Compose);
    }
    match Language::new(nodes) {
        Err(e) => assert_eq!(e, GrammarError::TooManyNodes),
        Ok(_) => panic!("the table is too long"),
    }
}

#[test]
fn fallback_is_the_first_lex_error_category() {
    let nodes = vec![
        NodeSpec::Compose,
        pattern("a", 0, RegexTokenSemantics::Literal),
        pattern("b", 9, RegexTokenSemantics::LexingError),
        pattern("c", 1, RegexTokenSemantics::LexingError),
    ];
    match Language::new(nodes) {
        Ok(language) => assert_eq!(language.lex_error(), 2),
        Err(_) => panic!("the table is a grammar"),
    }
}

#[test]
fn node_looks_kinds_up() {
    let language = small_grammar();
    assert_eq!(language.node_count(), 9);
    assert!(matches!(language.node(0), NodeSpec::Token(TokenSpec::Constant { .. })));
    assert!(matches!(language.node(1), NodeSpec::Token(TokenSpec::Regex { .. })));
    assert!(matches!(language.node(7), NodeSpec::Tree { .. }));
    assert!(matches!(language.node(8), NodeSpec::Compose));
    assert!(matches!(language.node(ERROR_KIND), NodeSpec::Error));
    assert_eq!(ERROR_KIND, 65535);
}

#[test]
fn classify_tries_constants_first() {
    let language = small_grammar();
    assert_eq!(language.classify("if"), Classification::Category(0));
    assert_eq!(language.try_lex("if"), Some(0));
}

#[test]
fn classify_takes_the_lowest_precedence() {
    let language = small_grammar();
    assert_eq!(language.classify("123"), Classification::Category(1));
    assert_eq!(language.classify("xyz"), Classification::Category(2));
    assert_eq!(language.classify("x1"), Classification::Category(3));
    assert_eq!(language.classify(""), Classification::Category(6));
    assert_eq!(language.try_lex("x1"), Some(3));
}

#[test]
fn classify_reports_ambiguity() {
    let language = small_grammar();
    assert_eq!(language.classify("abc"), Classification::Ambiguous);
    assert_eq!(language.try_lex("abc"), None);
}

#[test]
fn classify_reports_no_match() {
    let language = small_grammar();
    assert_eq!(language.classify("?!"), Classification::Unmatched);
    assert_eq!(language.try_lex("?!"), None);
}

#[test]
fn accepted_by_marks_each_accepting_token_kind() {
    let language = small_grammar();
    assert_eq!(
        language.accepted_by("abc"),
        vec![false, false, true, true, true, false, false, false, false]
    );
    assert_eq!(
        language.accepted_by("if"),
        vec![true, false, true, true, false, true, false, false, false]
    );
}

#[test]
fn resolve_decides_on_the_marks_alone() {
    let language = small_grammar();
    let none = vec![false; 9];
    assert_eq!(language.resolve(&none), Classification::Unmatched);
    let mut marks = none.clone();
    marks[3] = true;
    assert_eq!(language.resolve(&marks), Classification::Category(3));
    marks[4] = true;
    assert_eq!(language.resolve(&marks), Classification::Category(4));
    marks[1] = true;
    assert_eq!(language.resolve(&marks), Classification::Ambiguous);
    marks[5] = true;
    assert_eq!(language.resolve(&marks), Classification::Category(5));
    marks[0] = true;
    assert_eq!(language.resolve(&marks), Classification::Category(0));
    let mut low = none.clone();
    low[6] = true;
    low[1] = true;
    low[2] = true;
    assert_eq!(language.resolve(&low), Classification::Category(6));
    let mut kinds_only = none.clone();
    kinds_only[7] = true;
    kinds_only[8] = true;
    assert_eq!(language.resolve(&kinds_only), Classification::Unmatched);
    assert_eq!(language.resolve(&vec![]), Classification::Unmatched);
    assert_eq!(language.resolve(&vec![false, true]), Classification::Category(1));
}

#[test]
fn catch_all_grammar_never_leaves_text_unmatched() {
    let language = json::create().unwrap();
    for text in ["", "x", "{", "12", "tru", "a b", "\u{1F600}", "abba"] {
        assert_ne!(language.classify(text), Classification::Unmatched);
    }
}

#[test]
fn role_reads_the_parents_sets() {
    let language = small_grammar();
    assert_eq!(language.role(7, 0), Role::Start);
    assert_eq!(language.role(7, 1), Role::Sep);
    assert_eq!(language.role(7, 5), Role::End);
    assert_eq!(language.role(7, 2), Role::Plain);
    assert_eq!(language.role(8, 0), Role::Plain);
    assert_eq!(language.role(0, 0), Role::Plain);
    assert_eq!(language.role(100, 0), Role::Plain);
    assert_eq!(language.role(ERROR_KIND, 0), Role::Plain);
}

#[test]
fn role_prefers_start_then_end_then_sep() {
    let nodes = vec![
        pattern(".*", 0, RegexTokenSemantics::LexingError),
        NodeSpec::Tree { start: vec![3, 4], sep: vec![3, 4, 5], end: vec![4, 5] },
    ];
    let language = match Language::new(nodes) {
        Ok(language) => language,
        Err(_) => panic!("the table is a grammar"),
    };
    assert_eq!(language.role(1, 3), Role::Start);
    assert_eq!(language.role(1, 4), Role::Start);
    assert_eq!(language.role(1, 5), Role::End);
    assert_eq!(language.role(1, 6), Role::Plain);
}

#[test]
fn json_grammar_table() {
    let language = json::create().unwrap();
    assert_eq!(language.node_count(), 18);
    assert_eq!(language.lex_error(), json::LEX_ERROR);
    assert_eq!(json::LEX_ERROR, 12);
    assert!(language.node(2).as_token().is_separator());
    assert!(language.node(4).as_token().is_separator());
    assert!(!language.node(1).as_token().is_separator());
    assert!(language.node(12).as_token().is_lex_error());
    assert!(language.node(12).as_token().can_empty());
    assert!(language.node(7).as_token().can_empty());
    assert!(!language.node(8).as_token().can_empty());
    assert!(matches!(language.node(13), NodeSpec::Compose));
    assert!(matches!(language.node(16), NodeSpec::Compose));
    assert_eq!(language.role(json::OBJECT, 1), Role::Start);
    assert_eq!(language.role(json::OBJECT, 2), Role::Sep);
    assert_eq!(language.role(json::OBJECT, 3), Role::End);
    assert_eq!(language.role(json::OBJECT, 13), Role::Plain);
    assert_eq!(language.role(json::ARRAY, 5), Role::Start);
    assert_eq!(language.role(json::ARRAY, 2), Role::Sep);
    assert_eq!(language.role(json::ARRAY, 6), Role::End);
    assert_eq!(language.role(json::ARRAY, 7), Role::Plain);
}

#[test]
fn json_grammar_classifies() {
    let language = json::create().unwrap();
    assert_eq!(language.try_lex("{"), Some(1));
    assert_eq!(language.try_lex(","), Some(2));
    assert_eq!(language.try_lex("}"), Some(3));
    assert_eq!(language.try_lex(":"), Some(4));
    assert_eq!(language.try_lex("["), Some(5));
    assert_eq!(language.try_lex("]"), Some(6));
    assert_eq!(language.try_lex("true"), Some(9));
    assert_eq!(language.try_lex("false"), Some(10));
    assert_eq!(language.try_lex("null"), Some(11));
    assert_eq!(language.try_lex("key"), Some(7));
    assert_eq!(language.classify("key"), Classification::Category(7));
    assert_eq!(language.classify("12"), Classification::Category(7));
    assert_eq!(language.classify("tru"), Classification::Category(7));
    assert_eq!(language.classify(""), Classification::Ambiguous);
    assert_eq!(language.try_lex(""), None);
    assert_eq!(language.classify("two\nlines"), Classification::Unmatched);
    assert!(language.node(json::NUMBER).as_token().accept("12"));
    assert!(language.node(json::NUMBER).as_token().accept("-1.5e3"));
    assert!(!language.node(json::NUMBER).as_token().accept("abc"));
    assert!(!language.node(json::NUMBER).as_token().accept("12a"));
    assert!(!language.node(json::NUMBER).as_token().accept("a12"));
    assert!(language.node(json::STRING).as_token().accept("abc"));
}

#[test]
fn semantic_class_of_each_category() {
    assert_eq!(TokenSpec::separator(",").semantic_class(), SemanticClass::Separator);
    assert_eq!(TokenSpec::delimiter("{").semantic_class(), SemanticClass::Delimiter);
    assert_eq!(TokenSpec::keyword("null").semantic_class(), SemanticClass::Keyword);
    let literal = pattern("a", 0, RegexTokenSemantics::Literal);
    assert_eq!(literal.as_token().semantic_class(), SemanticClass::Literal);
    let unspecified = pattern("a", 0, RegexTokenSemantics::Unspecified);
    assert_eq!(unspecified.as_token().semantic_class(), SemanticClass::Unspecified);
    let error = pattern("a", 0, RegexTokenSemantics::LexingError);
    assert_eq!(error.as_token().semantic_class(), SemanticClass::LexError);
}

#[test]
fn syntax_rules_are_plain_data() {
    let rule = Rule {
        name: "object",
        body: Syntax::Tree {
            start: Box::new(Syntax::Token(TokenRef::Constant("{"))),
            child: Box::new(Syntax::Combine(vec![
                Syntax::Token(TokenRef::Regex("string")),
                Syntax::Token(TokenRef::Constant(":")),
                Syntax::Choice(vec![Syntax::Ref("value"), Syntax::Ref("object")]),
            ])),
            sep: Box::new(Syntax::Token(TokenRef::Constant(","))),
            end: Box::new(Syntax::Token(TokenRef::Constant("}"))),
        },
    };
    assert_eq!(rule.name, "object");
    match rule.body {
        Syntax::Tree { child, .. } => match *child {
            Syntax::Combine(parts) => assert_eq!(parts.len(), 3),
            _ => panic!("a combination"),
        },
        _ => panic!("a tree"),
    }
    let repeat = Syntax::Repeat { child: Box::new(Syntax::Ref("x")), min: 0, max: 3 };
    let list = Syntax::Sep { child: Box::new(repeat), sep: Box::new(Syntax::Ref("y")) };
    assert!(matches!(list, Syntax::Sep { .. }));
}

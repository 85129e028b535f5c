//! A grammar for JSON documents.

use crate::language::{lex_error_at, Language};
use crate::spec::{
    regex_compiles, unused_node_spec, whole, ConstantTokenSemantics, NodeSpec, Pattern,
    RegexTokenSemantics, TokenSpec,
};
use vstd::prelude::*;

verus! {

/// The id of the string category.
pub const STRING: u16 = 7;

/// The id of the number category.
pub const NUMBER: u16 = 8;

/// The id of the fallback category.
pub const LEX_ERROR: u16 = 12;

/// The id of the object kind.
pub const OBJECT: u16 = 15;

/// The id of the array kind.
pub const ARRAY: u16 = 17;

/// Whether the kind is the constant category of the literal `text`.
pub open spec fn is_constant(
    kind: NodeSpec,
    text: Seq<char>,
    eager: bool,
    semantics: ConstantTokenSemantics,
) -> bool {
    &&& kind matches NodeSpec::Token(TokenSpec::Constant { str, eager: e, semantics: s })
    &&& str@ == text
    &&& e == eager
    &&& s == semantics
}

/// Whether the kind is a pattern category with the given name, expression,
/// precedence and semantics, that may be empty or not, and that may hold
/// spaces and line breaks and be wrapped or not.
pub open spec fn is_pattern(
    kind: NodeSpec,
    title: Seq<char>,
    source: Seq<char>,
    precedence: i32,
    blank: bool,
    free: bool,
    semantics: RegexTokenSemantics,
) -> bool {
    &&& kind matches NodeSpec::Token(
        TokenSpec::Regex {
            name,
            regex,
            precedence: p,
            can_empty,
            can_space,
            can_newline,
            can_wrap,
            semantics: s,
        },
    )
    &&& name@ == title
    &&& regex@ == whole(source)
    &&& p == precedence
    &&& can_empty == blank
    &&& can_space == free
    &&& can_newline == free
    &&& can_wrap == free
    &&& s == semantics
}

/// Whether the kind is a bracketed tree with one opening bracket, one
/// separator and one closing bracket.
pub open spec fn is_tree(kind: NodeSpec, start: u16, sep: u16, end: u16) -> bool {
    &&& kind matches NodeSpec::Tree { start: a, sep: b, end: c }
    &&& a@ == seq![start]
    &&& b@ == seq![sep]
    &&& c@ == seq![end]
}

/// The expression of the number category.
pub open spec fn number_source() -> Seq<char> {
    "-?(?:0|[1-9]\\d*)(?:\\.\\d+)?(?:[eE][+-]?\\d+)?"@
}

/// The table of the JSON grammar: brackets and separators, strings and
/// numbers, the three keywords, the fallback, and the kinds of objects and
/// arrays with the pairs and values between them.
pub open spec fn json_table(kinds: Seq<NodeSpec>) -> bool {
    &&& kinds.len() == 18
    &&& is_constant(kinds[1], "{"@, true, ConstantTokenSemantics::Delimiter)
    &&& is_constant(kinds[2], ","@, true, ConstantTokenSemantics::Separator)
    &&& is_constant(kinds[3], "}"@, true, ConstantTokenSemantics::Delimiter)
    &&& is_constant(kinds[4], ":"@, true, ConstantTokenSemantics::Separator)
    &&& is_constant(kinds[5], "["@, true, ConstantTokenSemantics::Delimiter)
    &&& is_constant(kinds[6], "]"@, true, ConstantTokenSemantics::Delimiter)
    &&& is_pattern(kinds[0], ""@, ""@, 0, true, false, RegexTokenSemantics::Unspecified)
    &&& is_pattern(kinds[7], "string"@, ".*"@, 0, true, true, RegexTokenSemantics::Literal)
    &&& is_pattern(
        kinds[8],
        "number"@,
        number_source(),
        10,
        false,
        false,
        RegexTokenSemantics::Literal,
    )
    &&& is_constant(kinds[9], "true"@, false, ConstantTokenSemantics::Keyword)
    &&& is_constant(kinds[10], "false"@, false, ConstantTokenSemantics::Keyword)
    &&& is_constant(kinds[11], "null"@, false, ConstantTokenSemantics::Keyword)
    &&& is_pattern(kinds[12], ""@, ".*"@, 1, true, true, RegexTokenSemantics::LexingError)
    &&& kinds[13] is Compose
    &&& is_pattern(kinds[14], ""@, ""@, 0, true, false, RegexTokenSemantics::Unspecified)
    &&& is_tree(kinds[15], 1, 2, 3)
    &&& kinds[16] is Compose
    &&& is_tree(kinds[17], 5, 2, 6)
}

/// A pattern category that may hold text of every kind, or of none but the
/// plain one.
fn pattern(
    name: &'static str,
    source: &str,
    precedence: i32,
    free: bool,
    semantics: RegexTokenSemantics,
) -> (r: Option<NodeSpec>)
    ensures
        r is Some <==> regex_compiles(source@) && regex_compiles(whole(source@)),
        r matches Some(kind) ==> is_pattern(
            kind,
            name@,
            source@,
            precedence,
            free,
            free,
            semantics,
        ),
{
    match Pattern::new(source) {
        Some(regex) => Some(
            NodeSpec::Token(
                TokenSpec::Regex {
                    name,
                    regex,
                    precedence,
                    can_empty: free,
                    can_space: free,
                    can_newline: free,
                    can_wrap: free,
                    semantics,
                },
            ),
        ),
        None => None,
    }
}

/// A bracketed tree with one opening bracket, one separator and one closing
/// bracket.
fn tree(start: u16, sep: u16, end: u16) -> (kind: NodeSpec)
    ensures
        is_tree(kind, start, sep, end),
{
    let mut a: Vec<u16> = Vec::new();
    a.push(start);
    let mut b: Vec<u16> = Vec::new();
    b.push(sep);
    let mut c: Vec<u16> = Vec::new();
    c.push(end);
    assert(a@ =~= seq![start] && b@ =~= seq![sep] && c@ =~= seq![end]);
    NodeSpec::Tree { start: a, sep: b, end: c }
}

/// The JSON grammar. `None` where the regex engine does not accept one of
/// the expressions of the grammar.
pub fn create() -> (r: Option<Language>)
    ensures
        r is Some <==> {
            &&& regex_compiles(""@)
            &&& regex_compiles(whole(""@))
            &&& regex_compiles(".*"@)
            &&& regex_compiles(whole(".*"@))
            &&& regex_compiles(number_source())
            &&& regex_compiles(whole(number_source()))
        },
        r matches Some(language) ==> {
            &&& language.wf()
            &&& json_table(language.kinds())
            &&& language.fallback() == LEX_ERROR
        },
{
    let unused = unused_node_spec();
    let unused_too = unused_node_spec();
    let string = pattern("string", ".*", 0, true, RegexTokenSemantics::Literal);
    let number = pattern(
        "number",
        "-?(?:0|[1-9]\\d*)(?:\\.\\d+)?(?:[eE][+-]?\\d+)?",
        10,
        false,
        RegexTokenSemantics::Literal,
    );
    let error = pattern("", ".*", 1, true, RegexTokenSemantics::LexingError);
    match (unused, unused_too, string, number, error) {
        (Some(unused), Some(unused_too), Some(string), Some(number), Some(error)) => {
            let mut nodes: Vec<NodeSpec> = Vec::new();
            nodes.push(unused);
            nodes.push(NodeSpec::Token(TokenSpec::delimiter("{")));
            nodes.push(NodeSpec::Token(TokenSpec::separator(",")));
            nodes.push(NodeSpec::Token(TokenSpec::delimiter("}")));
            nodes.push(NodeSpec::Token(TokenSpec::separator(":")));
            nodes.push(NodeSpec::Token(TokenSpec::delimiter("[")));
            nodes.push(NodeSpec::Token(TokenSpec::delimiter("]")));
            nodes.push(string);
            nodes.push(number);
            nodes.push(NodeSpec::Token(TokenSpec::keyword("true")));
            nodes.push(NodeSpec::Token(TokenSpec::keyword("false")));
            nodes.push(NodeSpec::Token(TokenSpec::keyword("null")));
            nodes.push(error);
            nodes.push(NodeSpec::Compose);
            nodes.push(unused_too);
            nodes.push(tree(1, 2, 3));
            nodes.push(NodeSpec::Compose);
            nodes.push(tree(5, 2, 6));
            assert(json_table(nodes@));
            assert(lex_error_at(nodes@, 12));
            assert forall|k: int| 0 <= k < 12 implies !lex_error_at(nodes@, k) by {}
            match Language::new(nodes) {
                Ok(language) => {
                    assert(language.fallback() == 12) by {
                        if language.fallback() < 12 {
                            assert(!lex_error_at(nodes@, language.fallback() as int));
                        }
                    }
                    Some(language)
                },
                Err(_) => None,
            }
        },
        _ => None,
    }
}

} // verus!

//! The grammar model: token categories and node kinds.
//!
//! A grammar is a table of node kinds indexed by a 16-bit id. A kind is a
//! token category, a bracketed tree, a plain composition of siblings, or the
//! error fallback. Token categories say which text they accept.

use vstd::prelude::*;
use vstd::string::*;
use vstd::utf8::*;

verus! {

/// `regex::Regex`, a compiled regular expression. Nothing is known of a value
/// of it except through [`Pattern`].
#[verifier::external_type_specification]
#[verifier::external_body]
pub struct ExRegex(regex::Regex);

/// `regex::Regex::clone`. Nothing is claimed of the copy.
pub assume_specification[ <regex::Regex as Clone>::clone ](re: &regex::Regex) -> regex::Regex;

/// Whether `regex::Regex::new` accepts `source` as a regular expression.
pub uninterp spec fn regex_compiles(source: Seq<char>) -> bool;

/// Whether the regular expression compiled from `source` by `regex::Regex::new`
/// has a match anywhere in `text`, as `regex::Regex::is_match` reports it.
pub uninterp spec fn regex_matches(source: Seq<char>, text: Seq<char>) -> bool;

/// A regular expression together with the text it was compiled from.
///
/// The view of a pattern is the text that it was compiled from. The two fields are only ever
/// filled together, by compiling `source`.
#[derive(Clone, Debug)]
pub struct Pattern {
    source: String,
    compiled: regex::Regex,
}

impl View for Pattern {
    type V = Seq<char>;

    closed spec fn view(&self) -> Seq<char> {
        self.source@
    }
}

/// Calls `regex::Regex::new` on `source` and keeps the source beside the
/// compiled expression. Trusted: the call succeeds exactly on the sources that
/// `regex_compiles` names, and the pattern handed back views as `source`.
#[verifier::external_body]
fn compile_pattern(source: &str) -> (r: Option<Pattern>)
    ensures
        r is Some <==> regex_compiles(source@),
        r matches Some(p) ==> p@ == source@,
{
    match regex::Regex::new(source) {
        Ok(compiled) => Some(Pattern { source: String::from(source), compiled }),
        Err(_) => None,
    }
}

/// Calls `regex::Regex::is_match` on the compiled expression of `pattern`.
/// Trusted: the answer is the one `regex_matches` names for the pattern's
/// source and `text`.
#[verifier::external_body]
fn pattern_is_match(pattern: &Pattern, text: &str) -> (b: bool)
    ensures
        b == regex_matches(pattern@, text@),
{
    pattern.compiled.is_match(text)
}

/// The expression that matches what `source` matches, and only as the whole
/// of a text: `source` as a group between the start and the end of the text.
pub open spec fn whole(source: Seq<char>) -> Seq<char> {
    "^(?:"@ + source + ")$"@
}

impl Pattern {
    /// The pattern that matches a text where `source` matches the whole of
    /// it; `None` when `source`, alone or as a group between the start and
    /// the end of the text, is not a regular expression that the regex engine
    /// accepts.
    pub fn new(source: &str) -> (r: Option<Pattern>)
        ensures
            r is Some <==> regex_compiles(source@) && regex_compiles(whole(source@)),
            r matches Some(p) ==> p@ == whole(source@),
    {
        if compile_pattern(source).is_none() {
            return None;
        }
        let mut anchored = String::from_str("^(?:");
        anchored.append(source);
        anchored.append(")$");
        compile_pattern(anchored.as_str())
    }

    /// Whether the expression of the pattern has a match in `text`. A
    /// pattern made by [`Pattern::new`] has one where its source matches the
    /// whole of `text`.
    pub fn is_match(&self, text: &str) -> (b: bool)
        ensures
            b == regex_matches(self@, text@),
    {
        pattern_is_match(self, text)
    }
}

/// Whether two strings hold the same text.
pub fn same_text(a: &str, b: &str) -> (r: bool)
    ensures
        r == (a@ == b@),
{
    broadcast use {encode_utf8_decode_utf8, encode_utf8_valid_utf8};

    let x = a.as_bytes();
    let y = b.as_bytes();
    if x.len() != y.len() {
        return false;
    }
    let mut i: usize = 0;
    while i < x.len()
        invariant
            i <= x.len(),
            x.len() == y.len(),
            x@ == encode_utf8(a@),
            y@ == encode_utf8(b@),
            forall|j: int| 0 <= j < i ==> x@[j] == y@[j],
        decreases x.len() - i,
    {
        if x[i] != y[i] {
            return false;
        }
        i += 1;
    }
    assert(x@ =~= y@);
    assert(decode_utf8(encode_utf8(a@)) == a@);
    assert(decode_utf8(encode_utf8(b@)) == b@);
    true
}

/// What a constant token means to a reader. A separator acts as a space
/// itself, so it cancels the margins of its neighbours in a line.
#[derive(Clone, Copy, Debug, PartialEq, Eq, Structural)]
pub enum ConstantTokenSemantics {
    Separator,
    Delimiter,
    Keyword,
}

/// What a pattern token means to a reader.
#[derive(Clone, Copy, Debug, PartialEq, Eq, Structural)]
pub enum RegexTokenSemantics {
    Literal,
    Unspecified,
    LexingError,
}

/// What a token means to a reader, whatever the form of its category.
#[derive(Clone, Copy, Debug, PartialEq, Eq, Structural)]
pub enum SemanticClass {
    Separator,
    Delimiter,
    Keyword,
    Literal,
    Unspecified,
    LexError,
}

/// A token category: the rule that says which text a token of it may hold.
#[derive(Clone, Debug)]
#[allow(inconsistent_fields)]
pub enum TokenSpec {
    /// Accepts exactly the text `str`.
    Constant {
        /// The literal. It should hold no space and not be empty.
        str: &'static str,
        /// Whether the token ends as soon as it is typed.
        eager: bool,
        semantics: ConstantTokenSemantics,
    },
    /// Accepts the text that `regex` matches as a whole.
    Regex {
        name: &'static str,
        regex: Pattern,
        /// Orders the pattern categories that accept the same text: the lowest
        /// wins.
        precedence: i32,
        can_empty: bool,
        can_space: bool,
        can_newline: bool,
        can_wrap: bool,
        semantics: RegexTokenSemantics,
    },
}

impl TokenSpec {
    /// Whether this is the fallback category for text that nothing accepts.
    pub open spec fn lex_error(&self) -> bool {
        self matches TokenSpec::Regex { semantics, .. } && *semantics
            == RegexTokenSemantics::LexingError
    }

    /// Whether a token of this category may hold no text.
    pub open spec fn may_be_empty(&self) -> bool {
        self matches TokenSpec::Regex { can_empty, .. } && *can_empty
    }

    /// Whether this is a constant category of the separator class.
    pub open spec fn separator_class(&self) -> bool {
        self matches TokenSpec::Constant { semantics, .. } && *semantics
            == ConstantTokenSemantics::Separator
    }

    /// Whether the category accepts `text`: a constant accepts its literal, a
    /// pattern the text that its expression matches.
    pub open spec fn accepts(&self, text: Seq<char>) -> bool {
        match self {
            TokenSpec::Constant { str, .. } => str@ == text,
            TokenSpec::Regex { regex, .. } => regex_matches(regex@, text),
        }
    }

    /// What a token of this category means to a reader.
    pub open spec fn class(&self) -> SemanticClass {
        match self {
            TokenSpec::Constant { semantics, .. } => match semantics {
                ConstantTokenSemantics::Separator => SemanticClass::Separator,
                ConstantTokenSemantics::Delimiter => SemanticClass::Delimiter,
                ConstantTokenSemantics::Keyword => SemanticClass::Keyword,
            },
            TokenSpec::Regex { semantics, .. } => match semantics {
                RegexTokenSemantics::Literal => SemanticClass::Literal,
                RegexTokenSemantics::Unspecified => SemanticClass::Unspecified,
                RegexTokenSemantics::LexingError => SemanticClass::LexError,
            },
        }
    }

    /// What a token of this category means to a reader.
    pub fn semantic_class(&self) -> (c: SemanticClass)
        ensures
            c == self.class(),
            (c == SemanticClass::Separator) == self.separator_class(),
            (c == SemanticClass::LexError) == self.lex_error(),
    {
        match self {
            TokenSpec::Constant { semantics, .. } => match semantics {
                ConstantTokenSemantics::Separator => SemanticClass::Separator,
                ConstantTokenSemantics::Delimiter => SemanticClass::Delimiter,
                ConstantTokenSemantics::Keyword => SemanticClass::Keyword,
            },
            TokenSpec::Regex { semantics, .. } => match semantics {
                RegexTokenSemantics::Literal => SemanticClass::Literal,
                RegexTokenSemantics::Unspecified => SemanticClass::Unspecified,
                RegexTokenSemantics::LexingError => SemanticClass::LexError,
            },
        }
    }

    /// Whether this is the fallback category for text that nothing accepts.
    pub fn is_lex_error(&self) -> (b: bool)
        ensures
            b == self.lex_error(),
    {
        match self {
            TokenSpec::Regex { semantics, .. } => match semantics {
                RegexTokenSemantics::LexingError => true,
                _ => false,
            },
            _ => false,
        }
    }

    /// Whether a token of this category may hold no text.
    pub fn can_empty(&self) -> (b: bool)
        ensures
            b == self.may_be_empty(),
    {
        match self {
            TokenSpec::Constant { .. } => false,
            TokenSpec::Regex { can_empty, .. } => *can_empty,
        }
    }

    /// Whether this is a constant category of the separator class.
    pub fn is_separator(&self) -> (b: bool)
        ensures
            b == self.separator_class(),
    {
        match self {
            TokenSpec::Constant { semantics, .. } => match semantics {
                ConstantTokenSemantics::Separator => true,
                _ => false,
            },
            _ => false,
        }
    }

    /// Whether the category accepts `string`.
    pub fn accept(&self, string: &str) -> (b: bool)
        ensures
            b == self.accepts(string@),
    {
        match self {
            TokenSpec::Constant { str, .. } => same_text(str, string),
            TokenSpec::Regex { regex, .. } => regex.is_match(string),
        }
    }

    /// The category of a bracket: a constant that ends as soon as it is typed.
    pub fn delimiter(str: &'static str) -> (t: TokenSpec)
        ensures
            t == (TokenSpec::Constant {
                str,
                eager: true,
                semantics: ConstantTokenSemantics::Delimiter,
            }),
    {
        TokenSpec::Constant { str, eager: true, semantics: ConstantTokenSemantics::Delimiter }
    }

    /// The category of a separator: a constant that ends as soon as it is
    /// typed.
    pub fn separator(str: &'static str) -> (t: TokenSpec)
        ensures
            t == (TokenSpec::Constant {
                str,
                eager: true,
                semantics: ConstantTokenSemantics::Separator,
            }),
    {
        TokenSpec::Constant { str, eager: true, semantics: ConstantTokenSemantics::Separator }
    }

    /// The category of a keyword: a constant that may go on as another word.
    pub fn keyword(str: &'static str) -> (t: TokenSpec)
        ensures
            t == (TokenSpec::Constant {
                str,
                eager: false,
                semantics: ConstantTokenSemantics::Keyword,
            }),
    {
        TokenSpec::Constant { str, eager: false, semantics: ConstantTokenSemantics::Keyword }
    }
}

/// A node kind: how a node of the parse tree is made up.
#[derive(Clone, Debug)]
pub enum NodeSpec {
    /// A leaf that holds one token of the given category.
    Token(TokenSpec),
    /// A bracketed list. The three sets name the child kinds that open it,
    /// separate its items and close it.
    Tree { start: Vec<u16>, sep: Vec<u16>, end: Vec<u16> },
    /// Siblings in order, with no markers.
    Compose,
    /// What could not be classified.
    Error,
}

impl NodeSpec {
    /// The token category of a leaf kind.
    pub fn as_token(&self) -> (t: &TokenSpec)
        requires
            self is Token,
        ensures
            *self == NodeSpec::Token(*t),
    {
        match self {
            NodeSpec::Token(t) => t,
            _ => vstd::pervasive::unreached(),
        }
    }
}

/// A pattern category that stands in an unused slot of a grammar table:
/// unspecified semantics, precedence 0, and the empty expression, which
/// matches the empty text alone. `None` when the regex engine does not accept
/// the empty expression.
pub fn unused_node_spec() -> (r: Option<NodeSpec>)
    ensures
        r is Some <==> regex_compiles(""@) && regex_compiles(whole(""@)),
        r matches Some(n) ==> {
            &&& n matches NodeSpec::Token(
                TokenSpec::Regex {
                    name,
                    regex,
                    precedence,
                    can_empty,
                    can_space,
                    can_newline,
                    can_wrap,
                    semantics,
                },
            )
            &&& name@ == ""@
            &&& regex@ == whole(""@)
            &&& precedence == 0
            &&& can_empty
            &&& !can_space
            &&& !can_newline
            &&& !can_wrap
            &&& semantics == RegexTokenSemantics::Unspecified
        },
{
    match Pattern::new("") {
        Some(regex) => Some(
            NodeSpec::Token(
                TokenSpec::Regex {
                    name: "",
                    regex,
                    can_empty: true,
                    precedence: 0,
                    can_space: false,
                    can_newline: false,
                    can_wrap: false,
                    semantics: RegexTokenSemantics::Unspecified,
                },
            ),
        ),
        None => None,
    }
}

/// A reference to a token category by its text or by its name.
#[derive(Clone, Debug)]
pub enum TokenRef {
    Constant(&'static str),
    Regex(&'static str),
}

/// A syntax rule body.
#[derive(Debug)]
pub enum Syntax {
    Token(TokenRef),
    Ref(&'static str),
    Choice(Vec<Syntax>),
    Combine(Vec<Syntax>),
    Sep { child: Box<Syntax>, sep: Box<Syntax> },
    Repeat { child: Box<Syntax>, min: u32, max: u32 },
    Tree { start: Box<Syntax>, child: Box<Syntax>, sep: Box<Syntax>, end: Box<Syntax> },
}

/// A named syntax rule.
#[derive(Debug)]
pub struct Rule {
    pub name: &'static str,
    pub body: Syntax,
}

} // verus!

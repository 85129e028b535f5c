//! The edit engine: the token buffer with its cursor, kept in line with the
//! grammar and the parser across every edit.

use crate::data::Token;
use crate::editor::buffer::{
    acted, bounded, caret_at, classification, cut_back, deleted_backward, deleted_forward, fit,
    fit_but, fitting, hanging, inserted, known, lemma_mended_once, lemma_mended_twice, lifted,
    loose, mended, moved, parsed, placeholder, reparsed, retagged, rewritten, sep, settled,
    stepped_out_left, stepped_out_right, stream_of, synced, token_views, typed, Buffer, EditAction,
    Movement, Reparse, Selection,
};
use crate::language::{acceptance, outcome_is_unique, Classification, Language};
use crate::text::{
    lemma_ends_are_boundaries, lemma_spliced, length, next_grapheme_offset, prev_grapheme_offset,
    splice, spliced,
};
use vstd::prelude::*;
use vstd::string::*;

verus! {

/// `tree_sitter::Parser`, an incremental parser.
#[verifier::external_type_specification]
#[verifier::external_body]
pub struct ExParser(tree_sitter::Parser);

/// `tree_sitter::Tree`, a parse tree.
#[verifier::external_type_specification]
#[verifier::external_body]
pub struct ExTree(tree_sitter::Tree);

/// Calls `tree_sitter::Parser::parse` on the bytes of `stream`, with `old` as
/// the tree to start from. Nothing is claimed of what comes back: the parser
/// gives no tree where it has no language or was stopped.
#[verifier::external_body]
fn parse_stream(
    parser: &mut tree_sitter::Parser,
    stream: &Vec<u8>,
    old: Option<&tree_sitter::Tree>,
) -> Option<tree_sitter::Tree> {
    parser.parse(stream, old)
}

/// Calls `tree_sitter::Tree::edit` to mark the bytes from `start` to `old_end`
/// as replaced by those from `start` to `new_end`. The tree knows no rows:
/// the positions handed over are the start of the one row and the column
/// behind it. Nothing is claimed of the tree.
#[verifier::external_body]
fn mark_edit(tree: &mut tree_sitter::Tree, start: usize, old_end: usize, new_end: usize) {
    tree.edit(
        &tree_sitter::InputEdit {
            start_byte: start,
            old_end_byte: old_end,
            new_end_byte: new_end,
            start_position: tree_sitter::Point { row: 0, column: 0 },
            old_end_position: tree_sitter::Point { row: 0, column: 1 },
            new_end_position: tree_sitter::Point { row: 0, column: 1 },
        },
    )
}

/// What the parser reads of the tokens: of each its category, cut to one
/// byte.
fn read_stream(tokens: &Vec<Token>) -> (stream: Vec<u8>)
    ensures
        stream@ == stream_of(token_views(tokens@)),
{
    let mut stream: Vec<u8> = Vec::new();
    let mut i: usize = 0;
    while i < tokens.len()
        invariant
            i <= tokens@.len(),
            stream@.len() == i,
            forall|k: int| 0 <= k < i ==> stream@[k] == stream_of(token_views(tokens@))[k],
        decreases tokens@.len() - i,
    {
        stream.push((tokens[i].tp % 256) as u8);
        i += 1;
    }
    assert(stream@ =~= stream_of(token_views(tokens@)));
    stream
}

/// Where the cursor stands: in a token, at a place of its text.
#[derive(Clone, Copy, Debug, PartialEq, Eq, Structural)]
pub enum Cursor {
    Point { token: usize, selection: Selection },
}

/// The editor's state: the tokens, the cursor, the grammar, and the parser
/// with the tree of its last parse.
pub struct EditorState<'a> {
    version: u64,
    language: &'a Language,
    tokens: Vec<Token>,
    cursor: Cursor,
    parser: tree_sitter::Parser,
    tree: Option<tree_sitter::Tree>,
}

impl<'a> View for EditorState<'a> {
    type V = Buffer;

    closed spec fn view(&self) -> Buffer {
        Buffer {
            tokens: token_views(self.tokens@),
            token: self.cursor->token as int,
            selection: self.cursor->selection,
            version: self.version,
            log: Seq::empty(),
        }
    }
}

impl<'a> EditorState<'a> {
    /// The grammar of the buffer.
    pub closed spec fn grammar(&self) -> Language {
        *self.language
    }

    /// The node kinds of the grammar.
    pub open spec fn kinds(&self) -> Seq<crate::spec::NodeSpec> {
        self.grammar().kinds()
    }

    /// The state's invariant: the grammar has its own, every token is of one
    /// of its categories, which accepts its text or is a lexing-error
    /// category, the cursor stands in a token at a place of its text, and
    /// neither the first nor the last token is a separator. The state as a
    /// value holds no parse asked for.
    pub open spec fn wf(&self) -> bool {
        &&& self.grammar().wf()
        &&& settled(self.kinds(), self@)
        &&& self@.log == Seq::<Reparse>::empty()
    }

    /// The state as a value, with the parses asked for so far.
    closed spec fn model(&self, log: Seq<Reparse>) -> Buffer {
        Buffer { log, ..self@ }
    }

    /// The state between the steps of an edit.
    closed spec fn steady(&self, log: Seq<Reparse>) -> bool {
        self.language.wf() && hanging(self.language.kinds(), self.model(log))
    }

    /// The cursor stands in a token, or there is no token.
    closed spec fn docked(&self) -> bool {
        loose(self.language.kinds(), self@)
    }

    /// Every token fits its category.
    closed spec fn fits(&self) -> bool {
        fit(self.language.kinds(), self@)
    }

    /// The tokens of the buffer.
    pub fn tokens(&self) -> (tokens: &Vec<Token>)
        ensures
            token_views(tokens@) == self@.tokens,
    {
        &self.tokens
    }

    /// Where the cursor stands.
    pub fn cursor(&self) -> (cursor: Cursor)
        ensures
            cursor->token == self@.token,
            cursor->selection == self@.selection,
    {
        self.cursor
    }

    /// The number of parses made.
    pub fn version(&self) -> (version: u64)
        ensures
            version == self@.version,
    {
        self.version
    }

    /// The grammar of the buffer.
    pub fn language(&self) -> (language: &'a Language)
        ensures
            *language == self.grammar(),
    {
        self.language
    }

    /// The tree of the last parse, if the parser gave one.
    pub fn tree(&self) -> (tree: Option<&tree_sitter::Tree>)
        ensures
            match tree {
                Some(t) => self.parse_tree() == Some(*t),
                None => self.parse_tree() is None,
            },
    {
        self.tree.as_ref()
    }

    /// The tree that the parser gave at the last parse, if it gave one. An
    /// edit that asks for no parse leaves it as it is.
    pub closed spec fn parse_tree(&self) -> Option<tree_sitter::Tree> {
        self.tree
    }

    /// What the parser reads of the buffer: of each token its category, cut
    /// to one byte.
    pub fn stream(&self) -> (stream: Vec<u8>)
        ensures
            stream@ == stream_of(self@.tokens),
    {
        read_stream(&self.tokens)
    }

    /// Whether token `i` is a separator.
    fn separator_at(&self, i: usize) -> (b: bool)
        requires
            self.language.wf(),
            i < self.tokens@.len(),
            known(self.language.kinds(), self@.tokens[i as int]),
        ensures
            b == sep(self.language.kinds(), self@.tokens[i as int]),
    {
        self.language.node(self.tokens[i].tp).as_token().is_separator()
    }

    /// Asks the parser for the parse `w`.
    fn parse(&mut self, w: Reparse, log: &mut Vec<Reparse>)
        ensures
            final(self).language == old(self).language,
            final(self).model(final(log)@) == parsed(old(self).model(old(log)@), w),
            final(log)@.len() == old(log)@.len() + 1,
            final(self).tokens == old(self).tokens,
            final(self).cursor == old(self).cursor,
    {
        self.version = if self.version == u64::MAX {
            0
        } else {
            self.version + 1
        };
        match &mut self.tree {
            Some(tree) => mark_edit(tree, w.start, w.old_end, w.new_end),
            None => {},
        }
        let stream = self.stream();
        let tree = parse_stream(&mut self.parser, &stream, self.tree.as_ref());
        self.tree = tree;
        log.push(w);
    }

    /// One round of mending the ends of the buffer.
    fn mend(&mut self, log: &mut Vec<Reparse>)
        requires
            old(self).steady(old(log)@),
        ensures
            final(self).language == old(self).language,
            final(self).steady(final(log)@),
            final(self).model(final(log)@) == mended(
                old(self).language.kinds(),
                old(self).language.fallback(),
                old(self).model(old(log)@),
            ),
            final(log)@.len() >= old(log)@.len(),
            final(log)@.len() == old(log)@.len() ==> final(self).tree == old(self).tree,
            old(self).docked() ==> final(self).docked(),
            old(self).fits() ==> final(self).fits(),
    {
        let ghost kinds = self.language.kinds();
        let ghost before = self.model(log@);
        let lex_error = self.language.lex_error();
        proof {
            self.language.lemma_fallback();
            lemma_mended_once(kinds, self.language.fallback(), before);
            lemma_mended_once(kinds, self.language.fallback(), self@);
        }
        let len = self.tokens.len();
        proof {
            reveal_strlit("");
            assert(""@ =~= Seq::<char>::empty());
            lemma_ends_are_boundaries(Seq::<char>::empty());
            self.language.lemma_fallback();
        }
        if len == 0 {
            self.tokens.push(Token::new(lex_error, ""));
            self.cursor = Cursor::Point { token: 0, selection: Selection::caret(0) };
            assert(token_views(self.tokens@) =~= seq![placeholder(lex_error)]);
            self.parse(Reparse { start: 0, old_end: 0, new_end: 1 }, log);
        } else if self.separator_at(0) {
            self.tokens.insert(0, Token::new(lex_error, ""));
            let Cursor::Point { token, selection: _ } = self.cursor;
            self.cursor = Cursor::Point { token, selection: Selection::caret(0) };
            assert(token_views(self.tokens@) =~= seq![placeholder(lex_error)] + before.tokens);
            proof {
                lemma_ends_are_boundaries(self@.tokens[token as int].text);
            }
            self.parse(Reparse { start: 0, old_end: 0, new_end: 1 }, log);
        } else if self.separator_at(len - 1) {
            self.tokens.push(Token::new(lex_error, ""));
            let now = self.tokens.len();
            assert(token_views(self.tokens@) =~= before.tokens.push(placeholder(lex_error)));
            self.parse(Reparse { start: len, old_end: len, new_end: now }, log);
        }
    }

    /// Asks for the parse `w` and mends the ends of the buffer.
    fn reparse(&mut self, w: Reparse, log: &mut Vec<Reparse>)
        requires
            old(self).steady(old(log)@),
        ensures
            final(self).language == old(self).language,
            final(self).steady(final(log)@),
            bounded(final(self).language.kinds(), final(self).model(final(log)@)),
            final(self).model(final(log)@) == reparsed(
                old(self).language.kinds(),
                old(self).language.fallback(),
                old(self).model(old(log)@),
                w,
            ),
            final(log)@.len() > old(log)@.len(),
            old(self).docked() ==> final(self).docked(),
            old(self).fits() ==> final(self).fits(),
    {
        self.parse(w, log);
        proof {
            self.language.lemma_fallback();
            lemma_mended_twice(
                self.language.kinds(),
                self.language.fallback(),
                self.model(log@),
            );
        }
        self.mend(log);
        self.mend(log);
    }

    /// Brings the token under the cursor in line with its text.
    fn lex_sync_then_sit(&mut self, log: &mut Vec<Reparse>)
        requires
            old(self).steady(old(log)@),
            old(self).docked(),
            old(self).tokens@.len() > 0,
            bounded(old(self).language.kinds(), old(self).model(old(log)@)),
            fit_but(old(self).language.kinds(), old(self)@, old(self)@.token),
        ensures
            final(self).language == old(self).language,
            final(self).steady(final(log)@),
            final(self).docked(),
            final(self).fits(),
            bounded(final(self).language.kinds(), final(self).model(final(log)@)),
            final(self).model(final(log)@) == synced(
                old(self).language.kinds(),
                old(self).language.fallback(),
                old(self).model(old(log)@),
            ),
            final(log)@.len() >= old(log)@.len(),
            final(log)@.len() == old(log)@.len() ==> final(self).tree == old(self).tree,
    {
        let ghost kinds = self.language.kinds();
        let ghost before = self.model(log@);
        let Cursor::Point { token: t, selection: _ } = self.cursor;
        let count = self.tokens.len();
        assert(t < count);
        let spec = self.language.node(self.tokens[t].tp).as_token();
        if self.tokens[t].is_empty() && !spec.can_empty() {
            let next = t + 1;
            self.step_out_left();
            self.tokens.remove(t);
            assert(token_views(self.tokens@) =~= before.tokens.remove(t as int));
            proof {
                if self.tokens@.len() > 0 {
                    lemma_ends_are_boundaries(self@.tokens[self@.token].text);
                }
                assert forall|i: int| 0 <= i < self@.tokens.len() implies fitting(
                    kinds,
                    #[trigger] self@.tokens[i],
                ) by {
                    if i < t {
                        assert(self@.tokens[i] == before.tokens[i]);
                    } else {
                        assert(self@.tokens[i] == before.tokens[i + 1]);
                    }
                }
            }
            self.reparse(Reparse { start: t, old_end: next, new_end: t }, log);
        } else if spec.is_lex_error() {
            let found = self.language.classify(self.tokens[t].str.as_str());
            proof {
                let accepted = acceptance(kinds, before.tokens[t as int].text);
                outcome_is_unique(
                    kinds,
                    accepted,
                    found,
                    classification(kinds, before.tokens[t as int].text),
                );
            }
            match found {
                Classification::Category(tp) => {
                    self.tokens[t].tp = tp;
                    assert(token_views(self.tokens@) =~= retagged(before, t as int, tp).tokens);
                    proof {
                        assert(crate::language::marked(
                            acceptance(kinds, before.tokens[t as int].text),
                            tp as int,
                        ));
                        assert(fitting(kinds, self@.tokens[t as int]));
                        assert forall|i: int| 0 <= i < self@.tokens.len() implies fitting(
                            kinds,
                            #[trigger] self@.tokens[i],
                        ) by {
                            if i != t {
                                assert(self@.tokens[i] == before.tokens[i]);
                            }
                        }
                    }
                    self.reparse(Reparse { start: t, old_end: t + 1, new_end: t + 1 }, log);
                },
                _ => {
                    assert(fitting(kinds, self@.tokens[t as int]));
                },
            }
        } else if !spec.accept(self.tokens[t].str.as_str()) {
            let lex_error = self.language.lex_error();
            self.tokens[t].tp = lex_error;
            assert(token_views(self.tokens@) =~= retagged(before, t as int, lex_error).tokens);
            proof {
                self.language.lemma_fallback();
                assert forall|i: int| 0 <= i < self@.tokens.len() implies fitting(
                    kinds,
                    #[trigger] self@.tokens[i],
                ) by {
                    if i != t {
                        assert(self@.tokens[i] == before.tokens[i]);
                    }
                }
            }
            self.reparse(Reparse { start: t, old_end: t + 1, new_end: t + 1 }, log);
        } else {
            assert(fitting(kinds, self@.tokens[t as int]));
        }
    }

    /// Moves the cursor out of its token to the left.
    fn step_out_left(&mut self)
        requires
            old(self).language.wf(),
            loose(old(self).language.kinds(), old(self)@),
            old(self).tokens@.len() > 0,
        ensures
            final(self).language == old(self).language,
            final(self).tokens == old(self).tokens,
            final(self).version == old(self).version,
            final(self).tree == old(self).tree,
            final(self)@ == stepped_out_left(old(self).language.kinds(), old(self)@),
            loose(final(self).language.kinds(), final(self)@),
            old(self)@.token > 0 ==> final(self)@.token < old(self)@.token,
    {
        let Cursor::Point { token, selection: _ } = self.cursor;
        if token > 0 {
            let mut index = token - 1;
            if self.separator_at(index) && index > 0 {
                index = index - 1;
            }
            let end = length(self.tokens[index].str.as_str());
            proof {
                lemma_ends_are_boundaries(self@.tokens[index as int].text);
            }
            self.cursor = Cursor::Point { token: index, selection: Selection::caret(end) };
        }
    }

    /// Moves the cursor out of its token to the right.
    fn step_out_right(&mut self)
        requires
            old(self).language.wf(),
            loose(old(self).language.kinds(), old(self)@),
            old(self).tokens@.len() > 0,
        ensures
            final(self).language == old(self).language,
            final(self).tokens == old(self).tokens,
            final(self).version == old(self).version,
            final(self).tree == old(self).tree,
            final(self)@ == stepped_out_right(old(self).language.kinds(), old(self)@),
            loose(final(self).language.kinds(), final(self)@),
    {
        let Cursor::Point { token, selection: _ } = self.cursor;
        if token < self.tokens.len() - 1 {
            let mut index = token + 1;
            if self.separator_at(index) && index < self.tokens.len() - 1 {
                index = index + 1;
            }
            proof {
                lemma_ends_are_boundaries(self@.tokens[index as int].text);
            }
            self.cursor = Cursor::Point { token: index, selection: Selection::caret(0) };
        }
    }

    /// Moves the cursor. At the edge of its token it leaves the token, and
    /// passes a separator that is not the outermost token on that side;
    /// elsewhere it moves inside the text. With `modify` the selection is
    /// extended.
    pub fn move_selection(&mut self, mvmnt: Movement, modify: bool)
        requires
            old(self).wf(),
        ensures
            final(self).wf(),
            final(self).grammar() == old(self).grammar(),
            final(self)@ == moved(old(self).kinds(), old(self)@, mvmnt, modify),
            final(self).parse_tree() == old(self).parse_tree(),
    {
        let Cursor::Point { token, selection } = self.cursor;
        let ghost text = self@.tokens[token as int].text;
        let len = length(self.tokens[token].str.as_str());
        match mvmnt {
            Movement::Left => {
                if selection.end == 0 {
                    self.step_out_left();
                } else {
                    let offset = if selection.is_caret() || modify {
                        match prev_grapheme_offset(self.tokens[token].str.as_str(), selection.end) {
                            Some(n) => n,
                            None => 0,
                        }
                    } else {
                        selection.min()
                    };
                    proof {
                        lemma_ends_are_boundaries(text);
                    }
                    self.cursor = Cursor::Point {
                        token,
                        selection: Selection::new(
                            if modify {
                                selection.start
                            } else {
                                offset
                            },
                            offset,
                        ),
                    };
                }
            },
            Movement::Right => {
                if selection.end == len {
                    self.step_out_right();
                } else {
                    let offset = if selection.is_caret() || modify {
                        match next_grapheme_offset(self.tokens[token].str.as_str(), selection.end) {
                            Some(n) => n,
                            None => selection.end,
                        }
                    } else {
                        selection.max()
                    };
                    self.cursor = Cursor::Point {
                        token,
                        selection: Selection::new(
                            if modify {
                                selection.start
                            } else {
                                offset
                            },
                            offset,
                        ),
                    };
                }
            },
            Movement::LeftOfLine => {
                proof {
                    lemma_ends_are_boundaries(text);
                }
                self.cursor = Cursor::Point {
                    token,
                    selection: Selection::new(
                        if modify {
                            selection.start
                        } else {
                            0
                        },
                        0,
                    ),
                };
            },
            Movement::RightOfLine => {
                proof {
                    lemma_ends_are_boundaries(text);
                }
                self.cursor = Cursor::Point {
                    token,
                    selection: Selection::new(
                        if modify {
                            selection.start
                        } else {
                            len
                        },
                        len,
                    ),
                };
            },
        }
    }

    /// Deletes to the left and adds the parses asked for to `log`.
    fn delete_backward_into(&mut self, log: &mut Vec<Reparse>)
        requires
            old(self).steady(old(log)@),
            old(self).docked(),
            old(self).fits(),
            bounded(old(self).language.kinds(), old(self).model(old(log)@)),
        ensures
            final(self).language == old(self).language,
            final(self).steady(final(log)@),
            final(self).docked(),
            final(self).fits(),
            bounded(final(self).language.kinds(), final(self).model(final(log)@)),
            final(self).model(final(log)@) == deleted_backward(
                old(self).language.kinds(),
                old(self).language.fallback(),
                old(self).model(old(log)@),
            ),
            final(log)@.len() >= old(log)@.len(),
            final(log)@.len() == old(log)@.len() ==> final(self).tree == old(self).tree,
    {
        let ghost before = self.model(log@);
        let Cursor::Point { token: t, selection } = self.cursor;
        let count = self.tokens.len();
        assert(t < count);
        let ghost text = before.tokens[t as int].text;
        if self.tokens[t].is_empty() {
            self.step_out_left();
            self.tokens.remove(t);
            assert(token_views(self.tokens@) =~= before.tokens.remove(t as int));
            proof {
                if self.tokens@.len() > 0 {
                    lemma_ends_are_boundaries(self@.tokens[self@.token].text);
                }
                assert forall|i: int| 0 <= i < self@.tokens.len() implies fitting(
                    self.language.kinds(),
                    #[trigger] self@.tokens[i],
                ) by {
                    if i < t {
                        assert(self@.tokens[i] == before.tokens[i]);
                    } else {
                        assert(self@.tokens[i] == before.tokens[i + 1]);
                    }
                }
            }
            self.reparse(Reparse { start: t, old_end: t + 1, new_end: t }, log);
        } else {
            let from = if selection.is_caret() {
                match prev_grapheme_offset(self.tokens[t].str.as_str(), selection.end) {
                    Some(n) => n,
                    None => 0,
                }
            } else {
                selection.min()
            };
            proof {
                lemma_ends_are_boundaries(text);
                lemma_spliced(text, from as int, selection.high() as int, Seq::empty());
            }
            splice(&mut self.tokens[t].str, from, selection.max(), "");
            proof {
                reveal_strlit("");
                assert(""@ =~= Seq::<char>::empty());
            }
            self.cursor = Cursor::Point { token: t, selection: Selection::caret(from) };
            assert(token_views(self.tokens@) =~= rewritten(
                before,
                t as int,
                spliced(text, from as int, selection.high() as int, Seq::empty()),
            ).tokens);
            assert(self.model(log@) == cut_back(before));
            assert forall|i: int| 0 <= i < self@.tokens.len() && i != t implies fitting(
                self.language.kinds(),
                #[trigger] self@.tokens[i],
            ) by {
                assert(self@.tokens[i] == before.tokens[i]);
            }
            self.lex_sync_then_sit(log);
        }
    }

    /// Types `new` in place of the selection. The caret then stands behind
    /// it, and the token is brought in line with its text. Gives the parses
    /// asked for, in order.
    pub fn insert(&mut self, new: &str) -> (log: Vec<Reparse>)
        requires
            old(self).wf(),
        ensures
            final(self).wf(),
            final(self).grammar() == old(self).grammar(),
            log@ == inserted(old(self).kinds(), old(self).grammar().fallback(), old(self)@, new@).log,
            log@.len() == 0 ==> final(self).parse_tree() == old(self).parse_tree(),
            final(self)@ == (Buffer {
                log: Seq::empty(),
                ..inserted(old(self).kinds(), old(self).grammar().fallback(), old(self)@, new@)
            }),
    {
        let mut log: Vec<Reparse> = Vec::new();
        let ghost before = self@;
        let Cursor::Point { token: t, selection } = self.cursor;
        let ghost text = before.tokens[t as int].text;
        proof {
            lemma_spliced(text, selection.low() as int, selection.high() as int, new@);
        }
        splice(&mut self.tokens[t].str, selection.min(), selection.max(), new);
        let now = length(self.tokens[t].str.as_str());
        let caret = selection.min() + length(new);
        self.cursor = Cursor::Point { token: t, selection: Selection::caret(caret) };
        assert(token_views(self.tokens@) =~= rewritten(
            before,
            t as int,
            spliced(text, selection.low() as int, selection.high() as int, new@),
        ).tokens);
        assert(self.model(log@) == typed(before, new@));
        assert forall|i: int| 0 <= i < self@.tokens.len() && i != t implies fitting(
            self.language.kinds(),
            #[trigger] self@.tokens[i],
        ) by {
            assert(self@.tokens[i] == before.tokens[i]);
        }
        self.lex_sync_then_sit(&mut log);
        log
    }

    /// Deletes to the left: the selection, or with a caret the
    /// user-perceived character in front of it. A token without text is taken
    /// out. Gives the parses asked for, in order.
    pub fn delete_backward(&mut self) -> (log: Vec<Reparse>)
        requires
            old(self).wf(),
        ensures
            final(self).wf(),
            final(self).grammar() == old(self).grammar(),
            log@ == deleted_backward(old(self).kinds(), old(self).grammar().fallback(), old(self)@).log,
            log@.len() == 0 ==> final(self).parse_tree() == old(self).parse_tree(),
            final(self)@ == (Buffer {
                log: Seq::empty(),
                ..deleted_backward(old(self).kinds(), old(self).grammar().fallback(), old(self)@)
            }),
    {
        let mut log: Vec<Reparse> = Vec::new();
        self.delete_backward_into(&mut log);
        log
    }

    /// Deletes to the right: the selection, or with a caret the
    /// user-perceived character behind it. A token without text is taken out.
    /// Gives the parses asked for, in order.
    pub fn delete_forward(&mut self) -> (log: Vec<Reparse>)
        requires
            old(self).wf(),
        ensures
            final(self).wf(),
            final(self).grammar() == old(self).grammar(),
            log@ == deleted_forward(old(self).kinds(), old(self).grammar().fallback(), old(self)@).log,
            log@.len() == 0 ==> final(self).parse_tree() == old(self).parse_tree(),
            final(self)@ == (Buffer {
                log: Seq::empty(),
                ..deleted_forward(old(self).kinds(), old(self).grammar().fallback(), old(self)@)
            }),
    {
        let mut log: Vec<Reparse> = Vec::new();
        let ghost before = self@;
        let Cursor::Point { token: t, selection } = self.cursor;
        let count = self.tokens.len();
        assert(t < count);
        if self.tokens[t].is_empty() {
            self.tokens.remove(t);
            assert(token_views(self.tokens@) =~= before.tokens.remove(t as int));
            self.cursor = Cursor::Point { token: t, selection: Selection::caret(0) };
            proof {
                if t < self@.tokens.len() {
                    lemma_ends_are_boundaries(self@.tokens[t as int].text);
                }
                assert forall|i: int| 0 <= i < self@.tokens.len() implies fitting(
                    self.language.kinds(),
                    #[trigger] self@.tokens[i],
                ) by {
                    if i < t {
                        assert(self@.tokens[i] == before.tokens[i]);
                    } else {
                        assert(self@.tokens[i] == before.tokens[i + 1]);
                    }
                }
            }
            assert(self@ == lifted(before));
            self.reparse(Reparse { start: t, old_end: t + 1, new_end: t }, &mut log);
            let Cursor::Point { token: now, selection: _ } = self.cursor;
            let count = self.tokens.len();
            if now >= count {
                let end = length(self.tokens[count - 1].str.as_str());
                proof {
                    lemma_ends_are_boundaries(self@.tokens[count - 1].text);
                }
                self.cursor = Cursor::Point { token: count - 1, selection: Selection::caret(end) };
            }
        } else if selection.is_caret() {
            if next_grapheme_offset(self.tokens[t].str.as_str(), selection.end).is_some() {
                self.move_selection(Movement::Right, false);
                self.delete_backward_into(&mut log);
            }
        } else {
            self.delete_backward_into(&mut log);
        }
        log
    }

    /// Does what the action asks for. Gives the parses asked for, in order.
    pub fn do_edit_action(&mut self, edit_action: EditAction) -> (log: Vec<Reparse>)
        requires
            old(self).wf(),
        ensures
            final(self).wf(),
            final(self).grammar() == old(self).grammar(),
            log@ == acted(
                old(self).kinds(),
                old(self).grammar().fallback(),
                old(self)@,
                edit_action,
            ).log,
            log@.len() == 0 ==> final(self).parse_tree() == old(self).parse_tree(),
            final(self)@ == (Buffer {
                log: Seq::empty(),
                ..acted(old(self).kinds(), old(self).grammar().fallback(), old(self)@, edit_action)
            }),
    {
        match edit_action {
            EditAction::Insert(chars) => self.insert(chars.as_str()),
            EditAction::Backspace => self.delete_backward(),
            EditAction::Delete => self.delete_forward(),
            EditAction::Move(movement) => {
                self.move_selection(movement, false);
                Vec::new()
            },
            EditAction::Ignored => Vec::new(),
        }
    }

    /// The state of a buffer that holds `tokens`, with the cursor at the
    /// start of the first and no parse counted. The ends of the buffer are
    /// mended. `None` where a token is of no category of the grammar, or of
    /// one that does not accept its text and is no lexing-error category.
    pub fn new(language: &'a Language, parser: tree_sitter::Parser, tokens: Vec<Token>) -> (r:
        Option<EditorState<'a>>)
        requires
            language.wf(),
        ensures
            r is Some <==> forall|i: int|
                0 <= i < tokens@.len() ==> fitting(
                    language.kinds(),
                    #[trigger] token_views(tokens@)[i],
                ),
            r matches Some(state) ==> {
                &&& state.wf()
                &&& state.grammar() == *language
                &&& state@ == (Buffer {
                    log: Seq::empty(),
                    ..mended(
                        language.kinds(),
                        language.fallback(),
                        mended(
                            language.kinds(),
                            language.fallback(),
                            Buffer {
                                tokens: token_views(tokens@),
                                token: 0,
                                selection: caret_at(0),
                                version: 0,
                                log: Seq::empty(),
                            },
                        ),
                    )
                })
            },
    {
        let mut i: usize = 0;
        while i < tokens.len()
            invariant
                language.wf(),
                i <= tokens@.len(),
                forall|k: int|
                    0 <= k < i ==> fitting(language.kinds(), #[trigger] token_views(tokens@)[k]),
            decreases tokens@.len() - i,
        {
            let tp = tokens[i].tp;
            if (tp as usize) >= language.node_count() {
                assert(!fitting(language.kinds(), token_views(tokens@)[i as int]));
                return None;
            }
            match language.node(tp) {
                crate::spec::NodeSpec::Token(category) => {
                    if !category.is_lex_error() && !category.accept(tokens[i].str.as_str()) {
                        assert(!fitting(language.kinds(), token_views(tokens@)[i as int]));
                        return None;
                    }
                },
                _ => {
                    assert(!fitting(language.kinds(), token_views(tokens@)[i as int]));
                    return None;
                },
            }
            i += 1;
        }
        let mut parser = parser;
        let stream = read_stream(&tokens);
        let tree = parse_stream(&mut parser, &stream, None);
        let mut state = EditorState {
            version: 0,
            language,
            tokens,
            cursor: Cursor::Point { token: 0, selection: Selection::caret(0) },
            parser,
            tree,
        };
        let mut log: Vec<Reparse> = Vec::new();
        proof {
            if state.tokens@.len() > 0 {
                lemma_ends_are_boundaries(state@.tokens[0].text);
            }
            assert forall|i: int| 0 <= i < state@.tokens.len() implies fitting(
                language.kinds(),
                #[trigger] state@.tokens[i],
            ) by {
                assert(fitting(language.kinds(), token_views(tokens@)[i]));
            }
            language.lemma_fallback();
            lemma_mended_twice(language.kinds(), language.fallback(), state.model(log@));
        }
        state.mend(&mut log);
        state.mend(&mut log);
        Some(state)
    }
}

} // verus!

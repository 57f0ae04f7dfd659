//! The importer: reads the `import "file"` lines at the head of a program.
use vstd::prelude::*;
use crate::error_handler::{CompiletimeErrorHandler, report_text, strings_view, token_where};
use crate::text::drop_quotes;
use crate::token::{Token, TokenType, TokenView, tokens_view, duplicate_tokens};

verus! {

/// The message reported when `import` is not followed by a file name.
pub open spec fn missing_file_name_message() -> Seq<char> {
    "Expecting a file name after 'import' keyword."@
}

/// What the head of a program gives: how many tokens it takes, the files it
/// imports, in order, and the token at which an error was found, if any.
pub struct ImportOutcome {
    pub consumed: int,
    pub imports: Seq<Seq<char>>,
    pub error: Option<TokenView>,
}

/// A string token's text without its surrounding quotes.
pub open spec fn path_of(t: TokenView) -> Seq<char> {
    t.lexeme.subrange(1, t.lexeme.len() - 1)
}

/// The imports read from `ts[i..]`, where `expecting` tells whether an
/// `import` keyword is waiting for its file name.
pub open spec fn imports_from(ts: Seq<TokenView>, i: int, expecting: bool) -> ImportOutcome
    decreases ts.len() - i,
{
    if i < 0 || i >= ts.len() || ts[i].token_type == TokenType::EOF {
        ImportOutcome { consumed: i, imports: Seq::empty(), error: None }
    } else {
        let t = ts[i];
        if t.token_type == TokenType::IMPORT || t.token_type == TokenType::STRING || t.token_type
            == TokenType::NEWLINE {
            if !expecting {
                if t.token_type == TokenType::IMPORT {
                    imports_from(ts, i + 1, true)
                } else if t.token_type == TokenType::STRING {
                    ImportOutcome { consumed: i + 1, imports: Seq::empty(), error: None }
                } else {
                    imports_from(ts, i + 1, false)
                }
            } else {
                if t.token_type == TokenType::STRING {
                    let rest = imports_from(ts, i + 1, false);
                    ImportOutcome {
                        consumed: rest.consumed,
                        imports: seq![path_of(t)] + rest.imports,
                        error: rest.error,
                    }
                } else if t.token_type == TokenType::IMPORT {
                    ImportOutcome { consumed: i + 1, imports: Seq::empty(), error: Some(t) }
                } else {
                    imports_from(ts, i + 1, true)
                }
            }
        } else if expecting {
            ImportOutcome { consumed: i + 1, imports: Seq::empty(), error: Some(t) }
        } else {
            ImportOutcome { consumed: i, imports: Seq::empty(), error: None }
        }
    }
}

/// The imports of a whole token sequence.
pub open spec fn imports_of(ts: Seq<TokenView>) -> ImportOutcome {
    imports_from(ts, 0, false)
}

/// A token sequence the parser can read: not empty, ending with the only
/// end-of-file token, every string and number token carrying its literal.
pub open spec fn parsable_tokens(ts: Seq<TokenView>) -> bool {
    &&& ts.len() > 0
    &&& ts.last().token_type == TokenType::EOF
    &&& forall|i: int| 0 <= i < ts.len() - 1 ==> #[trigger] ts[i].token_type != TokenType::EOF
    &&& forall|i: int|
        0 <= i < ts.len() && (#[trigger] ts[i].token_type == TokenType::STRING || ts[i].token_type
            == TokenType::NUMBER) ==> ts[i].literal is Some
}

/// `e` is where the first end-of-file token of `ts` is.
pub open spec fn is_first_eof(ts: Seq<TokenView>, e: int) -> bool {
    &&& 0 <= e < ts.len()
    &&& ts[e].token_type == TokenType::EOF
    &&& forall|i: int| 0 <= i < e ==> #[trigger] ts[i].token_type != TokenType::EOF
}

/// Where the first end-of-file token of `ts` is.
pub open spec fn first_eof(ts: Seq<TokenView>) -> int {
    choose|e: int| is_first_eof(ts, e)
}

/// The tokens up to and including the first end-of-file token: all that a
/// parser reads.
pub open spec fn up_to_eof(ts: Seq<TokenView>) -> Seq<TokenView> {
    ts.take(first_eof(ts) + 1)
}

/// What the parser needs: an end-of-file token to stop at, and a literal on
/// every string and number token before it.
pub open spec fn readable_tokens(ts: Seq<TokenView>) -> bool {
    &&& exists|e: int| 0 <= e < ts.len() && #[trigger] ts[e].token_type == TokenType::EOF
    &&& parsable_tokens(up_to_eof(ts))
}

/// There is one first end-of-file token.
pub proof fn lemma_first_eof(ts: Seq<TokenView>, e: int)
    requires
        0 <= e < ts.len(),
        ts[e].token_type == TokenType::EOF,
    ensures
        is_first_eof(ts, first_eof(ts)),
        first_eof(ts) <= e,
    decreases e,
{
    if exists|i: int| 0 <= i < e && #[trigger] ts[i].token_type == TokenType::EOF {
        let i = choose|i: int| 0 <= i < e && #[trigger] ts[i].token_type == TokenType::EOF;
        lemma_first_eof(ts, i);
    } else {
        assert(is_first_eof(ts, e));
        let f = first_eof(ts);
        if f > e {
            assert(ts[e].token_type != TokenType::EOF);
        }
        if f < e {
            assert(ts[f].token_type != TokenType::EOF);
        }
    }
}

/// A sequence the parser can read reaches its first end-of-file token only
/// at its end.
pub proof fn lemma_parsable_up_to_eof(ts: Seq<TokenView>)
    requires
        parsable_tokens(ts),
    ensures
        up_to_eof(ts) == ts,
        readable_tokens(ts),
{
    let e = ts.len() - 1;
    assert(is_first_eof(ts, e));
    lemma_first_eof(ts, e);
    let f = first_eof(ts);
    if f < e {
        assert(ts[f].token_type != TokenType::EOF);
    }
    assert(ts.take(e + 1) =~= ts);
}

/// A token sequence as the scanner makes it: one the parser can read, with
/// every string token written between quotes.
pub open spec fn well_formed_tokens(ts: Seq<TokenView>) -> bool {
    &&& parsable_tokens(ts)
    &&& forall|i: int|
        0 <= i < ts.len() && #[trigger] ts[i].token_type == TokenType::STRING ==> {
            &&& ts[i].lexeme.len() >= 2
            &&& ts[i].lexeme[0] == '"'
            &&& ts[i].lexeme.last() == '"'
        }
}

/// Every string that the head of `ts[i..]` takes as a file name has room
/// for its two quotes, where `expecting` tells whether an `import` keyword
/// is waiting for its file name.
pub open spec fn paths_ok(ts: Seq<TokenView>, i: int, expecting: bool) -> bool
    decreases ts.len() - i,
{
    if i < 0 || i >= ts.len() || ts[i].token_type == TokenType::EOF {
        true
    } else {
        let t = ts[i];
        if t.token_type == TokenType::IMPORT || t.token_type == TokenType::STRING || t.token_type
            == TokenType::NEWLINE {
            if !expecting {
                if t.token_type == TokenType::IMPORT {
                    paths_ok(ts, i + 1, true)
                } else if t.token_type == TokenType::STRING {
                    true
                } else {
                    paths_ok(ts, i + 1, false)
                }
            } else {
                if t.token_type == TokenType::STRING {
                    t.lexeme.len() >= 2 && paths_ok(ts, i + 1, false)
                } else if t.token_type == TokenType::IMPORT {
                    true
                } else {
                    paths_ok(ts, i + 1, true)
                }
            }
        } else {
            true
        }
    }
}

/// What the import analysis needs: an end-of-file token to stop at, and
/// room for the quotes around every file name it reads.
pub open spec fn analyzable(ts: Seq<TokenView>) -> bool {
    &&& exists|i: int| 0 <= i < ts.len() && #[trigger] ts[i].token_type == TokenType::EOF
    &&& paths_ok(ts, 0, false)
}

proof fn lemma_paths_ok(ts: Seq<TokenView>, i: int, expecting: bool)
    requires
        well_formed_tokens(ts),
    ensures
        paths_ok(ts, i, expecting),
    decreases ts.len() - i,
{
    if 0 <= i < ts.len() && ts[i].token_type != TokenType::EOF {
        lemma_paths_ok(ts, i + 1, true);
        lemma_paths_ok(ts, i + 1, false);
    }
}

/// A token sequence as the scanner makes it is one the import analysis
/// can read.
pub proof fn lemma_well_formed_analyzable(ts: Seq<TokenView>)
    requires
        well_formed_tokens(ts),
    ensures
        analyzable(ts),
{
    lemma_paths_ok(ts, 0, false);
    assert(ts[ts.len() - 1].token_type == TokenType::EOF);
}

/// The head of a program is a run of `import "file"` lines: each such pair
/// imports the file whose name is between the quotes, and what follows is
/// read on; line breaks between them are skipped; the first token that is
/// none of these ends the head and stays in the program; and an `import`
/// followed by anything but a file name (or a line break before one) is an
/// error at that token.
pub proof fn lemma_import_head(ts: Seq<TokenView>, i: int)
    requires
        0 <= i && i + 1 < ts.len(),
        ts[i].token_type != TokenType::EOF,
    ensures
        ts[i].token_type == TokenType::IMPORT && ts[i + 1].token_type == TokenType::STRING ==> imports_from(
            ts,
            i,
            false,
        ) == (ImportOutcome {
            consumed: imports_from(ts, i + 2, false).consumed,
            imports: seq![ts[i + 1].lexeme.subrange(1, ts[i + 1].lexeme.len() - 1)] + imports_from(
                ts,
                i + 2,
                false,
            ).imports,
            error: imports_from(ts, i + 2, false).error,
        }),
        ts[i].token_type == TokenType::NEWLINE ==> imports_from(ts, i, false) == imports_from(ts, i + 1, false),
        ts[i].token_type != TokenType::IMPORT && ts[i].token_type != TokenType::STRING && ts[i].token_type
            != TokenType::NEWLINE ==> imports_from(ts, i, false) == (ImportOutcome {
            consumed: i,
            imports: Seq::empty(),
            error: None,
        }),
        ({
            let u = ts[i + 1].token_type;
            ts[i].token_type == TokenType::IMPORT && u != TokenType::STRING && u != TokenType::NEWLINE && u
                != TokenType::EOF
        }) ==> imports_from(ts, i, false).error == Some(ts[i + 1]) && imports_from(ts, i, false).consumed
            == i + 2 && imports_from(ts, i, false).imports.len() == 0,
{
    if ts[i].token_type == TokenType::IMPORT {
        assert(imports_from(ts, i, false) == imports_from(ts, i + 1, true));
        if ts[i + 1].token_type == TokenType::STRING {
            assert(path_of(ts[i + 1]) == ts[i + 1].lexeme.subrange(1, ts[i + 1].lexeme.len() - 1));
        }
    }
}

proof fn lemma_imports_from(ts: Seq<TokenView>, i: int, expecting: bool)
    requires
        0 <= i <= ts.len(),
    ensures
        i <= imports_from(ts, i, expecting).consumed <= ts.len(),
    decreases ts.len() - i,
{
    if i < ts.len() && ts[i].token_type != TokenType::EOF {
        lemma_imports_from(ts, i + 1, true);
        lemma_imports_from(ts, i + 1, false);
    }
}

/// What follows a position before the end of a token sequence the parser
/// can read is one it can read too.
pub proof fn lemma_suffix_parsable(ts: Seq<TokenView>, i: int)
    requires
        parsable_tokens(ts),
        0 <= i < ts.len(),
    ensures
        parsable_tokens(ts.subrange(i, ts.len() as int)),
{
    let s = ts.subrange(i, ts.len() as int);
    assert(s.last() == ts.last());
    assert forall|j: int| 0 <= j < s.len() - 1 implies #[trigger] s[j].token_type != TokenType::EOF by {
        assert(s[j] == ts[i + j]);
    }
    assert forall|j: int|
        0 <= j < s.len() && (#[trigger] s[j].token_type == TokenType::STRING || s[j].token_type
            == TokenType::NUMBER) implies s[j].literal is Some by {
        assert(s[j] == ts[i + j]);
    }
}

/// What follows a position before the end of a well-formed token sequence
/// is well-formed too.
pub proof fn lemma_suffix_well_formed(ts: Seq<TokenView>, i: int)
    requires
        well_formed_tokens(ts),
        0 <= i < ts.len(),
    ensures
        well_formed_tokens(ts.subrange(i, ts.len() as int)),
{
    let s = ts.subrange(i, ts.len() as int);
    lemma_suffix_parsable(ts, i);
    assert forall|j: int| 0 <= j < s.len() && #[trigger] s[j].token_type == TokenType::STRING implies {
        &&& s[j].lexeme.len() >= 2
        &&& s[j].lexeme[0] == '"'
        &&& s[j].lexeme.last() == '"'
    } by {
        assert(s[j] == ts[i + j]);
    }
}

pub struct Importer {
    tokens: Vec<Token>,
    pub error_handler: CompiletimeErrorHandler,
    /// When `expecting_file_name` is false, look for the `import` keyword;
    /// when it is true, look for a string token.
    expecting_file_name: bool,
    current: usize,
}

impl Importer {
    pub closed spec fn spec_tokens(&self) -> Seq<TokenView> {
        tokens_view(self.tokens@)
    }

    /// The error handler (its view).
    pub closed spec fn handler(&self) -> CompiletimeErrorHandler {
        self.error_handler
    }

    /// Nothing has been read yet.
    pub closed spec fn is_fresh(&self) -> bool {
        self.current == 0 && !self.expecting_file_name
    }

    /// The error handler, taken out of the importer.
    pub fn into_handler(self) -> (r: CompiletimeErrorHandler)
        ensures
            r == self.handler(),
    {
        self.error_handler
    }

    pub fn new(tokens: Vec<Token>) -> (r: Importer)
        ensures
            r.spec_tokens() == tokens_view(tokens@),
            r.is_fresh(),
            !r.handler().had_error,
            r.handler().messages@.len() == 0,
    {
        Importer {
            tokens,
            error_handler: CompiletimeErrorHandler::new(),
            expecting_file_name: false,
            current: 0,
        }
    }

    /// Reads the imports at the head of the program. Returns the tokens
    /// that follow them and the imported file names, in order; an `import`
    /// without a file name is reported as an error.
    pub fn analyze(&mut self) -> (r: (Vec<Token>, Vec<String>))
        requires
            analyzable(old(self).spec_tokens()),
            old(self).is_fresh(),
        ensures
            ({
                let ts = old(self).spec_tokens();
                let o = imports_of(ts);
                &&& tokens_view(r.0@) == ts.subrange(o.consumed, ts.len() as int)
                &&& well_formed_tokens(ts) ==> well_formed_tokens(tokens_view(r.0@))
                &&& parsable_tokens(ts) ==> parsable_tokens(tokens_view(r.0@))
                &&& final(self).spec_tokens() == tokens_view(r.0@)
                &&& strings_view(r.1@) == o.imports
                &&& final(self).handler().had_error == (old(self).handler().had_error
                    || o.error is Some)
                &&& strings_view(final(self).handler().messages@) == match o.error {
                    Some(t) => strings_view(old(self).handler().messages@).push(
                        report_text(Some(t.line), token_where(t), missing_file_name_message()),
                    ),
                    None => strings_view(old(self).handler().messages@),
                }
            }),
    {
        let ghost ts = tokens_view(self.tokens@);
        let ghost e = choose|i: int| 0 <= i < ts.len() && #[trigger] ts[i].token_type == TokenType::EOF;
        let mut imports: Vec<String> = Vec::new();
        proof {
            lemma_imports_from(ts, 0, false);
        }
        loop
            invariant_except_break
                tokens_view(self.tokens@) == ts,
                ts.len() == self.tokens.len(),
                0 <= e < ts.len(),
                ts[e].token_type == TokenType::EOF,
                self.current <= e,
                paths_ok(ts, self.current as int, self.expecting_file_name),
                imports_of(ts) == ({
                    let rest = imports_from(ts, self.current as int, self.expecting_file_name);
                    ImportOutcome {
                        consumed: rest.consumed,
                        imports: strings_view(imports@) + rest.imports,
                        error: rest.error,
                    }
                }),
                self.error_handler == old(self).error_handler,
            ensures
                tokens_view(self.tokens@) == ts,
                self.current < ts.len(),
                imports_of(ts).consumed == self.current,
                imports_of(ts).imports == strings_view(imports@),
                strings_view(self.error_handler.messages@) == match imports_of(ts).error {
                    Some(t) => strings_view(old(self).error_handler.messages@).push(
                        report_text(Some(t.line), token_where(t), missing_file_name_message()),
                    ),
                    None => strings_view(old(self).error_handler.messages@),
                },
                self.error_handler.had_error == (old(self).error_handler.had_error || imports_of(
                    ts,
                ).error is Some),
            decreases ts.len() - self.current,
        {
            let i = self.current;
            assert(ts.len() == self.tokens.len());
            proof {
                lemma_imports_from(ts, i as int + 1, true);
                lemma_imports_from(ts, i as int + 1, false);
            }
            let tt = self.tokens[i].token_type;
            assert(ts[i as int] == self.tokens@[i as int]@);
            assert(ts[i as int].token_type == tt);
            if tt == TokenType::EOF {
                assert(strings_view(imports@) + Seq::<Seq<char>>::empty() =~= strings_view(
                    imports@,
                ));
                break ;
            }
            assert(i + 1 <= e);
            if tt == TokenType::IMPORT || tt == TokenType::STRING || tt == TokenType::NEWLINE {
                if !self.expecting_file_name {
                    self.current = i + 1;
                    if tt == TokenType::IMPORT {
                        self.expecting_file_name = true;
                    } else if tt == TokenType::STRING {
                        assert(strings_view(imports@) + Seq::<Seq<char>>::empty() =~= strings_view(
                            imports@,
                        ));
                        break ;
                    }
                } else {
                    self.current = i + 1;
                    if tt == TokenType::STRING {
                        let path = drop_quotes(&self.tokens[i].lexeme);
                        let ghost before = strings_view(imports@);
                        imports.push(path);
                        assert(strings_view(imports@) =~= before.push(path@));
                        assert(before + (seq![path_of(ts[i as int])] + imports_from(
                            ts,
                            i + 1,
                            false,
                        ).imports) =~= before.push(path@) + imports_from(ts, i + 1, false).imports);
                        self.expecting_file_name = false;
                    } else if tt == TokenType::IMPORT {
                        let token = self.tokens[i].duplicate();
                        self.handle_error(token);
                        assert(strings_view(imports@) + Seq::<Seq<char>>::empty() =~= strings_view(
                            imports@,
                        ));
                        break ;
                    }
                }
            } else {
                if self.expecting_file_name {
                    self.current = i + 1;
                    let token = self.tokens[i].duplicate();
                    self.handle_error(token);
                }
                assert(strings_view(imports@) + Seq::<Seq<char>>::empty() =~= strings_view(
                    imports@,
                ));
                break ;
            }
        }
        let rest = self.tokens.split_off(self.current);
        self.tokens = rest;
        proof {
            if well_formed_tokens(ts) {
                lemma_suffix_well_formed(ts, self.current as int);
            }
            if parsable_tokens(ts) {
                lemma_suffix_parsable(ts, self.current as int);
            }
            assert(tokens_view(self.tokens@) =~= ts.subrange(self.current as int, ts.len() as int));
        }
        (duplicate_tokens(&self.tokens), imports)
    }

    fn handle_error(&mut self, token: Token)
        ensures
            final(self).tokens == old(self).tokens,
            final(self).current == old(self).current,
            final(self).expecting_file_name == old(self).expecting_file_name,
            final(self).error_handler.had_error,
            strings_view(final(self).error_handler.messages@) == strings_view(
                old(self).error_handler.messages@,
            ).push(report_text(Some(token.line as nat), token_where(token@), missing_file_name_message())),
    {
        let message = crate::text::string_of("Expecting a file name after 'import' keyword.");
        self.error_handler.token_error(token, message);
    }
}

} // verus!

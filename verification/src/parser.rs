//! The parser: builds the syntax tree of a program from its tokens, reports
//! syntax errors and recovers from them at the end of the statement.
use vstd::prelude::*;
use crate::ast::{
    Expr, ExprV, Stmt, StmtV, expr_view, opt_token_view, exprs_view, is_assign_op, is_block, lemma_array_view,
    lemma_block_view, lemma_call_view, lemma_wf_call, lemma_wf_array, lemma_wf_tuple,
    lemma_wf_dictionary, lemma_wf_block, lemma_wf_class, lemma_wf_for, lemma_wf_if, lemma_for_view, wf_pairs, lemma_class_view, lemma_dictionary_view, lemma_tuple_view,
    lemma_exprs_view_empty, lemma_exprs_view_push, lemma_exprs_view_insert_first, lemma_pairs_view_empty,
    lemma_pairs_view_push, lemma_stmts_view_empty, lemma_stmts_view_push, pairs_view, stmt_view, stmts_view, wf_expr, wf_exprs, wf_stmt, wf_stmts,
};
use crate::error_handler::strings_view;
use crate::grammar as g;
use crate::grammar::{PErr, PState, nest, skip_nl};
use crate::error_handler::CompiletimeErrorHandler;
use crate::importer::{first_eof, is_first_eof, lemma_first_eof, lemma_parsable_up_to_eof, parsable_tokens, readable_tokens, up_to_eof};
use crate::text::string_of;
use crate::token::{Literal, Token, TokenType, TokenView, tokens_view, token_type_string};

verus! {

/// A syntax error: at a token, with the token type that was expected there
/// (if the error is a missing token), or on a line.
pub enum ParseError {
    Token(Token, String, Option<TokenType>),
    Line(usize, String),
}

pub open spec fn perr_view(e: ParseError) -> PErr {
    match e {
        ParseError::Token(t, m, x) => PErr::Token(t@, m@, x),
        ParseError::Line(l, m) => PErr::Line(l as nat, m@),
    }
}

pub open spec fn expr_res(r: Result<Expr, ParseError>) -> Result<ExprV, PErr> {
    match r {
        Ok(e) => Ok(expr_view(e)),
        Err(x) => Err(perr_view(x)),
    }
}

pub open spec fn stmt_res(r: Result<Stmt, ParseError>) -> Result<StmtV, PErr> {
    match r {
        Ok(s) => Ok(stmt_view(s)),
        Err(x) => Err(perr_view(x)),
    }
}

pub open spec fn token_res(r: Result<Token, ParseError>) -> Result<TokenView, PErr> {
    match r {
        Ok(t) => Ok(t@),
        Err(x) => Err(perr_view(x)),
    }
}

proof fn lemma_skip_nl(ts: Seq<TokenView>, i: int)
    requires
        parsable_tokens(ts),
        0 <= i < ts.len(),
    ensures
        i <= skip_nl(ts, i) < ts.len(),
        ts[skip_nl(ts, i)].token_type != TokenType::NEWLINE,
    decreases ts.len() - i,
{
    if ts[i].token_type == TokenType::NEWLINE {
        assert(i != ts.len() - 1);
        lemma_skip_nl(ts, i + 1);
    }
}

pub struct Parser {
    current: usize,
    tokens: Vec<Token>,
    /// If this is true, automatically skips newline after advance.
    ignore_newline: bool,
    /// If `is_in_repl` is true, an unterminated block is not an error: it
    /// sets `is_in_unfinished_blk` instead.
    is_in_repl: bool,
    pub is_in_unfinished_blk: bool,
    pub error_handler: CompiletimeErrorHandler,
    /// How deep the parser is nested in (), [] and {}.
    nested_level: u32,
    /// The nested level of the statement being parsed.
    statement_nested_level: u32,
    /// Whether a syntax error for a missing `}` has been met.
    brace_missing: Ghost<bool>,
}

/// The handler has marked an error exactly when it holds a message.
#[verifier::opaque]
pub closed spec fn reported(h: CompiletimeErrorHandler) -> bool {
    h.had_error == (h.messages@.len() > 0)
}

/// The unfinished-block flag is set exactly when a missing `}` was met at
/// an interactive prompt; outside a prompt a missing `}` is reported.
#[verifier::opaque]
pub closed spec fn brace_law(unfinished: bool, brace_missing: bool, had_error: bool, repl: bool) -> bool {
    &&& unfinished == (repl && brace_missing)
    &&& (!repl && brace_missing ==> had_error)
}

/// `b` is a state the parser can reach from `a`: same tokens, not behind,
/// the invariant kept, and errors never forgotten.
pub closed spec fn evolves(a: Parser, b: Parser) -> bool {
    &&& b.inv()
    &&& b.tokens == a.tokens
    &&& a.current <= b.current
    &&& b.is_in_repl == a.is_in_repl
    &&& (a.error_handler.had_error ==> b.error_handler.had_error)
}

impl Parser {
    pub closed spec fn ts(self) -> Seq<TokenView> {
        tokens_view(self.tokens@)
    }

    pub closed spec fn inv(self) -> bool {
        &&& parsable_tokens(self.ts())
        &&& self.ts().len() == self.tokens.len()
        &&& self.current < self.tokens.len()
        &&& (self.is_in_unfinished_blk ==> self.is_in_repl)
        &&& reported(self.error_handler)
        &&& brace_law(self.is_in_unfinished_blk, self.brace_missing@, self.error_handler.had_error, self.is_in_repl)
    }

    /// The parser's state, as the grammar describes it.
    pub closed spec fn ps(self) -> PState {
        PState {
            pos: self.current as int,
            ignore_nl: self.ignore_newline,
            nested: self.nested_level,
            stmt_nested: self.statement_nested_level,
            unfinished: self.is_in_unfinished_blk,
            had_error: self.error_handler.had_error,
            errors: strings_view(self.error_handler.messages@),
        }
    }

    pub closed spec fn at_end(self) -> bool {
        g::at_end(self.ts(), self.ps())
    }

    pub closed spec fn checks(self, t: TokenType) -> bool {
        g::checks(self.ts(), self.ps(), t)
    }

    /// The position of the end-of-file token.
    pub closed spec fn end_pos(self) -> int {
        self.ts().len() - 1
    }

    /// The tokens the parser reads, whether it is run for an interactive
    /// prompt, and whether it has found an error.
    pub closed spec fn spec_tokens(&self) -> Seq<TokenView> {
        self.ts()
    }

    pub closed spec fn spec_in_repl(&self) -> bool {
        self.is_in_repl
    }

    pub closed spec fn spec_had_error(&self) -> bool {
        self.error_handler.had_error
    }

    pub closed spec fn spec_unfinished(&self) -> bool {
        self.is_in_unfinished_blk
    }

    /// Whether a syntax error for a missing `}` has been met, reported or
    /// not.
    pub closed spec fn spec_brace_missing(&self) -> bool {
        self.brace_missing@
    }

    pub closed spec fn spec_handler(&self) -> CompiletimeErrorHandler {
        self.error_handler
    }

    /// The error handler and whether the source ended inside an open
    /// block, taken out of the parser.
    pub fn into_parts(self) -> (r: (CompiletimeErrorHandler, bool))
        ensures
            r.0 == self.spec_handler(),
            r.0.had_error == self.spec_had_error(),
            r.1 == self.spec_unfinished(),
    {
        (self.error_handler, self.is_in_unfinished_blk)
    }

    /// A parser of `tokens` up to their first end-of-file token.
    pub fn new(tokens: Vec<Token>, is_in_repl: bool) -> (r: Parser)
        requires
            readable_tokens(tokens_view(tokens@)),
        ensures
            r.inv(),
            r.spec_tokens() == up_to_eof(tokens_view(tokens@)),
            parsable_tokens(tokens_view(tokens@)) ==> r.spec_tokens() == tokens_view(tokens@),
            r.spec_in_repl() == is_in_repl,
            !r.spec_unfinished(),
            !r.spec_had_error(),
            r.spec_handler().messages@.len() == 0,
            r.ps() == g::start_state(),
    {
        let ghost ts = tokens_view(tokens@);
        let mut tokens = tokens;
        assert(ts.len() == tokens@.len());
        let ghost e0 = choose|e: int| 0 <= e < ts.len() && #[trigger] ts[e].token_type == TokenType::EOF;
        proof {
            lemma_first_eof(ts, e0);
        }
        let mut end: usize = 0;
        let n = tokens.len();
        while tokens[end].token_type != TokenType::EOF
            invariant
                tokens_view(tokens@) == ts,
                ts.len() == tokens@.len(),
                ts.len() == n,
                is_first_eof(ts, first_eof(ts)),
                end <= first_eof(ts),
            decreases first_eof(ts) - end,
        {
            assert(ts[end as int] == tokens@[end as int]@);
            assert(end as int != first_eof(ts));
            end = end + 1;
        }
        proof {
            assert(ts[end as int] == tokens@[end as int]@);
            if (end as int) < first_eof(ts) {
                assert(ts[end as int].token_type != TokenType::EOF);
            }
        }
        assert(end < tokens.len());
        tokens.truncate(end + 1);
        assert(tokens_view(tokens@) =~= up_to_eof(ts));
        proof {
            if parsable_tokens(ts) {
                lemma_parsable_up_to_eof(ts);
            }
        }
        assert(tokens_view(tokens@).len() == tokens@.len());
        let error_handler = CompiletimeErrorHandler::new();
        assert(strings_view(error_handler.messages@) =~= Seq::<Seq<char>>::empty());
        proof {
            reveal(reported);
            reveal(brace_law);
        }
        Parser {
            current: 0,
            tokens,
            ignore_newline: false,
            is_in_repl,
            is_in_unfinished_blk: false,
            error_handler,
            nested_level: 0,
            statement_nested_level: 0,
            brace_missing: Ghost(false),
        }
    }

    /// Parses the whole program. A statement with a syntax error is
    /// reported and left out; parsing goes on after it.
    pub fn program(&mut self) -> (r: Vec<Stmt>)
        requires
            old(self).inv(),
        ensures
            wf_stmts(r@),
            final(self).spec_tokens() == old(self).spec_tokens(),
            final(self).spec_in_repl() == old(self).spec_in_repl(),
            final(self).spec_unfinished() ==> final(self).spec_in_repl(),
            old(self).spec_had_error() ==> final(self).spec_had_error(),
            final(self).ps() == g::program(
                old(self).spec_tokens(),
                old(self).spec_in_repl(),
                old(self).ps(),
            ).0,
            stmts_view(r@) == g::program(old(self).spec_tokens(), old(self).spec_in_repl(), old(self).ps()).1,
            strings_view(final(self).spec_handler().messages@) == final(self).ps().errors,
            final(self).spec_had_error() == final(self).ps().had_error,
            final(self).spec_unfinished() == final(self).ps().unfinished,
            g::at_end(old(self).spec_tokens(), final(self).ps()),
            final(self).spec_had_error() == (final(self).spec_handler().messages@.len() > 0),
            final(self).spec_unfinished() == (final(self).spec_in_repl() && final(self).spec_brace_missing()),
            !final(self).spec_in_repl() && final(self).spec_brace_missing() ==> final(self).spec_had_error(),
            !old(self).spec_brace_missing() && !final(self).spec_brace_missing() ==> !final(self).spec_unfinished(),
    {
        let mut statements: Vec<Stmt> = Vec::new();
        self.skip_newlines();
        let ghost start = self.ps();
        proof {
            lemma_stmts_view_empty(statements@);
        }
        while !self.is_at_end()
            invariant
                evolves(*old(self), *self),
                wf_stmts(statements@),
                g::program_loop(old(self).ts(), old(self).is_in_repl, start, Seq::empty()).0
                    == g::program_loop(
                    old(self).ts(),
                    old(self).is_in_repl,
                    self.ps(),
                    stmts_view(statements@),
                ).0,
                g::program_loop(old(self).ts(), old(self).is_in_repl, start, Seq::empty()).1
                    == g::program_loop(
                    old(self).ts(),
                    old(self).is_in_repl,
                    self.ps(),
                    stmts_view(statements@),
                ).1,
            decreases self.end_pos() - self.current + if self.at_end() {
                0int
            } else {
                1int
            },
        {
            let ghost before = statements@;
            if let Some(statement) = self.declaration() {
                if self.consume_newline().is_ok() {
                    statements.push(statement);
                    proof {
                        lemma_stmts_view_push(before, statements@.last());
                        assert(before.push(statements@.last()) =~= statements@);
                    }
                } else {
                    self.handle_newline_error();
                }
            }
            proof {
                lemma_not_after_end(*self);
            }
        }
        self.advance();
        proof {
            reveal(reported);
            reveal(brace_law);
        }
        statements
    }

    /// Reports a syntax error and skips to the end of the statement. At
    /// an interactive prompt a missing `}` is no error: it marks the block as
    /// unfinished.
    fn handle_error(&mut self, error: ParseError)
        requires
            old(self).inv(),
        ensures
            evolves(*old(self), *final(self)),
            !old(self).at_end() ==> old(self).current < final(self).current,
            final(self).ps() == g::handle_error(
                old(self).ts(),
                old(self).is_in_repl,
                old(self).ps(),
                perr_view(error),
            ),
    {
        self.synchronize();
        match error {
            ParseError::Token(token, message, expected) => {
                // The message names the expected token type; it mentions
                // `RIGHT_BRACE` exactly when a `}` was expected.
                if expected == Some(TokenType::RIGHT_BRACE) {
                    self.brace_missing = Ghost(true);
                }
                if self.is_in_repl && expected == Some(TokenType::RIGHT_BRACE) {
                    self.is_in_unfinished_blk = true;
                    proof {
                        reveal(brace_law);
                    }
                    return ;
                }
                self.error_handler.token_error(token, message);
            },
            ParseError::Line(line, message) => self.error_handler.line_error(line, message),
        }
        proof {
            reveal(brace_law);
            reveal(reported);
            assert(strings_view(self.error_handler.messages@).len() == self.error_handler.messages@.len());
        }
    }

    fn handle_newline_error(&mut self)
        requires
            old(self).inv(),
        ensures
            evolves(*old(self), *final(self)),
            !old(self).at_end() ==> old(self).current < final(self).current,
            final(self).ps() == g::handle_newline_error(
                old(self).ts(),
                old(self).is_in_repl,
                old(self).ps(),
            ),
    {
        let token = self.peek().duplicate();
        let message = string_of("Expected newline after statement.");
        self.handle_error(ParseError::Token(token, message, None));
    }

    /// Skips tokens up to the end of the current statement: a line break
    /// at the nesting depth the statement started at.
    fn synchronize(&mut self)
        requires
            old(self).inv(),
        ensures
            evolves(*old(self), *final(self)),
            final(self).is_in_unfinished_blk == old(self).is_in_unfinished_blk,
            final(self).error_handler == old(self).error_handler,
            !old(self).at_end() ==> old(self).current < final(self).current,
            final(self).ps() == g::synchronize(old(self).ts(), old(self).ps()),
    {
        while !self.is_at_end()
            invariant_except_break
                !old(self).at_end() ==> (old(self).current < self.current || (self.current
                    == old(self).current && !self.at_end())),
                g::sync_loop(old(self).ts(), old(self).ps()) == g::sync_loop(self.ts(), self.ps()),
            invariant
                evolves(*old(self), *self),
                self.is_in_unfinished_blk == old(self).is_in_unfinished_blk,
                self.error_handler == old(self).error_handler,
            ensures
                !old(self).at_end() ==> old(self).current < self.current,
                g::sync_loop(old(self).ts(), old(self).ps()) == self.ps(),
            decreases self.end_pos() - self.current,
        {
            let ghost cur = self.current;
            let token = self.advance();
            proof {
                lemma_skip_nl(self.ts(), cur + 1);
            }
            if self.nested_level <= self.statement_nested_level && token.token_type
                == TokenType::NEWLINE {
                break ;
            }
        }
        self.set_ignore_newline(false);
    }
}

proof fn lemma_not_after_end(p: Parser)
    requires
        p.inv(),
    ensures
        p.current <= p.end_pos(),
        p.current == p.end_pos() ==> p.at_end(),
        p.current < p.end_pos() ==> !p.at_end(),
        p.at_end() == (p.ts()[p.current as int].token_type == TokenType::EOF),
{
    assert(p.ts()[p.current as int].token_type == TokenType::EOF ==> p.current == p.end_pos());
}

// Declarations / Statements
impl Parser {
    fn declaration(&mut self) -> (r: Option<Stmt>)
        requires
            old(self).inv(),
        ensures
            evolves(*old(self), *final(self)),
            !old(self).at_end() ==> old(self).current < final(self).current,
            r matches Some(st) ==> wf_stmt(st),
            final(self).ps() == g::declaration(old(self).ts(), old(self).is_in_repl, old(self).ps()).0,
            (match r {
                Some(x) => Some(stmt_view(x)),
                None => None::<StmtV>,
            }) == g::declaration(old(self).ts(), old(self).is_in_repl, old(self).ps()).1,
        decreases old(self).end_pos() - old(self).current, 40int,
    {
        self.skip_newlines();
        proof {
            lemma_skip_nl(old(self).ts(), old(self).current as int);
        }
        self.statement_nested_level = self.nested_level;
        let tt = self.peek().token_type;
        let declaration = if tt == TokenType::CLASS {
            self.class_decl()
        } else if tt == TokenType::FUN {
            self.fun_decl()
        } else if tt == TokenType::LET {
            self.var_decl()
        } else {
            self.statement()
        };
        match declaration {
            Ok(declaration) => Some(declaration),
            Err(error) => {
                self.handle_error(error);
                None
            },
        }
    }

    fn class_decl(&mut self) -> (r: Result<Stmt, ParseError>)
        requires
            old(self).inv(),
        ensures
            evolves(*old(self), *final(self)),
            r is Ok ==> old(self).current < final(self).current,
            r matches Ok(st) ==> wf_stmt(st),
            final(self).ps() == g::class_decl(old(self).ts(), old(self).is_in_repl, old(self).ps()).0,
            stmt_res(r) == g::class_decl(old(self).ts(), old(self).is_in_repl, old(self).ps()).1,
        decreases old(self).end_pos() - old(self).current, 39int,
    {
        if let Err(e) = self.consume(TokenType::CLASS) {
            return Err(e);
        }
        let identifier = match self.consume(TokenType::IDENTIFIER) {
            Ok(v) => v,
            Err(e) => {
                return Err(e);
            },
        };
        let superclass = if self.consume(TokenType::FROM).is_ok() {
            match self.consume(TokenType::IDENTIFIER) {
                Ok(t) => Some(t),
                Err(e) => {
                    return Err(e);
                },
            }
        } else {
            None
        };
        if let Err(e) = self.consume(TokenType::LEFT_BRACE) {
            return Err(e);
        }
        self.class_body(identifier, superclass)
    }

    /// The methods of the class after its opening brace, and the closing
    /// brace.
    fn class_body(&mut self, identifier: Token, superclass: Option<Token>) -> (r: Result<
        Stmt,
        ParseError,
    >)
        requires
            old(self).inv(),
        ensures
            evolves(*old(self), *final(self)),
            r is Ok ==> old(self).current < final(self).current,
            r matches Ok(st) ==> wf_stmt(st),
            final(self).ps() == g::class_body(
                old(self).ts(),
                old(self).is_in_repl,
                old(self).ps(),
                identifier@,
                opt_token_view(superclass),
            ).0,
            stmt_res(r) == g::class_body(
                old(self).ts(),
                old(self).is_in_repl,
                old(self).ps(),
                identifier@,
                opt_token_view(superclass),
            ).1,
        decreases old(self).end_pos() - old(self).current, 40int,
    {
        self.skip_newlines();
        let ghost start = self.ps();
        let mut functions: Vec<Stmt> = Vec::new();
        proof {
            lemma_stmts_view_empty(functions@);
        }
        while !self.check(TokenType::RIGHT_BRACE) && !self.is_at_end()
            invariant
                evolves(*old(self), *self),
                old(self).current <= self.current,
                start == g::skip_newlines(old(self).ts(), old(self).ps()),
                functions@.len() > 0 ==> old(self).current < self.current,
                forall|i: int|
                    0 <= i < functions@.len() ==> wf_stmt(#[trigger] functions@[i])
                        && (functions@[i] is Function),
                g::class_methods(old(self).ts(), old(self).is_in_repl, start, Seq::empty()).0
                    == g::class_methods(
                    old(self).ts(),
                    old(self).is_in_repl,
                    self.ps(),
                    stmts_view(functions@),
                ).0,
                g::class_methods(old(self).ts(), old(self).is_in_repl, start, Seq::empty()).1
                    == g::class_methods(
                    old(self).ts(),
                    old(self).is_in_repl,
                    self.ps(),
                    stmts_view(functions@),
                ).1,
            decreases self.end_pos() - self.current,
        {
            let ghost before = functions@;
            let f = match self.fun_decl() {
                Ok(v) => v,
                Err(e) => {
                    return Err(e);
                },
            };
            functions.push(f);
            proof {
                lemma_stmts_view_push(before, functions@.last());
                assert(before.push(functions@.last()) =~= functions@);
            }
            self.skip_newlines();
        }
        if let Err(e) = self.consume(TokenType::RIGHT_BRACE) {
            return Err(e);
        }
        proof {
            lemma_wf_class(identifier, superclass, functions);
            lemma_class_view(identifier, superclass, functions);
        }
        Ok(Stmt::Class(identifier, superclass, functions))
    }

    fn fun_decl(&mut self) -> (r: Result<Stmt, ParseError>)
        requires
            old(self).inv(),
        ensures
            evolves(*old(self), *final(self)),
            r is Ok ==> old(self).current < final(self).current,
            r matches Ok(st) ==> wf_stmt(st) && (st is Function),
            final(self).ps() == g::fun_decl(old(self).ts(), old(self).is_in_repl, old(self).ps()).0,
            stmt_res(r) == g::fun_decl(old(self).ts(), old(self).is_in_repl, old(self).ps()).1,
        decreases old(self).end_pos() - old(self).current, 38int,
    {
        if let Err(e) = self.consume(TokenType::FUN) {
            return Err(e);
        }
        let identifier = match self.consume(TokenType::IDENTIFIER) {
            Ok(v) => v,
            Err(e) => {
                return Err(e);
            },
        };
        if let Err(e) = self.consume(TokenType::LEFT_PAREN) {
            return Err(e);
        }
        // Allow newlines in arguments
        let prev = self.set_ignore_newline(true);
        let parameters = match self.parameters() {
            Ok(v) => v,
            Err(e) => {
                return Err(e);
            },
        };
        self.set_ignore_newline(prev);
        if let Err(e) = self.consume(TokenType::RIGHT_PAREN) {
            return Err(e);
        }
        let block = match self.block() {
            Ok(v) => v,
            Err(e) => {
                return Err(e);
            },
        };
        Ok(Stmt::Function(identifier, parameters, Box::new(block)))
    }

    fn var_decl(&mut self) -> (r: Result<Stmt, ParseError>)
        requires
            old(self).inv(),
        ensures
            evolves(*old(self), *final(self)),
            r is Ok ==> old(self).current < final(self).current,
            r matches Ok(st) ==> wf_stmt(st),
            final(self).ps() == g::var_decl(old(self).ts(), old(self).is_in_repl, old(self).ps()).0,
            stmt_res(r) == g::var_decl(old(self).ts(), old(self).is_in_repl, old(self).ps()).1,
        decreases old(self).end_pos() - old(self).current, 37int,
    {
        if let Err(e) = self.consume(TokenType::LET) {
            return Err(e);
        }
        let variable = match self.consume(TokenType::IDENTIFIER) {
            Ok(v) => v,
            Err(e) => {
                return Err(e);
            },
        };
        let expr = if self.consume(TokenType::EQUAL).is_ok() {
            match self.expression() {
                Ok(x) => Some(x),
                Err(e) => {
                    return Err(e);
                },
            }
        } else {
            None
        };
        Ok(Stmt::Variable(variable, expr))
    }

    fn statement(&mut self) -> (r: Result<Stmt, ParseError>)
        requires
            old(self).inv(),
        ensures
            evolves(*old(self), *final(self)),
            r is Ok ==> old(self).current < final(self).current,
            r matches Ok(st) ==> wf_stmt(st),
            final(self).ps() == g::statement(old(self).ts(), old(self).is_in_repl, old(self).ps()).0,
            stmt_res(r) == g::statement(old(self).ts(), old(self).is_in_repl, old(self).ps()).1,
        decreases old(self).end_pos() - old(self).current, 37int,
    {
        let tt = self.peek().token_type;
        if tt == TokenType::LEFT_BRACE {
            self.brace_statement()
        } else if tt == TokenType::FOR {
            self.for_stmt()
        } else if tt == TokenType::PRINT {
            self.print_stmt()
        } else if tt == TokenType::RETURN {
            self.return_stmt()
        } else if tt == TokenType::WHILE {
            self.while_stmt()
        } else if tt == TokenType::BREAK {
            self.break_stmt()
        } else if tt == TokenType::CONTINUE {
            self.continue_stmt()
        } else {
            self.expr_stmt()
        }
    }

    /// A statement that starts with a brace: a dictionary if key-value
    /// pairs and a closing brace follow; otherwise a block, read again from
    /// the brace.
    fn brace_statement(&mut self) -> (r: Result<Stmt, ParseError>)
        requires
            old(self).inv(),
        ensures
            evolves(*old(self), *final(self)),
            r is Ok ==> old(self).current < final(self).current,
            r matches Ok(st) ==> wf_stmt(st),
            final(self).ps() == g::brace_statement(old(self).ts(), old(self).is_in_repl, old(self).ps()).0,
            stmt_res(r) == g::brace_statement(old(self).ts(), old(self).is_in_repl, old(self).ps()).1,
        decreases old(self).end_pos() - old(self).current, 36int,
    {
        let current = self.current;
        let nested_level = self.nested_level;
        if let Err(e) = self.consume(TokenType::LEFT_BRACE) {
            return Err(e);
        }
        let prev = self.set_ignore_newline(true);
        let pairs = self.key_value_pairs();
        self.set_ignore_newline(prev);
        if let Ok(pairs) = pairs {
            if self.consume(TokenType::RIGHT_BRACE).is_ok() {
                proof {
                    lemma_wf_dictionary(pairs);
                    lemma_dictionary_view(pairs);
                }
                return Ok(Stmt::Expression(Expr::Dictionary(pairs)));
            }
        }
        // Read the braces again as a block.
        self.current = current;
        self.nested_level = nested_level;
        self.block()
    }

    fn block(&mut self) -> (r: Result<Stmt, ParseError>)
        requires
            old(self).inv(),
        ensures
            evolves(*old(self), *final(self)),
            r is Ok ==> old(self).current < final(self).current,
            r matches Ok(st) ==> wf_stmt(st) && (st is Block),
            final(self).ps() == g::block(old(self).ts(), old(self).is_in_repl, old(self).ps()).0,
            stmt_res(r) == g::block(old(self).ts(), old(self).is_in_repl, old(self).ps()).1,
        decreases old(self).end_pos() - old(self).current, 35int,
    {
        self.skip_newlines();
        if let Err(e) = self.consume(TokenType::LEFT_BRACE) {
            return Err(e);
        }
        self.skip_newlines();
        let prev = self.set_ignore_newline(false);
        let ghost start = self.ps();
        let mut statements: Vec<Stmt> = Vec::new();
        proof {
            lemma_stmts_view_empty(statements@);
        }
        while !self.check(TokenType::RIGHT_BRACE) && !self.is_at_end()
            invariant_except_break
                g::block_loop(old(self).ts(), old(self).is_in_repl, start, Seq::empty()).0
                    == g::block_loop(
                    old(self).ts(),
                    old(self).is_in_repl,
                    self.ps(),
                    stmts_view(statements@),
                ).0,
                g::block_loop(old(self).ts(), old(self).is_in_repl, start, Seq::empty()).1
                    == g::block_loop(
                    old(self).ts(),
                    old(self).is_in_repl,
                    self.ps(),
                    stmts_view(statements@),
                ).1,
            invariant
                evolves(*old(self), *self),
                old(self).current < self.current,
                wf_stmts(statements@),
            ensures
                g::block_loop(old(self).ts(), old(self).is_in_repl, start, Seq::empty()).0
                    == self.ps(),
                g::block_loop(old(self).ts(), old(self).is_in_repl, start, Seq::empty()).1
                    == stmts_view(statements@),
            decreases self.end_pos() - self.current,
        {
            let ghost before = statements@;
            if let Some(statement) = self.declaration() {
                statements.push(statement);
                proof {
                    lemma_stmts_view_push(before, statements@.last());
                    assert(before.push(statements@.last()) =~= statements@);
                }
                if self.consume_newline().is_err() {
                    // Without a line break no other statement can follow.
                    if self.check(TokenType::RIGHT_BRACE) {
                        break ;
                    } else {
                        self.handle_newline_error();
                    }
                }
            }
        }
        self.set_ignore_newline(prev);
        if let Err(e) = self.consume(TokenType::RIGHT_BRACE) {
            return Err(e);
        }
        proof {
            lemma_wf_block(statements);
            lemma_block_view(statements);
        }
        Ok(Stmt::Block(statements))
    }

    fn for_stmt(&mut self) -> (r: Result<Stmt, ParseError>)
        requires
            old(self).inv(),
        ensures
            evolves(*old(self), *final(self)),
            r is Ok ==> old(self).current < final(self).current,
            r matches Ok(st) ==> wf_stmt(st),
            final(self).ps() == g::for_stmt(old(self).ts(), old(self).is_in_repl, old(self).ps()).0,
            stmt_res(r) == g::for_stmt(old(self).ts(), old(self).is_in_repl, old(self).ps()).1,
        decreases old(self).end_pos() - old(self).current, 34int,
    {
        if let Err(e) = self.consume(TokenType::FOR) {
            return Err(e);
        }
        let variable = match self.consume(TokenType::IDENTIFIER) {
            Ok(v) => v,
            Err(e) => {
                return Err(e);
            },
        };
        if let Err(e) = self.consume(TokenType::IN) {
            return Err(e);
        }
        self.for_rest(variable)
    }

    /// The iterated expression and the body of a `for` loop over
    /// `variable`.
    fn for_rest(&mut self, variable: Token) -> (r: Result<Stmt, ParseError>)
        requires
            old(self).inv(),
        ensures
            evolves(*old(self), *final(self)),
            r is Ok ==> old(self).current < final(self).current,
            r matches Ok(st) ==> wf_stmt(st),
            final(self).ps() == g::for_rest(
                old(self).ts(),
                old(self).is_in_repl,
                old(self).ps(),
                variable@,
            ).0,
            stmt_res(r) == g::for_rest(
                old(self).ts(),
                old(self).is_in_repl,
                old(self).ps(),
                variable@,
            ).1,
        decreases old(self).end_pos() - old(self).current, 36int,
    {
        let expr = match self.logic_or() {
            Ok(v) => v,
            Err(e) => {
                return Err(e);
            },
        };
        let block = match self.block() {
            Ok(v) => v,
            Err(e) => {
                return Err(e);
            },
        };
        proof {
            lemma_wf_for(variable, expr, block);
            lemma_for_view(variable, expr, block);
        }
        Ok(Stmt::For(variable, expr, Box::new(block)))
    }

    fn print_stmt(&mut self) -> (r: Result<Stmt, ParseError>)
        requires
            old(self).inv(),
        ensures
            evolves(*old(self), *final(self)),
            r is Ok ==> old(self).current < final(self).current,
            r matches Ok(st) ==> wf_stmt(st),
            final(self).ps() == g::print_stmt(old(self).ts(), old(self).is_in_repl, old(self).ps()).0,
            stmt_res(r) == g::print_stmt(old(self).ts(), old(self).is_in_repl, old(self).ps()).1,
        decreases old(self).end_pos() - old(self).current, 34int,
    {
        let token = match self.consume(TokenType::PRINT) {
            Ok(v) => v,
            Err(e) => {
                return Err(e);
            },
        };
        let expr = match self.expression() {
            Ok(v) => v,
            Err(e) => {
                return Err(e);
            },
        };
        Ok(Stmt::Print(token, expr))
    }

    fn return_stmt(&mut self) -> (r: Result<Stmt, ParseError>)
        requires
            old(self).inv(),
        ensures
            evolves(*old(self), *final(self)),
            r is Ok ==> old(self).current < final(self).current,
            r matches Ok(st) ==> wf_stmt(st),
            final(self).ps() == g::return_stmt(old(self).ts(), old(self).is_in_repl, old(self).ps()).0,
            stmt_res(r) == g::return_stmt(old(self).ts(), old(self).is_in_repl, old(self).ps()).1,
        decreases old(self).end_pos() - old(self).current, 34int,
    {
        let token = match self.consume(TokenType::RETURN) {
            Ok(v) => v,
            Err(e) => {
                return Err(e);
            },
        };
        if self.check(TokenType::NEWLINE) || self.check(TokenType::RIGHT_BRACE) {
            Ok(Stmt::Return(token, None))
        } else {
            let expr = match self.expression() {
                Ok(v) => v,
                Err(e) => {
                    return Err(e);
                },
            };
            Ok(Stmt::Return(token, Some(expr)))
        }
    }

    fn while_stmt(&mut self) -> (r: Result<Stmt, ParseError>)
        requires
            old(self).inv(),
        ensures
            evolves(*old(self), *final(self)),
            r is Ok ==> old(self).current < final(self).current,
            r matches Ok(st) ==> wf_stmt(st),
            final(self).ps() == g::while_stmt(old(self).ts(), old(self).is_in_repl, old(self).ps()).0,
            stmt_res(r) == g::while_stmt(old(self).ts(), old(self).is_in_repl, old(self).ps()).1,
        decreases old(self).end_pos() - old(self).current, 34int,
    {
        if let Err(e) = self.consume(TokenType::WHILE) {
            return Err(e);
        }
        let condition = match self.expression() {
            Ok(v) => v,
            Err(e) => {
                return Err(e);
            },
        };
        let block = match self.block() {
            Ok(v) => v,
            Err(e) => {
                return Err(e);
            },
        };
        Ok(Stmt::While(condition, Box::new(block)))
    }

    fn break_stmt(&mut self) -> (r: Result<Stmt, ParseError>)
        requires
            old(self).inv(),
        ensures
            evolves(*old(self), *final(self)),
            r is Ok ==> old(self).current < final(self).current,
            r matches Ok(st) ==> wf_stmt(st),
            final(self).ps() == g::break_stmt(old(self).ts(), old(self).ps()).0,
            stmt_res(r) == g::break_stmt(old(self).ts(), old(self).ps()).1,
    {
        let token = match self.consume(TokenType::BREAK) {
            Ok(v) => v,
            Err(e) => {
                return Err(e);
            },
        };
        Ok(Stmt::Break(token))
    }

    fn continue_stmt(&mut self) -> (r: Result<Stmt, ParseError>)
        requires
            old(self).inv(),
        ensures
            evolves(*old(self), *final(self)),
            r is Ok ==> old(self).current < final(self).current,
            r matches Ok(st) ==> wf_stmt(st),
            final(self).ps() == g::continue_stmt(old(self).ts(), old(self).ps()).0,
            stmt_res(r) == g::continue_stmt(old(self).ts(), old(self).ps()).1,
    {
        let token = match self.consume(TokenType::CONTINUE) {
            Ok(v) => v,
            Err(e) => {
                return Err(e);
            },
        };
        Ok(Stmt::Continue(token))
    }

    fn expr_stmt(&mut self) -> (r: Result<Stmt, ParseError>)
        requires
            old(self).inv(),
        ensures
            evolves(*old(self), *final(self)),
            r is Ok ==> old(self).current < final(self).current,
            r matches Ok(st) ==> wf_stmt(st),
            final(self).ps() == g::expr_stmt(old(self).ts(), old(self).is_in_repl, old(self).ps()).0,
            stmt_res(r) == g::expr_stmt(old(self).ts(), old(self).is_in_repl, old(self).ps()).1,
        decreases old(self).end_pos() - old(self).current, 34int,
    {
        let ghost st0 = self.ps();
        let res = self.expression();
        proof {
            let (s, r) = g::expression(old(self).ts(), old(self).is_in_repl, st0);
            assert(s == self.ps());
            assert(st0 == old(self).ps());
        }
        match res {
            Ok(expr) => {
                assert(stmt_view(Stmt::Expression(expr)) == StmtV::Expression(expr_view(expr)));
                Ok(Stmt::Expression(expr))
            },
            Err(e) => Err(e),
        }
    }
}

// Expressions
impl Parser {
    fn expression(&mut self) -> (r: Result<Expr, ParseError>)
        requires
            old(self).inv(),
        ensures
            evolves(*old(self), *final(self)),
            r is Ok ==> old(self).current < final(self).current,
            r matches Ok(e) ==> wf_expr(e),
            final(self).ps() == g::expression(old(self).ts(), old(self).is_in_repl, old(self).ps()).0,
            expr_res(r) == g::expression(old(self).ts(), old(self).is_in_repl, old(self).ps()).1,
        decreases old(self).end_pos() - old(self).current, 32int,
    {
        self.assignment()
    }

    #[verifier::spinoff_prover]
    fn assignment(&mut self) -> (r: Result<Expr, ParseError>)
        requires
            old(self).inv(),
        ensures
            evolves(*old(self), *final(self)),
            r is Ok ==> old(self).current < final(self).current,
            r matches Ok(e) ==> wf_expr(e),
            final(self).ps() == g::assignment(old(self).ts(), old(self).is_in_repl, old(self).ps()).0,
            expr_res(r) == g::assignment(old(self).ts(), old(self).is_in_repl, old(self).ps()).1,
        decreases old(self).end_pos() - old(self).current, 31int,
    {
        let expr = match self.lambda() {
            Ok(v) => v,
            Err(e) => {
                return Err(e);
            },
        };
        proof {
            lemma_not_after_end(*self);
        }
        let tt = self.peek().token_type;
        if tt == TokenType::EQUAL || tt == TokenType::PLUS_EQUAL || tt == TokenType::MINUS_EQUAL
            || tt == TokenType::STAR_EQUAL || tt == TokenType::SLASH_EQUAL || tt
            == TokenType::PLUS_PLUS || tt == TokenType::MINUS_MINUS {
            let sign = self.advance();
            proof {
                lemma_skip_nl(self.ts(), self.current as int);
            }
            // If ++ or --, the value is the number 1.
            let value = if sign.token_type == TokenType::PLUS_PLUS || sign.token_type
                == TokenType::MINUS_MINUS {
                Expr::Literal(Literal::Number(string_of("1")))
            } else {
                // Parse expression here to allow assigning an assign expression
                match self.expression() {
                    Ok(x) => x,
                    Err(e) => {
                        return Err(e);
                    },
                }
            };
            // Check whether assign to variable or set object property
            assert(wf_expr(value));
            let ghost target = expr_view(expr);
            let ghost value_view = expr_view(value);
            let ghost sign_view = sign@;
            match expr {
                Expr::Get(obj, name) => {
                    let e = Expr::SetProperty(obj, name, Box::new(value));
                    assert(wf_expr(e));
                    assert(g::assign_to(target, sign_view, value_view) == Some(expr_view(e)));
                    Ok(e)
                },
                Expr::IndexGet(expr, index) => {
                    let e = Expr::IndexSet(expr, index, Box::new(value));
                    assert(wf_expr(e));
                    assert(g::assign_to(target, sign_view, value_view) == Some(expr_view(e)));
                    Ok(e)
                },
                Expr::Variable(variable) => {
                    assert(is_assign_op(sign.token_type));
                    let e = Expr::Assign(variable, sign, Box::new(value));
                    assert(wf_expr(e));
                    assert(g::assign_to(target, sign_view, value_view) == Some(expr_view(e)));
                    Ok(e)
                },
                _ => Err(
                    ParseError::Line(self.peek().line, string_of("Cannot use assignment.")),
                ),
            }
        } else {
            Ok(expr)
        }
    }

    fn lambda(&mut self) -> (r: Result<Expr, ParseError>)
        requires
            old(self).inv(),
        ensures
            evolves(*old(self), *final(self)),
            r is Ok ==> old(self).current < final(self).current,
            r matches Ok(e) ==> wf_expr(e),
            final(self).ps() == g::lambda(old(self).ts(), old(self).is_in_repl, old(self).ps()).0,
            expr_res(r) == g::lambda(old(self).ts(), old(self).is_in_repl, old(self).ps()).1,
        decreases old(self).end_pos() - old(self).current, 30int,
    {
        if self.consume(TokenType::LAMBDA).is_ok() {
            let parameters = match self.parameters() {
                Ok(v) => v,
                Err(e) => {
                    return Err(e);
                },
            };
            if let Err(e) = self.consume(TokenType::MINUS_GREATER) {
                return Err(e);
            }
            // Support both block statement (with braces) and
            // single-line statement (without braces)
            let stmt = if self.check(TokenType::LEFT_BRACE) {
                match self.block() {
                    Ok(x) => x,
                    Err(e) => {
                        return Err(e);
                    },
                }
            } else {
                let temp = match self.statement() {
                    Ok(v) => v,
                    Err(e) => {
                        return Err(e);
                    },
                };
                let mut v: Vec<Stmt> = Vec::new();
                proof {
                    lemma_stmts_view_empty(v@);
                }
                v.push(temp);
                proof {
                    lemma_stmts_view_push(Seq::empty(), v@[0]);
                    assert(Seq::<Stmt>::empty().push(v@[0]) =~= v@);
                    assert(wf_stmts(v@));
                    lemma_wf_block(v);
                    lemma_block_view(v);
                }
                Stmt::Block(v)
            };
            let l = Expr::Lambda(parameters, Box::new(stmt));
            assert(wf_expr(l));
            Ok(l)
        } else {
            self.if_expr()
        }
    }

    fn if_expr(&mut self) -> (r: Result<Expr, ParseError>)
        requires
            old(self).inv(),
        ensures
            evolves(*old(self), *final(self)),
            r is Ok ==> old(self).current < final(self).current,
            r matches Ok(e) ==> wf_expr(e),
            old(self).checks(TokenType::IF) ==> (r matches Ok(e) ==> (e matches Expr::IfExpr(_, _, _))),
            final(self).ps() == g::if_expr(old(self).ts(), old(self).is_in_repl, old(self).ps()).0,
            expr_res(r) == g::if_expr(old(self).ts(), old(self).is_in_repl, old(self).ps()).1,
        decreases old(self).end_pos() - old(self).current, 29int,
    {
        if self.consume(TokenType::IF).is_ok() {
            let condition = match self.logic_or() {
                Ok(v) => v,
                Err(e) => {
                    return Err(e);
                },
            };
            // The branch taken when the condition holds is a block.
            let then_stmt = match self.block() {
                Ok(v) => v,
                Err(e) => {
                    return Err(e);
                },
            };
            let else_stmt = match self.else_branch() {
                Ok(x) => x,
                Err(e) => {
                    return Err(e);
                },
            };
            proof {
                lemma_wf_if(condition, then_stmt, else_stmt);
            }
            Ok(Expr::IfExpr(Box::new(condition), Box::new(then_stmt), Box::new(else_stmt)))
        } else {
            self.logic_or()
        }
    }

    /// What follows the first branch of an `if`: `else` and another `if` or
    /// a block, or nothing (an empty block).
    fn else_branch(&mut self) -> (r: Result<Stmt, ParseError>)
        requires
            old(self).inv(),
        ensures
            evolves(*old(self), *final(self)),
            r matches Ok(st) ==> wf_stmt(st) && (is_block(st) || (st matches Stmt::Expression(
                Expr::IfExpr(_, _, _),
            ))),
            final(self).ps() == g::else_branch(old(self).ts(), old(self).is_in_repl, old(self).ps()).0,
            stmt_res(r) == g::else_branch(old(self).ts(), old(self).is_in_repl, old(self).ps()).1,
        decreases old(self).end_pos() - old(self).current, 30int,
    {
        if self.consume(TokenType::ELSE).is_ok() {
            proof {
                lemma_not_after_end(*self);
            }
            if self.peek().token_type == TokenType::IF {
                match self.if_expr() {
                    Ok(nested) => Ok(Stmt::Expression(nested)),
                    Err(e) => Err(e),
                }
            } else {
                self.block()
            }
        } else {
            let empty: Vec<Stmt> = Vec::new();
            proof {
                lemma_stmts_view_empty(empty@);
                lemma_block_view(empty);
                lemma_wf_block(empty);
            }
            Ok(Stmt::Block(empty))
        }
    }

    fn logic_or(&mut self) -> (r: Result<Expr, ParseError>)
        requires
            old(self).inv(),
        ensures
            evolves(*old(self), *final(self)),
            r is Ok ==> old(self).current < final(self).current,
            r matches Ok(e) ==> wf_expr(e),
            final(self).ps() == g::logic_or(old(self).ts(), old(self).is_in_repl, old(self).ps()).0,
            expr_res(r) == g::logic_or(old(self).ts(), old(self).is_in_repl, old(self).ps()).1,
        decreases old(self).end_pos() - old(self).current, 28int,
    {
        match self.logic_and() {
            Ok(left) => self.or_rest(left),
            Err(e) => Err(e),
        }
    }

    /// The `or` operations that follow `left`.
    fn or_rest(&mut self, left: Expr) -> (r: Result<Expr, ParseError>)
        requires
            old(self).inv(),
            wf_expr(left),
        ensures
            evolves(*old(self), *final(self)),
            r matches Ok(e) ==> wf_expr(e),
            final(self).ps() == g::or_loop(
                old(self).ts(),
                old(self).is_in_repl,
                old(self).ps(),
                expr_view(left),
            ).0,
            expr_res(r) == g::or_loop(
                old(self).ts(),
                old(self).is_in_repl,
                old(self).ps(),
                expr_view(left),
            ).1,
        decreases old(self).end_pos() - old(self).current, 27int,
    {
        if self.check(TokenType::OR) {
            let op = self.advance();
            proof {
                lemma_skip_nl(old(self).ts(), old(self).current + 1);
            }
            match self.logic_and() {
                Ok(right) => self.or_rest(Expr::Binary(Box::new(left), op, Box::new(right))),
                Err(e) => Err(e),
            }
        } else {
            Ok(left)
        }
    }

    fn logic_and(&mut self) -> (r: Result<Expr, ParseError>)
        requires
            old(self).inv(),
        ensures
            evolves(*old(self), *final(self)),
            r is Ok ==> old(self).current < final(self).current,
            r matches Ok(e) ==> wf_expr(e),
            final(self).ps() == g::logic_and(old(self).ts(), old(self).is_in_repl, old(self).ps()).0,
            expr_res(r) == g::logic_and(old(self).ts(), old(self).is_in_repl, old(self).ps()).1,
        decreases old(self).end_pos() - old(self).current, 27int,
    {
        match self.equality() {
            Ok(left) => self.and_rest(left),
            Err(e) => Err(e),
        }
    }

    /// The operations joined by `+` or `and` that follow `left`.
    fn and_rest(&mut self, left: Expr) -> (r: Result<Expr, ParseError>)
        requires
            old(self).inv(),
            wf_expr(left),
        ensures
            evolves(*old(self), *final(self)),
            r matches Ok(e) ==> wf_expr(e),
            r is Ok ==> old(self).current <= final(self).current,
            final(self).ps() == g::and_loop(
                old(self).ts(),
                old(self).is_in_repl,
                old(self).ps(),
                expr_view(left),
            ).0,
            expr_res(r) == g::and_loop(
                old(self).ts(),
                old(self).is_in_repl,
                old(self).ps(),
                expr_view(left),
            ).1,
        decreases old(self).end_pos() - old(self).current, 26int,
    {
        if self.check(TokenType::PLUS) || self.check(TokenType::AND) {
            let op = self.advance();
            proof {
                lemma_skip_nl(old(self).ts(), old(self).current + 1);
            }
            match self.equality() {
                Ok(right) => self.and_rest(Expr::Binary(Box::new(left), op, Box::new(right))),
                Err(e) => Err(e),
            }
        } else {
            Ok(left)
        }
    }

    fn equality(&mut self) -> (r: Result<Expr, ParseError>)
        requires
            old(self).inv(),
        ensures
            evolves(*old(self), *final(self)),
            r is Ok ==> old(self).current < final(self).current,
            r matches Ok(e) ==> wf_expr(e),
            final(self).ps() == g::equality(old(self).ts(), old(self).is_in_repl, old(self).ps()).0,
            expr_res(r) == g::equality(old(self).ts(), old(self).is_in_repl, old(self).ps()).1,
        decreases old(self).end_pos() - old(self).current, 26int,
    {
        match self.comparison() {
            Ok(left) => self.eq_rest(left),
            Err(e) => Err(e),
        }
    }

    /// The equality tests that follow `left`.
    fn eq_rest(&mut self, left: Expr) -> (r: Result<Expr, ParseError>)
        requires
            old(self).inv(),
            wf_expr(left),
        ensures
            evolves(*old(self), *final(self)),
            r matches Ok(e) ==> wf_expr(e),
            r is Ok ==> old(self).current <= final(self).current,
            final(self).ps() == g::eq_loop(
                old(self).ts(),
                old(self).is_in_repl,
                old(self).ps(),
                expr_view(left),
            ).0,
            expr_res(r) == g::eq_loop(
                old(self).ts(),
                old(self).is_in_repl,
                old(self).ps(),
                expr_view(left),
            ).1,
        decreases old(self).end_pos() - old(self).current, 25int,
    {
        if self.check(TokenType::EQUAL_EQUAL) || self.check(TokenType::BANG_EQUAL) {
            let op = self.advance();
            proof {
                lemma_skip_nl(old(self).ts(), old(self).current + 1);
            }
            match self.comparison() {
                Ok(right) => self.eq_rest(Expr::Binary(Box::new(left), op, Box::new(right))),
                Err(e) => Err(e),
            }
        } else {
            Ok(left)
        }
    }

    fn comparison(&mut self) -> (r: Result<Expr, ParseError>)
        requires
            old(self).inv(),
        ensures
            evolves(*old(self), *final(self)),
            r is Ok ==> old(self).current < final(self).current,
            r matches Ok(e) ==> wf_expr(e),
            final(self).ps() == g::comparison(old(self).ts(), old(self).is_in_repl, old(self).ps()).0,
            expr_res(r) == g::comparison(old(self).ts(), old(self).is_in_repl, old(self).ps()).1,
        decreases old(self).end_pos() - old(self).current, 25int,
    {
        match self.range() {
            Ok(left) => self.cmp_rest(left),
            Err(e) => Err(e),
        }
    }

    /// The comparisons that follow `left`.
    fn cmp_rest(&mut self, left: Expr) -> (r: Result<Expr, ParseError>)
        requires
            old(self).inv(),
            wf_expr(left),
        ensures
            evolves(*old(self), *final(self)),
            r matches Ok(e) ==> wf_expr(e),
            r is Ok ==> old(self).current <= final(self).current,
            final(self).ps() == g::cmp_loop(
                old(self).ts(),
                old(self).is_in_repl,
                old(self).ps(),
                expr_view(left),
            ).0,
            expr_res(r) == g::cmp_loop(
                old(self).ts(),
                old(self).is_in_repl,
                old(self).ps(),
                expr_view(left),
            ).1,
        decreases old(self).end_pos() - old(self).current, 24int,
    {
        if self.check(TokenType::LESS) || self.check(TokenType::GREATER) || self.check(TokenType::LESS_EQUAL) || self.check(TokenType::GREATER_EQUAL) {
            let op = self.advance();
            proof {
                lemma_skip_nl(old(self).ts(), old(self).current + 1);
            }
            match self.range() {
                Ok(right) => self.cmp_rest(Expr::Binary(Box::new(left), op, Box::new(right))),
                Err(e) => Err(e),
            }
        } else {
            Ok(left)
        }
    }

    fn range(&mut self) -> (r: Result<Expr, ParseError>)
        requires
            old(self).inv(),
        ensures
            evolves(*old(self), *final(self)),
            r is Ok ==> old(self).current < final(self).current,
            r matches Ok(e) ==> wf_expr(e),
            final(self).ps() == g::range(old(self).ts(), old(self).is_in_repl, old(self).ps()).0,
            expr_res(r) == g::range(old(self).ts(), old(self).is_in_repl, old(self).ps()).1,
        decreases old(self).end_pos() - old(self).current, 24int,
    {
        let left = match self.addition() {
            Ok(x) => x,
            Err(e) => {
                return Err(e);
            },
        };
        if self.check(TokenType::DOT_DOT) || self.check(TokenType::DOT_DOT_DOT) {
            let token = self.advance();
            let right = match self.addition() {
                Ok(x) => x,
                Err(e) => {
                    return Err(e);
                },
            };
            Ok(Expr::Binary(Box::new(left), token, Box::new(right)))
        } else {
            Ok(left)
        }
    }

    fn addition(&mut self) -> (r: Result<Expr, ParseError>)
        requires
            old(self).inv(),
        ensures
            evolves(*old(self), *final(self)),
            r is Ok ==> old(self).current < final(self).current,
            r matches Ok(e) ==> wf_expr(e),
            final(self).ps() == g::addition(old(self).ts(), old(self).is_in_repl, old(self).ps()).0,
            expr_res(r) == g::addition(old(self).ts(), old(self).is_in_repl, old(self).ps()).1,
        decreases old(self).end_pos() - old(self).current, 23int,
    {
        match self.multiplication() {
            Ok(left) => self.add_rest(left),
            Err(e) => Err(e),
        }
    }

    /// The additions and subtractions that follow `left`.
    fn add_rest(&mut self, left: Expr) -> (r: Result<Expr, ParseError>)
        requires
            old(self).inv(),
            wf_expr(left),
        ensures
            evolves(*old(self), *final(self)),
            r matches Ok(e) ==> wf_expr(e),
            r is Ok ==> old(self).current <= final(self).current,
            final(self).ps() == g::add_loop(
                old(self).ts(),
                old(self).is_in_repl,
                old(self).ps(),
                expr_view(left),
            ).0,
            expr_res(r) == g::add_loop(
                old(self).ts(),
                old(self).is_in_repl,
                old(self).ps(),
                expr_view(left),
            ).1,
        decreases old(self).end_pos() - old(self).current, 22int,
    {
        if self.check(TokenType::PLUS) || self.check(TokenType::MINUS) {
            let op = self.advance();
            proof {
                lemma_skip_nl(old(self).ts(), old(self).current + 1);
            }
            match self.multiplication() {
                Ok(right) => self.add_rest(Expr::Binary(Box::new(left), op, Box::new(right))),
                Err(e) => Err(e),
            }
        } else {
            Ok(left)
        }
    }

    fn multiplication(&mut self) -> (r: Result<Expr, ParseError>)
        requires
            old(self).inv(),
        ensures
            evolves(*old(self), *final(self)),
            r is Ok ==> old(self).current < final(self).current,
            r matches Ok(e) ==> wf_expr(e),
            final(self).ps() == g::multiplication(old(self).ts(), old(self).is_in_repl, old(self).ps()).0,
            expr_res(r) == g::multiplication(old(self).ts(), old(self).is_in_repl, old(self).ps()).1,
        decreases old(self).end_pos() - old(self).current, 22int,
    {
        match self.unary() {
            Ok(left) => self.mul_rest(left),
            Err(e) => Err(e),
        }
    }

    /// The multiplicative operations that follow `left`.
    fn mul_rest(&mut self, left: Expr) -> (r: Result<Expr, ParseError>)
        requires
            old(self).inv(),
            wf_expr(left),
        ensures
            evolves(*old(self), *final(self)),
            r matches Ok(e) ==> wf_expr(e),
            r is Ok ==> old(self).current <= final(self).current,
            final(self).ps() == g::mul_loop(
                old(self).ts(),
                old(self).is_in_repl,
                old(self).ps(),
                expr_view(left),
            ).0,
            expr_res(r) == g::mul_loop(
                old(self).ts(),
                old(self).is_in_repl,
                old(self).ps(),
                expr_view(left),
            ).1,
        decreases old(self).end_pos() - old(self).current, 21int,
    {
        if self.check(TokenType::STAR) || self.check(TokenType::SLASH) || self.check(TokenType::SLASH_LESS) || self.check(TokenType::SLASH_GREATER) || self.check(TokenType::PERCENT) {
            let op = self.advance();
            proof {
                lemma_skip_nl(old(self).ts(), old(self).current + 1);
            }
            match self.unary() {
                Ok(right) => self.mul_rest(Expr::Binary(Box::new(left), op, Box::new(right))),
                Err(e) => Err(e),
            }
        } else {
            Ok(left)
        }
    }

    fn unary(&mut self) -> (r: Result<Expr, ParseError>)
        requires
            old(self).inv(),
        ensures
            evolves(*old(self), *final(self)),
            r is Ok ==> old(self).current < final(self).current,
            r matches Ok(e) ==> wf_expr(e),
            final(self).ps() == g::unary(old(self).ts(), old(self).is_in_repl, old(self).ps()).0,
            expr_res(r) == g::unary(old(self).ts(), old(self).is_in_repl, old(self).ps()).1,
        decreases old(self).end_pos() - old(self).current, 21int,
    {
        let mut unary_ops: Vec<Token> = Vec::new();
        assert(tokens_view(unary_ops@) =~= Seq::<TokenView>::empty());
        while self.check(TokenType::BANG) || self.check(TokenType::MINUS) || self.check(TokenType::NOT)
            invariant
                evolves(*old(self), *self),
                g::unary_ops(old(self).ts(), old(self).ps(), Seq::empty()) == g::unary_ops(
                    self.ts(),
                    self.ps(),
                    tokens_view(unary_ops@),
                ),
            decreases self.end_pos() - self.current,
        {
            let ghost before = tokens_view(unary_ops@);
            let ghost c = self.current;
            let op = self.advance();
            proof {
                lemma_skip_nl(self.ts(), c + 1);
            }
            unary_ops.push(op);
            assert(tokens_view(unary_ops@) =~= before.push(op@));
        }
        let ghost ops = tokens_view(unary_ops@);
        let mut expr = match self.call() {
            Ok(x) => x,
            Err(e) => {
                return Err(e);
            },
        };
        let ghost inner = expr_view(expr);
        let mut i = unary_ops.len();
        assert(ops.subrange(i as int, ops.len() as int) =~= Seq::<TokenView>::empty());
        while i > 0
            invariant
                i <= unary_ops@.len(),
                ops == tokens_view(unary_ops@),
                wf_expr(expr),
                expr_view(expr) == g::wrap_unary(ops.subrange(i as int, ops.len() as int), inner),
            decreases i,
        {
            i = i - 1;
            let op = unary_ops[i].duplicate();
            proof {
                let sub = ops.subrange(i as int, ops.len() as int);
                assert(sub.drop_first() =~= ops.subrange(i + 1, ops.len() as int));
                assert(sub[0] == op@);
            }
            expr = Expr::Unary(op, Box::new(expr));
        }
        assert(ops.subrange(0, ops.len() as int) =~= ops);
        Ok(expr)
    }

    fn call(&mut self) -> (r: Result<Expr, ParseError>)
        requires
            old(self).inv(),
        ensures
            evolves(*old(self), *final(self)),
            r is Ok ==> old(self).current < final(self).current,
            r matches Ok(e) ==> wf_expr(e),
            final(self).ps() == g::call(old(self).ts(), old(self).is_in_repl, old(self).ps()).0,
            expr_res(r) == g::call(old(self).ts(), old(self).is_in_repl, old(self).ps()).1,
        decreases old(self).end_pos() - old(self).current, 20int,
    {
        match self.primary() {
            Ok(expr) => self.call_rest(expr),
            Err(e) => Err(e),
        }
    }

    /// The calls, indexes and property reads that follow `expr`.
    fn call_rest(&mut self, expr: Expr) -> (r: Result<Expr, ParseError>)
        requires
            old(self).inv(),
            wf_expr(expr),
        ensures
            evolves(*old(self), *final(self)),
            r matches Ok(e) ==> wf_expr(e),
            final(self).ps() == g::call_loop(
                old(self).ts(),
                old(self).is_in_repl,
                old(self).ps(),
                expr_view(expr),
            ).0,
            expr_res(r) == g::call_loop(
                old(self).ts(),
                old(self).is_in_repl,
                old(self).ps(),
                expr_view(expr),
            ).1,
        decreases old(self).end_pos() - old(self).current, 19int,
    {
        if self.check(TokenType::LEFT_PAREN) {
            self.call_arguments(expr)
        } else if self.check(TokenType::LEFT_BRACKET) {
            self.call_index(expr)
        } else if self.check(TokenType::DOT) {
            self.call_property(expr)
        } else if self.check(TokenType::NEWLINE) && self.peek_next_non_newline().token_type
            == TokenType::DOT {
            self.call_property_on_next_line(expr)
        } else {
            Ok(expr)
        }
    }

    fn call_arguments(&mut self, expr: Expr) -> (r: Result<Expr, ParseError>)
        requires
            old(self).inv(),
            wf_expr(expr),
            old(self).checks(TokenType::LEFT_PAREN),
        ensures
            evolves(*old(self), *final(self)),
            r matches Ok(e) ==> wf_expr(e),
            final(self).ps() == g::call_args(
                old(self).ts(),
                old(self).is_in_repl,
                old(self).ps(),
                expr_view(expr),
            ).0,
            expr_res(r) == g::call_args(
                old(self).ts(),
                old(self).is_in_repl,
                old(self).ps(),
                expr_view(expr),
            ).1,
        decreases old(self).end_pos() - old(self).current, 18int,
    {
        let paren = self.advance();
        proof {
            lemma_skip_nl(old(self).ts(), old(self).current + 1);
        }
        let args = match self.bracketed_args(TokenType::RIGHT_PAREN) {
            Ok(a) => a,
            Err(x) => {
                return Err(x);
            },
        };
        proof {
            lemma_wf_call(expr, paren, args);
            lemma_call_view(Box::new(expr), paren, args);
        }
        let call = Expr::Call(Box::new(expr), paren, args);
        self.call_rest(call)
    }

    /// Arguments, with line breaks skipped among them, up to a closing
    /// token of type `close`.
    #[verifier::spinoff_prover]
    fn bracketed_args(&mut self, close: TokenType) -> (r: Result<Vec<Expr>, ParseError>)
        requires
            old(self).inv(),
        ensures
            evolves(*old(self), *final(self)),
            r is Ok ==> old(self).current < final(self).current,
            r matches Ok(v) ==> wf_exprs(v@),
            final(self).ps() == g::bracketed_args(
                old(self).ts(),
                old(self).is_in_repl,
                old(self).ps(),
                close,
            ).0,
            (match r {
                Ok(v) => Ok(exprs_view(v@)),
                Err(x) => Err(perr_view(x)),
            }) == g::bracketed_args(old(self).ts(), old(self).is_in_repl, old(self).ps(), close).1,
        decreases old(self).end_pos() - old(self).current, 34int,
    {
        let prev = self.set_ignore_newline(true);
        let args = match self.arguments() {
            Ok(a) => a,
            Err(x) => {
                return Err(x);
            },
        };
        self.set_ignore_newline(prev);
        match self.consume(close) {
            Ok(_) => Ok(args),
            Err(x) => Err(x),
        }
    }

    fn call_index(&mut self, expr: Expr) -> (r: Result<Expr, ParseError>)
        requires
            old(self).inv(),
            wf_expr(expr),
            old(self).checks(TokenType::LEFT_BRACKET),
        ensures
            evolves(*old(self), *final(self)),
            r matches Ok(e) ==> wf_expr(e),
            final(self).ps() == g::call_index(
                old(self).ts(),
                old(self).is_in_repl,
                old(self).ps(),
                expr_view(expr),
            ).0,
            expr_res(r) == g::call_index(
                old(self).ts(),
                old(self).is_in_repl,
                old(self).ps(),
                expr_view(expr),
            ).1,
        decreases old(self).end_pos() - old(self).current, 18int,
    {
        self.advance();
        proof {
            lemma_skip_nl(old(self).ts(), old(self).current + 1);
        }
        let prev = self.set_ignore_newline(true);
        let index = match self.expression() {
            Ok(x) => x,
            Err(e) => {
                return Err(e);
            },
        };
        self.set_ignore_newline(prev);
        if let Err(e) = self.consume(TokenType::RIGHT_BRACKET) {
            return Err(e);
        }
        self.call_rest(Expr::IndexGet(Box::new(expr), Box::new(index)))
    }

    fn call_property(&mut self, expr: Expr) -> (r: Result<Expr, ParseError>)
        requires
            old(self).inv(),
            wf_expr(expr),
            old(self).checks(TokenType::DOT),
        ensures
            evolves(*old(self), *final(self)),
            r matches Ok(e) ==> wf_expr(e),
            final(self).ps() == g::call_property(
                old(self).ts(),
                old(self).is_in_repl,
                old(self).ps(),
                expr_view(expr),
            ).0,
            expr_res(r) == g::call_property(
                old(self).ts(),
                old(self).is_in_repl,
                old(self).ps(),
                expr_view(expr),
            ).1,
        decreases old(self).end_pos() - old(self).current, 18int,
    {
        self.advance();
        proof {
            lemma_skip_nl(old(self).ts(), old(self).current + 1);
        }
        match self.consume(TokenType::IDENTIFIER) {
            Ok(name) => self.call_rest(Expr::Get(Box::new(expr), name)),
            Err(e) => Err(e),
        }
    }

    /// A property read may start on the next line.
    fn call_property_on_next_line(&mut self, expr: Expr) -> (r: Result<Expr, ParseError>)
        requires
            old(self).inv(),
            wf_expr(expr),
            old(self).checks(TokenType::NEWLINE),
            g::next_non_newline(old(self).ts(), old(self).ps()).token_type == TokenType::DOT,
        ensures
            evolves(*old(self), *final(self)),
            r matches Ok(e) ==> wf_expr(e),
            final(self).ps() == g::call_property_next_line(
                old(self).ts(),
                old(self).is_in_repl,
                old(self).ps(),
                expr_view(expr),
            ).0,
            expr_res(r) == g::call_property_next_line(
                old(self).ts(),
                old(self).is_in_repl,
                old(self).ps(),
                expr_view(expr),
            ).1,
        decreases old(self).end_pos() - old(self).current, 18int,
    {
        self.skip_newlines();
        if let Err(e) = self.consume(TokenType::DOT) {
            return Err(e);
        }
        match self.consume(TokenType::IDENTIFIER) {
            Ok(name) => self.call_rest(Expr::Get(Box::new(expr), name)),
            Err(e) => Err(e),
        }
    }

    fn primary(&mut self) -> (r: Result<Expr, ParseError>)
        requires
            old(self).inv(),
        ensures
            evolves(*old(self), *final(self)),
            r is Ok ==> old(self).current < final(self).current,
            r matches Ok(e) ==> wf_expr(e),
            final(self).ps() == g::primary(old(self).ts(), old(self).is_in_repl, old(self).ps()).0,
            expr_res(r) == g::primary(old(self).ts(), old(self).is_in_repl, old(self).ps()).1,
        decreases old(self).end_pos() - old(self).current, 19int,
    {
        if self.check(TokenType::STRING) || self.check(TokenType::NUMBER) {
            let token = self.advance();
            assert(old(self).ts()[old(self).current as int].token_type == TokenType::STRING
                || old(self).ts()[old(self).current as int].token_type == TokenType::NUMBER);
            proof {
                lemma_skip_nl(old(self).ts(), old(self).current + 1);
            }
            Ok(Expr::Literal(token.literal.unwrap()))
        } else if self.consume(TokenType::TRUE).is_ok() {
            Ok(Expr::Literal(Literal::Boolean(true)))
        } else if self.consume(TokenType::FALSE).is_ok() {
            Ok(Expr::Literal(Literal::Boolean(false)))
        } else if self.consume(TokenType::NIL).is_ok() {
            Ok(Expr::Literal(Literal::Nil))
        } else if let Ok(token) = self.consume(TokenType::IDENTIFIER) {
            Ok(Expr::Variable(token))
        } else if let Ok(token) = self.consume(TokenType::SELF) {
            Ok(Expr::SelfExpr(token))
        } else if self.check(TokenType::SUPER) {
            let token = self.advance();
            proof {
                lemma_skip_nl(old(self).ts(), old(self).current + 1);
            }
            if let Err(x) = self.consume(TokenType::DOT) {
                return Err(x);
            }
            match self.consume(TokenType::IDENTIFIER) {
                Ok(function) => Ok(Expr::SuperExpr(token, function)),
                Err(x) => Err(x),
            }
        } else if self.check(TokenType::LEFT_PAREN) {
            self.advance();
            proof {
                lemma_skip_nl(old(self).ts(), old(self).current + 1);
            }
            self.group()
        } else if self.check(TokenType::LEFT_BRACKET) {
            self.advance();
            proof {
                lemma_skip_nl(old(self).ts(), old(self).current + 1);
            }
            match self.bracketed_args(TokenType::RIGHT_BRACKET) {
                Ok(items) => {
                    proof {
                        lemma_wf_array(items);
                        lemma_array_view(items);
                    }
                    Ok(Expr::Array(items))
                },
                Err(x) => Err(x),
            }
        } else if self.check(TokenType::LEFT_BRACE) {
            self.advance();
            proof {
                lemma_skip_nl(old(self).ts(), old(self).current + 1);
            }
            self.dictionary()
        } else {
            Err(ParseError::Token(self.peek().duplicate(), string_of("Unexpected token."), None))
        }
    }
}

// Other parsing methods
impl Parser {
    /// After an opening parenthesis: an empty tuple, a tuple, or a grouped
    /// expression.
    #[verifier::spinoff_prover]
    fn group(&mut self) -> (r: Result<Expr, ParseError>)
        requires
            old(self).inv(),
        ensures
            evolves(*old(self), *final(self)),
            r is Ok ==> old(self).current < final(self).current,
            r matches Ok(e) ==> wf_expr(e),
            final(self).ps() == g::group(old(self).ts(), old(self).is_in_repl, old(self).ps()).0,
            expr_res(r) == g::group(old(self).ts(), old(self).is_in_repl, old(self).ps()).1,
        decreases old(self).end_pos() - old(self).current, 33int,
    {
        // Line breaks are skipped directly within the parentheses.
        let prev = self.set_ignore_newline(true);
        if self.consume(TokenType::RIGHT_PAREN).is_ok() {
            let empty: Vec<Expr> = Vec::new();
            proof {
                lemma_wf_tuple(empty);
                lemma_tuple_view(empty);
                lemma_exprs_view_empty(empty@);
            }
            return Ok(Expr::Tuple(empty));
        }
        match self.expression() {
            Ok(first) => self.group_rest(prev, first),
            Err(x) => Err(x),
        }
    }

    /// After the first expression in parentheses: more after a comma (a
    /// tuple), or none (the expression itself); then the closing
    /// parenthesis, with the skipping of line breaks set back to `prev`.
    fn group_rest(&mut self, prev: bool, first: Expr) -> (r: Result<Expr, ParseError>)
        requires
            old(self).inv(),
            wf_expr(first),
        ensures
            evolves(*old(self), *final(self)),
            r is Ok ==> old(self).current < final(self).current,
            r matches Ok(e) ==> wf_expr(e),
            final(self).ps() == g::group_rest(
                old(self).ts(),
                old(self).is_in_repl,
                old(self).ps(),
                prev,
                expr_view(first),
            ).0,
            expr_res(r) == g::group_rest(
                old(self).ts(),
                old(self).is_in_repl,
                old(self).ps(),
                prev,
                expr_view(first),
            ).1,
        decreases old(self).end_pos() - old(self).current, 32int,
    {
        if self.consume(TokenType::COMMA).is_ok() {
            let mut exprs = match self.arguments() {
                Ok(v) => v,
                Err(x) => {
                    return Err(x);
                },
            };
            let ghost before = exprs@;
            proof {
                lemma_exprs_view_insert_first(before, first);
            }
            exprs.insert(0, first);
            assert forall|i: int| 0 <= i < exprs@.len() implies wf_expr(#[trigger] exprs@[i]) by {
                if i > 0 {
                    assert(exprs@[i] == before[i - 1]);
                }
            }
            self.set_ignore_newline(prev);
            if let Err(x) = self.consume(TokenType::RIGHT_PAREN) {
                return Err(x);
            }
            proof {
                lemma_wf_tuple(exprs);
                lemma_tuple_view(exprs);
            }
            Ok(Expr::Tuple(exprs))
        } else {
            self.set_ignore_newline(prev);
            match self.consume(TokenType::RIGHT_PAREN) {
                Ok(_) => Ok(first),
                Err(x) => Err(x),
            }
        }
    }

    /// After an opening brace: key-value pairs and the closing brace.
    #[verifier::spinoff_prover]
    fn dictionary(&mut self) -> (r: Result<Expr, ParseError>)
        requires
            old(self).inv(),
        ensures
            evolves(*old(self), *final(self)),
            r is Ok ==> old(self).current < final(self).current,
            r matches Ok(e) ==> wf_expr(e),
            final(self).ps() == g::dictionary(old(self).ts(), old(self).is_in_repl, old(self).ps()).0,
            expr_res(r) == g::dictionary(old(self).ts(), old(self).is_in_repl, old(self).ps()).1,
        decreases old(self).end_pos() - old(self).current, 35int,
    {
        let ghost ts = old(self).ts();
        let ghost repl = old(self).is_in_repl;
        let ghost s1 = old(self).ps();
        let prev = self.set_ignore_newline(true);
        let ghost s2 = self.ps();
        assert(s2 == g::set_ignore(ts, s1, true));
        let res = self.key_value_pairs();
        let ghost kv = g::key_value_pairs(ts, repl, s2);
        assert(self.ps() == kv.0);
        let pairs = match res {
            Ok(v) => v,
            Err(x) => {
                assert(kv.1 == Err::<Seq<(ExprV, ExprV)>, PErr>(perr_view(x)));
                assert(g::dictionary(ts, repl, s1).0 == kv.0);
                return Err(x);
            },
        };
        assert(kv.1 == Ok::<Seq<(ExprV, ExprV)>, PErr>(pairs_view(pairs@)));
        self.set_ignore_newline(prev);
        let ghost s4 = self.ps();
        assert(s4 == g::set_ignore(ts, kv.0, s1.ignore_nl));
        if let Err(x) = self.consume(TokenType::RIGHT_BRACE) {
            return Err(x);
        }
        proof {
            lemma_wf_dictionary(pairs);
            lemma_dictionary_view(pairs);
        }
        Ok(Expr::Dictionary(pairs))
    }

    fn parameters(&mut self) -> (r: Result<Vec<Token>, ParseError>)
        requires
            old(self).inv(),
        ensures
            evolves(*old(self), *final(self)),
            r is Ok,
            final(self).ps() == g::parameters(old(self).ts(), old(self).ps()).0,
            r matches Ok(v) && tokens_view(v@) == g::parameters(old(self).ts(), old(self).ps()).1,
    {
        let mut parameters: Vec<Token> = Vec::new();
        assert(tokens_view(parameters@) =~= Seq::<TokenView>::empty());
        loop
            invariant_except_break
                g::params_loop(old(self).ts(), old(self).ps(), Seq::empty()) == g::params_loop(
                    self.ts(),
                    self.ps(),
                    tokens_view(parameters@),
                ),
            invariant
                evolves(*old(self), *self),
            ensures
                g::params_loop(old(self).ts(), old(self).ps(), Seq::empty()).0 == self.ps(),
                g::params_loop(old(self).ts(), old(self).ps(), Seq::empty()).1 == tokens_view(
                    parameters@,
                ),
            decreases self.end_pos() - self.current,
        {
            let ghost before = tokens_view(parameters@);
            if let Ok(token) = self.consume(TokenType::IDENTIFIER) {
                parameters.push(token);
                assert(tokens_view(parameters@) =~= before.push(token@));
                if self.consume(TokenType::COMMA).is_ok() {
                    continue ;
                }
            }
            break ;
        }
        Ok(parameters)
    }

    fn arguments(&mut self) -> (r: Result<Vec<Expr>, ParseError>)
        requires
            old(self).inv(),
        ensures
            evolves(*old(self), *final(self)),
            r matches Ok(v) ==> wf_exprs(v@),
            final(self).ps() == g::arguments(old(self).ts(), old(self).is_in_repl, old(self).ps()).0,
            (match r {
                Ok(v) => Ok(exprs_view(v@)),
                Err(x) => Err(perr_view(x)),
            }) == g::arguments(old(self).ts(), old(self).is_in_repl, old(self).ps()).1,
        decreases old(self).end_pos() - old(self).current, 33int,
    {
        let mut arguments: Vec<Expr> = Vec::new();
        proof {
            lemma_exprs_view_empty(arguments@);
        }
        loop
            invariant_except_break
                g::args_loop(old(self).ts(), old(self).is_in_repl, old(self).ps(), Seq::empty()).0
                    == g::args_loop(
                    old(self).ts(),
                    old(self).is_in_repl,
                    self.ps(),
                    exprs_view(arguments@),
                ).0,
                g::args_loop(old(self).ts(), old(self).is_in_repl, old(self).ps(), Seq::empty()).1
                    == g::args_loop(
                    old(self).ts(),
                    old(self).is_in_repl,
                    self.ps(),
                    exprs_view(arguments@),
                ).1,
            invariant
                evolves(*old(self), *self),
                wf_exprs(arguments@),
            ensures
                g::args_loop(old(self).ts(), old(self).is_in_repl, old(self).ps(), Seq::empty()).0
                    == self.ps(),
                g::args_loop(old(self).ts(), old(self).is_in_repl, old(self).ps(), Seq::empty()).1
                    == Ok::<Seq<ExprV>, PErr>(exprs_view(arguments@)),
            decreases self.end_pos() - self.current,
        {
            let ghost before = arguments@;
            if let Ok(expr) = self.expression() {
                arguments.push(expr);
                proof {
                    lemma_exprs_view_push(before, arguments@.last());
                    assert(before.push(arguments@.last()) =~= arguments@);
                }
                if self.consume(TokenType::COMMA).is_ok() {
                    continue ;
                }
            }
            break ;
        }
        Ok(arguments)
    }

    fn key_value_pairs(&mut self) -> (r: Result<Vec<(Expr, Expr)>, ParseError>)
        requires
            old(self).inv(),
        ensures
            evolves(*old(self), *final(self)),
            r matches Ok(v) ==> wf_pairs(v@),
            final(self).ps() == g::key_value_pairs(old(self).ts(), old(self).is_in_repl, old(self).ps()).0,
            (match r {
                Ok(v) => Ok(pairs_view(v@)),
                Err(x) => Err(perr_view(x)),
            }) == g::key_value_pairs(old(self).ts(), old(self).is_in_repl, old(self).ps()).1,
        decreases old(self).end_pos() - old(self).current, 33int,
    {
        let mut pairs: Vec<(Expr, Expr)> = Vec::new();
        proof {
            lemma_pairs_view_empty(pairs@);
        }
        loop
            invariant_except_break
                g::pairs_loop(old(self).ts(), old(self).is_in_repl, old(self).ps(), Seq::empty()).0
                    == g::pairs_loop(
                    old(self).ts(),
                    old(self).is_in_repl,
                    self.ps(),
                    pairs_view(pairs@),
                ).0,
                g::pairs_loop(old(self).ts(), old(self).is_in_repl, old(self).ps(), Seq::empty()).1
                    == g::pairs_loop(
                    old(self).ts(),
                    old(self).is_in_repl,
                    self.ps(),
                    pairs_view(pairs@),
                ).1,
            invariant
                evolves(*old(self), *self),
                forall|i: int|
                    0 <= i < pairs@.len() ==> wf_expr((#[trigger] pairs@[i]).0) && wf_expr(
                        pairs@[i].1,
                    ),
            ensures
                g::pairs_loop(old(self).ts(), old(self).is_in_repl, old(self).ps(), Seq::empty()).0
                    == self.ps(),
                g::pairs_loop(old(self).ts(), old(self).is_in_repl, old(self).ps(), Seq::empty()).1
                    == Ok::<Seq<(ExprV, ExprV)>, PErr>(pairs_view(pairs@)),
            decreases self.end_pos() - self.current,
        {
            let ghost before = pairs@;
            if let Ok(key) = self.expression() {
                if let Err(e) = self.consume(TokenType::COLON) {
                    return Err(e);
                }
                let value = match self.expression() {
                    Ok(v) => v,
                    Err(e) => {
                        return Err(e);
                    },
                };
                let ghost kv = (expr_view(key), expr_view(value));
                pairs.push((key, value));
                proof {
                    lemma_pairs_view_push(before, pairs@.last());
                    assert(before.push(pairs@.last()) =~= pairs@);
                }
                if self.consume(TokenType::COMMA).is_ok() {
                    continue ;
                }
            }
            break ;
        }
        assert(wf_pairs(pairs@));
        Ok(pairs)
    }
}

// Helper functions
impl Parser {
    fn is_at_end(&self) -> (r: bool)
        requires
            self.inv(),
        ensures
            r == self.at_end(),
    {
        proof {
            lemma_not_after_end(*self);
        }
        self.peek().token_type == TokenType::EOF
    }

    fn check(&self, token_type: TokenType) -> (r: bool)
        requires
            self.inv(),
        ensures
            r == self.checks(token_type),
    {
        !self.is_at_end() && self.peek().token_type == token_type
    }

    fn peek(&self) -> (r: &Token)
        requires
            self.inv(),
        ensures
            r@ == self.ts()[self.current as int],
    {
        &self.tokens[self.current]
    }

    /// The first token after the current one that is not a line break.
    fn peek_next_non_newline(&self) -> (r: &Token)
        requires
            self.inv(),
            !self.at_end(),
        ensures
            r@ == self.ts()[skip_nl(self.ts(), self.current + 1)],
            r@ == g::next_non_newline(self.ts(), self.ps()),
    {
        let mut index = self.current + 1;
        proof {
            lemma_skip_nl(self.ts(), index as int);
        }
        while self.tokens[index].token_type == TokenType::NEWLINE && index < self.tokens.len()
            invariant
                self.inv(),
                self.current < index < self.tokens.len(),
                skip_nl(self.ts(), index as int) == skip_nl(self.ts(), self.current + 1),
                skip_nl(self.ts(), index as int) < self.ts().len(),
            decreases self.tokens.len() - index,
        {
            proof {
                lemma_skip_nl(self.ts(), index as int);
            }
            index = index + 1;
            proof {
                lemma_skip_nl(self.ts(), index as int);
            }
        }
        &self.tokens[index]
    }

    /// Returns the current token and moves past it (and past line breaks
    /// when they are ignored), keeping track of the bracket nesting depth.
    fn advance(&mut self) -> (r: Token)
        requires
            old(self).inv(),
        ensures
            evolves(*old(self), *final(self)),
            r@ == old(self).ts()[old(self).current as int],
            final(self).current == if old(self).at_end() {
                old(self).current as int
            } else if old(self).ignore_newline {
                skip_nl(old(self).ts(), old(self).current + 1)
            } else {
                old(self).current + 1
            },
            final(self).nested_level == nest(old(self).nested_level, r.token_type),
            final(self).ignore_newline == old(self).ignore_newline,
            final(self).statement_nested_level == old(self).statement_nested_level,
            final(self).is_in_unfinished_blk == old(self).is_in_unfinished_blk,
            final(self).error_handler == old(self).error_handler,
            final(self).ps() == g::advance(old(self).ts(), old(self).ps()),
    {
        let token = self.peek().duplicate();
        if !self.is_at_end() {
            self.current = self.current + 1;
            if self.ignore_newline {
                self.skip_newlines();
            }
        }
        let t = token.token_type;
        if t == TokenType::LEFT_PAREN || t == TokenType::LEFT_BRACKET || t == TokenType::LEFT_BRACE {
            self.nested_level = self.nested_level.wrapping_add(1);
        } else if t == TokenType::RIGHT_PAREN || t == TokenType::RIGHT_BRACKET || t
            == TokenType::RIGHT_BRACE {
            self.nested_level = self.nested_level.wrapping_sub(1);
        }
        token
    }

    /// Consumes the current token and returns it if it has the given type;
    /// otherwise returns an error and changes nothing.
    fn consume(&mut self, token_type: TokenType) -> (r: Result<Token, ParseError>)
        requires
            old(self).inv(),
        ensures
            r is Ok <==> old(self).checks(token_type),
            match r {
                Ok(t) => {
                    &&& evolves(*old(self), *final(self))
                    &&& old(self).current < final(self).current
                    &&& t@ == old(self).ts()[old(self).current as int]
                    &&& t.token_type == token_type
                    &&& final(self).ignore_newline == old(self).ignore_newline
                    &&& final(self).is_in_unfinished_blk == old(self).is_in_unfinished_blk
                    &&& final(self).error_handler == old(self).error_handler
                },
                Err(_) => *final(self) == *old(self),
            },
            final(self).ps() == g::consume(old(self).ts(), old(self).ps(), token_type).0,
            token_res(r) == g::consume(old(self).ts(), old(self).ps(), token_type).1,
    {
        if self.check(token_type) {
            let t = self.advance();
            proof {
                lemma_skip_nl(old(self).ts(), old(self).current + 1);
            }
            Ok(t)
        } else {
            let token = self.peek().duplicate();
            let mut message = string_of("Unexpected token, expected type ");
            let name = token_type_string(token_type);
            message.append(name.as_str());
            message.append(".");
            assert(message@ =~= g::expected_message(token_type));
            Err(ParseError::Token(token, message, Some(token_type)))
        }
    }

    /// Consumes at least one line break and skips the rest; at the end of
    /// the input there is nothing to consume.
    fn consume_newline(&mut self) -> (r: Result<(), ParseError>)
        requires
            old(self).inv(),
        ensures
            evolves(*old(self), *final(self)),
            final(self).ignore_newline == old(self).ignore_newline,
            final(self).is_in_unfinished_blk == old(self).is_in_unfinished_blk,
            final(self).error_handler == old(self).error_handler,
            r is Err ==> *final(self) == *old(self),
            final(self).ps() == g::consume_newline(old(self).ts(), old(self).ps()).0,
            r is Ok == g::consume_newline(old(self).ts(), old(self).ps()).1,
    {
        if !self.is_at_end() {
            if let Err(e) = self.consume(TokenType::NEWLINE) {
                return Err(e);
            }
            self.skip_newlines();
        }
        Ok(())
    }

    /// Skips line breaks.
    fn skip_newlines(&mut self)
        requires
            old(self).inv(),
        ensures
            evolves(*old(self), *final(self)),
            final(self).current == skip_nl(old(self).ts(), old(self).current as int),
            final(self).nested_level == old(self).nested_level,
            final(self).ignore_newline == old(self).ignore_newline,
            final(self).statement_nested_level == old(self).statement_nested_level,
            final(self).is_in_unfinished_blk == old(self).is_in_unfinished_blk,
            final(self).error_handler == old(self).error_handler,
            final(self).ps() == g::skip_newlines(old(self).ts(), old(self).ps()),
    {
        proof {
            lemma_skip_nl(self.ts(), self.current as int);
        }
        while self.tokens[self.current].token_type == TokenType::NEWLINE
            invariant
                evolves(*old(self), *self),
                skip_nl(self.ts(), self.current as int) == skip_nl(
                    old(self).ts(),
                    old(self).current as int,
                ),
                self.nested_level == old(self).nested_level,
                self.ignore_newline == old(self).ignore_newline,
                self.statement_nested_level == old(self).statement_nested_level,
                self.is_in_unfinished_blk == old(self).is_in_unfinished_blk,
                self.error_handler == old(self).error_handler,
            decreases self.tokens.len() - self.current,
        {
            assert(self.ts()[self.current as int].token_type == TokenType::NEWLINE);
            assert(self.current != self.ts().len() - 1);
            self.current = self.current + 1;
        }
        assert(self.ts()[self.current as int].token_type != TokenType::NEWLINE);
    }

    /// Sets whether line breaks are ignored (skipping them now if they
    /// are) and returns the previous setting.
    fn set_ignore_newline(&mut self, value: bool) -> (r: bool)
        requires
            old(self).inv(),
        ensures
            evolves(*old(self), *final(self)),
            r == old(self).ignore_newline,
            final(self).ignore_newline == value,
            final(self).is_in_unfinished_blk == old(self).is_in_unfinished_blk,
            final(self).error_handler == old(self).error_handler,
            final(self).ps() == g::set_ignore(old(self).ts(), old(self).ps(), value),
    {
        let prev = self.ignore_newline;
        self.ignore_newline = value;
        if self.ignore_newline {
            self.skip_newlines();
        }
        prev
    }
}

} // verus!

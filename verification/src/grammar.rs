//! What the parser does, stated over token views: for each rule of the
//! grammar, the parser state it leaves and the syntax tree (or error) it
//! gives, from the state it starts in.
//!
//! Positions never move back. Where a rule goes on from the state that
//! another rule of the same recursion left, the definitions below say what
//! happens if that state were behind the one it started from; that case
//! never arises (the parser proves it), and the comparison is there only so
//! that the definitions visibly end.
use vstd::prelude::*;
use crate::ast::{ExprV, StmtV};
use crate::error_handler::{report_text, token_where};
use crate::token::{LiteralView, TokenType, TokenView, token_type_text};

verus! {

/// The parser's state: where it reads, whether line breaks are skipped,
/// the bracket nesting depth now and at the start of the statement, whether
/// an open block was left unfinished, and the errors reported.
pub struct PState {
    pub pos: int,
    pub ignore_nl: bool,
    pub nested: u32,
    pub stmt_nested: u32,
    pub unfinished: bool,
    pub had_error: bool,
    pub errors: Seq<Seq<char>>,
}

/// The state a parser starts in.
pub open spec fn start_state() -> PState {
    PState {
        pos: 0,
        ignore_nl: false,
        nested: 0,
        stmt_nested: 0,
        unfinished: false,
        had_error: false,
        errors: Seq::empty(),
    }
}

/// A syntax error: at a token (with the token type that was expected there,
/// if a token was missing), or on a line.
pub enum PErr {
    Token(TokenView, Seq<char>, Option<TokenType>),
    Line(nat, Seq<char>),
}

/// The error in the case that never arises (a rule leaving a state behind
/// the one it started from).
pub open spec fn stuck() -> PErr {
    PErr::Line(0, Seq::empty())
}

/// How far a position is from the end of the tokens.
pub open spec fn rem(ts: Seq<TokenView>, pos: int) -> nat {
    if pos < ts.len() {
        (ts.len() - pos) as nat
    } else {
        0
    }
}

/// The first position at or after `i` that does not hold a line break.
pub open spec fn skip_nl(ts: Seq<TokenView>, i: int) -> int
    decreases ts.len() - i,
{
    if 0 <= i < ts.len() && ts[i].token_type == TokenType::NEWLINE {
        skip_nl(ts, i + 1)
    } else {
        i
    }
}

/// Skipping line breaks never moves back.
pub proof fn lemma_skip_nl_ge(ts: Seq<TokenView>, i: int)
    ensures
        skip_nl(ts, i) >= i,
    decreases ts.len() - i,
{
    if 0 <= i < ts.len() && ts[i].token_type == TokenType::NEWLINE {
        lemma_skip_nl_ge(ts, i + 1);
    }
}

/// How the nesting depth of brackets changes when a token is passed.
pub open spec fn nest(level: u32, t: TokenType) -> u32 {
    if t == TokenType::LEFT_PAREN || t == TokenType::LEFT_BRACKET || t == TokenType::LEFT_BRACE {
        if level == u32::MAX {
            0
        } else {
            (level + 1) as u32
        }
    } else if t == TokenType::RIGHT_PAREN || t == TokenType::RIGHT_BRACKET || t
        == TokenType::RIGHT_BRACE {
        if level == 0 {
            u32::MAX
        } else {
            (level - 1) as u32
        }
    } else {
        level
    }
}

/// The parser stands on the end-of-file token, the last of the tokens.
pub open spec fn at_end(ts: Seq<TokenView>, st: PState) -> bool {
    !(0 <= st.pos < ts.len() - 1)
}

/// The current token has type `t` (and is not the end of the input).
pub open spec fn checks(ts: Seq<TokenView>, st: PState, t: TokenType) -> bool {
    !at_end(ts, st) && ts[st.pos].token_type == t
}

/// Moves past the current token (and past line breaks when they are
/// skipped), following the bracket nesting depth.
pub open spec fn advance(ts: Seq<TokenView>, st: PState) -> PState {
    PState {
        pos: if at_end(ts, st) {
            st.pos
        } else if st.ignore_nl {
            skip_nl(ts, st.pos + 1)
        } else {
            st.pos + 1
        },
        nested: nest(st.nested, ts[st.pos].token_type),
        ..st
    }
}

/// Skips line breaks.
pub open spec fn skip_newlines(ts: Seq<TokenView>, st: PState) -> PState {
    PState { pos: skip_nl(ts, st.pos), ..st }
}

/// Sets whether line breaks are skipped, skipping them now if they are.
pub open spec fn set_ignore(ts: Seq<TokenView>, st: PState, value: bool) -> PState {
    let s = PState { ignore_nl: value, ..st };
    if value {
        skip_newlines(ts, s)
    } else {
        s
    }
}

/// The message of an error for a missing token of type `t`.
pub open spec fn expected_message(t: TokenType) -> Seq<char> {
    "Unexpected token, expected type "@ + token_type_text(t) + "."@
}

/// Takes the current token if it has type `t`.
pub open spec fn consume(ts: Seq<TokenView>, st: PState, t: TokenType) -> (PState, Result<
    TokenView,
    PErr,
>) {
    if checks(ts, st, t) {
        (advance(ts, st), Ok(ts[st.pos]))
    } else {
        (st, Err(PErr::Token(ts[st.pos], expected_message(t), Some(t))))
    }
}

/// Takes at least one line break and skips the rest; at the end of the
/// input there is nothing to take. Tells whether it succeeded.
pub open spec fn consume_newline(ts: Seq<TokenView>, st: PState) -> (PState, bool) {
    if at_end(ts, st) {
        (st, true)
    } else if checks(ts, st, TokenType::NEWLINE) {
        (skip_newlines(ts, advance(ts, st)), true)
    } else {
        (st, false)
    }
}

/// Skips to the end of the statement: past a line break at the nesting
/// depth the statement started at, or to the end of the input.
pub open spec fn sync_loop(ts: Seq<TokenView>, st: PState) -> PState
    decreases rem(ts, st.pos),
{
    if at_end(ts, st) {
        st
    } else {
        let t = ts[st.pos];
        let s = advance(ts, st);
        proof {
            lemma_skip_nl_ge(ts, st.pos + 1);
        }
        if s.nested <= s.stmt_nested && t.token_type == TokenType::NEWLINE {
            s
        } else {
            sync_loop(ts, s)
        }
    }
}

pub open spec fn synchronize(ts: Seq<TokenView>, st: PState) -> PState {
    set_ignore(ts, sync_loop(ts, st), false)
}

/// Records an error at a token.
pub open spec fn token_error(st: PState, t: TokenView, message: Seq<char>) -> PState {
    PState {
        had_error: true,
        errors: st.errors.push(report_text(Some(t.line), token_where(t), message)),
        ..st
    }
}

/// Records an error on a line.
pub open spec fn line_error(st: PState, line: nat, message: Seq<char>) -> PState {
    PState {
        had_error: true,
        errors: st.errors.push(report_text(Some(line), Seq::empty(), message)),
        ..st
    }
}

/// Reports a syntax error after skipping to the end of the statement. At
/// an interactive prompt a missing `}` is no error: the block is marked
/// unfinished.
pub open spec fn handle_error(ts: Seq<TokenView>, repl: bool, st: PState, e: PErr) -> PState {
    let s = synchronize(ts, st);
    match e {
        PErr::Token(t, m, expected) => if repl && expected == Some(TokenType::RIGHT_BRACE) {
            PState { unfinished: true, ..s }
        } else {
            token_error(s, t, m)
        },
        PErr::Line(l, m) => line_error(s, l, m),
    }
}

proof fn lemma_sync_keeps(ts: Seq<TokenView>, st: PState)
    ensures
        sync_loop(ts, st).unfinished == st.unfinished,
        sync_loop(ts, st).had_error == st.had_error,
        sync_loop(ts, st).errors == st.errors,
    decreases rem(ts, st.pos),
{
    if !at_end(ts, st) {
        let s = advance(ts, st);
        lemma_skip_nl_ge(ts, st.pos + 1);
        let t = ts[st.pos];
        if !(s.nested <= s.stmt_nested && t.token_type == TokenType::NEWLINE) {
            lemma_sync_keeps(ts, s);
        }
    }
}

/// A syntax error marks the block unfinished exactly when it is a missing
/// `}` at an interactive prompt, and is then not reported; any other error
/// is reported with one message. Nothing else about the error changes the
/// flag.
pub proof fn lemma_handle_error_unfinished(ts: Seq<TokenView>, repl: bool, st: PState, e: PErr)
    ensures
        ({
            let r = handle_error(ts, repl, st, e);
            let swallowed = repl && (e matches PErr::Token(_, _, expected) && expected == Some(
                TokenType::RIGHT_BRACE,
            ));
            &&& r.unfinished == (st.unfinished || swallowed)
            &&& swallowed ==> r.errors == st.errors && r.had_error == st.had_error
            &&& !swallowed ==> r.errors.len() == st.errors.len() + 1 && r.had_error
        }),
{
    lemma_sync_keeps(ts, st);
}

pub open spec fn newline_message() -> Seq<char> {
    "Expected newline after statement."@
}

pub open spec fn handle_newline_error(ts: Seq<TokenView>, repl: bool, st: PState) -> PState {
    handle_error(ts, repl, st, PErr::Token(ts[st.pos], newline_message(), None))
}

/// The identifiers of a parameter list, separated by commas.
pub open spec fn params_loop(ts: Seq<TokenView>, st: PState, acc: Seq<TokenView>) -> (
    PState,
    Seq<TokenView>,
)
    decreases rem(ts, st.pos),
{
    let (s1, r) = consume(ts, st, TokenType::IDENTIFIER);
    match r {
        Ok(t) => {
            let (s2, c) = consume(ts, s1, TokenType::COMMA);
            proof {
                lemma_skip_nl_ge(ts, st.pos + 1);
                lemma_skip_nl_ge(ts, s1.pos + 1);
            }
            if c is Ok {
                params_loop(ts, s2, acc.push(t))
            } else {
                (s2, acc.push(t))
            }
        },
        Err(_) => (s1, acc),
    }
}

pub open spec fn parameters(ts: Seq<TokenView>, st: PState) -> (PState, Seq<TokenView>) {
    params_loop(ts, st, Seq::empty())
}

/// The unary operators in front of an operand.
pub open spec fn unary_ops(ts: Seq<TokenView>, st: PState, acc: Seq<TokenView>) -> (
    PState,
    Seq<TokenView>,
)
    decreases rem(ts, st.pos),
{
    if checks(ts, st, TokenType::BANG) || checks(ts, st, TokenType::MINUS) || checks(
        ts,
        st,
        TokenType::NOT,
    ) {
        proof {
            lemma_skip_nl_ge(ts, st.pos + 1);
        }
        unary_ops(ts, advance(ts, st), acc.push(ts[st.pos]))
    } else {
        (st, acc)
    }
}

/// `ops` applied to `e`, the first operator outermost.
pub open spec fn wrap_unary(ops: Seq<TokenView>, e: ExprV) -> ExprV
    decreases ops.len(),
{
    if ops.len() == 0 {
        e
    } else {
        ExprV::Unary(ops[0], Box::new(wrap_unary(ops.drop_first(), e)))
    }
}

/// The position of the first token after the current one that is not a
/// line break.
pub open spec fn next_non_newline(ts: Seq<TokenView>, st: PState) -> TokenView {
    ts[skip_nl(ts, st.pos + 1)]
}

pub open spec fn literal_of(t: TokenView) -> ExprV {
    match t.literal {
        Some(l) => ExprV::Literal(l),
        None => ExprV::Literal(LiteralView::Nil),
    }
}

pub open spec fn is_assignment_sign(t: TokenType) -> bool {
    ||| t == TokenType::EQUAL
    ||| t == TokenType::PLUS_EQUAL
    ||| t == TokenType::MINUS_EQUAL
    ||| t == TokenType::STAR_EQUAL
    ||| t == TokenType::SLASH_EQUAL
    ||| t == TokenType::PLUS_PLUS
    ||| t == TokenType::MINUS_MINUS
}

pub open spec fn assign_message() -> Seq<char> {
    "Cannot use assignment."@
}

pub open spec fn unexpected_message() -> Seq<char> {
    "Unexpected token."@
}

/// The target of an assignment decides its kind.
pub open spec fn assign_to(target: ExprV, sign: TokenView, value: ExprV) -> Option<ExprV> {
    match target {
        ExprV::Get(o, n) => Some(ExprV::SetProperty(o, n, Box::new(value))),
        ExprV::IndexGet(a, i) => Some(ExprV::IndexSet(a, i, Box::new(value))),
        ExprV::Variable(v) => Some(ExprV::Assign(v, sign, Box::new(value))),
        _ => None,
    }
}

// The rules of the grammar. Each takes the tokens, whether the parser runs
// for an interactive prompt, and the state it starts in.

pub open spec fn program(ts: Seq<TokenView>, repl: bool, st: PState) -> (PState, Seq<StmtV>) {
    let (s, v) = program_loop(ts, repl, skip_newlines(ts, st), Seq::empty());
    (advance(ts, s), v)
}

/// Declarations up to the end of the input; one with an error is left out,
/// and so is one not followed by a line break (which is reported).
pub open spec fn program_loop(ts: Seq<TokenView>, repl: bool, st: PState, acc: Seq<StmtV>) -> (
    PState,
    Seq<StmtV>,
)
    decreases rem(ts, st.pos),
{
    if at_end(ts, st) {
        (st, acc)
    } else {
        let (s1, d) = declaration(ts, repl, st);
        let (s2, acc2) = match d {
            Some(x) => {
                let (s, ok) = consume_newline(ts, s1);
                if ok {
                    (s, acc.push(x))
                } else {
                    (handle_newline_error(ts, repl, s), acc)
                }
            },
            None => (s1, acc),
        };
        if s2.pos <= st.pos {
            (s2, acc2)
        } else {
            program_loop(ts, repl, s2, acc2)
        }
    }
}

pub open spec fn declaration(ts: Seq<TokenView>, repl: bool, st: PState) -> (PState, Option<
    StmtV,
>)
    decreases rem(ts, st.pos), 40int,
{
    let s0 = skip_newlines(ts, st);
    let s1 = PState { stmt_nested: s0.nested, ..s0 };
    proof {
        lemma_skip_nl_ge(ts, st.pos);
    }
    let tt = ts[s1.pos].token_type;
    let (s2, r) = if tt == TokenType::CLASS {
        class_decl(ts, repl, s1)
    } else if tt == TokenType::FUN {
        fun_decl(ts, repl, s1)
    } else if tt == TokenType::LET {
        var_decl(ts, repl, s1)
    } else {
        statement(ts, repl, s1)
    };
    match r {
        Ok(x) => (s2, Some(x)),
        Err(e) => (handle_error(ts, repl, s2, e), None),
    }
}

pub open spec fn class_decl(ts: Seq<TokenView>, repl: bool, st: PState) -> (PState, Result<
    StmtV,
    PErr,
>)
    decreases rem(ts, st.pos), 39int,
{
    let (s1, r1) = consume(ts, st, TokenType::CLASS);
    if let Err(e) = r1 {
        (s1, Err(e))
    } else {
        let (s2, r2) = consume(ts, s1, TokenType::IDENTIFIER);
        if let Err(e) = r2 {
            (s2, Err(e))
        } else {
            let name = r2->Ok_0;
            let (s3, r3) = consume(ts, s2, TokenType::FROM);
            let (s4, sup) = if r3 is Ok {
                let (s, r) = consume(ts, s3, TokenType::IDENTIFIER);
                match r {
                    Ok(t) => (s, Ok(Some(t))),
                    Err(e) => (s, Err(e)),
                }
            } else {
                (s3, Ok(None))
            };
            if let Err(e) = sup {
                (s4, Err(e))
            } else {
                let (s5, r5) = consume(ts, s4, TokenType::LEFT_BRACE);
                if let Err(e) = r5 {
                    (s5, Err(e))
                } else {
                    proof {
                        lemma_skip_nl_ge(ts, st.pos + 1);
                        lemma_skip_nl_ge(ts, s1.pos + 1);
                        lemma_skip_nl_ge(ts, s2.pos + 1);
                        lemma_skip_nl_ge(ts, s3.pos + 1);
                        lemma_skip_nl_ge(ts, s4.pos + 1);
                    }
                    class_body(ts, repl, s5, name, sup->Ok_0)
                }
            }
        }
    }
}

/// The methods of the class `name` after its opening brace, and the
/// closing brace.
pub open spec fn class_body(
    ts: Seq<TokenView>,
    repl: bool,
    st: PState,
    name: TokenView,
    sup: Option<TokenView>,
) -> (PState, Result<StmtV, PErr>)
    decreases rem(ts, st.pos), 40int,
{
    proof {
        lemma_skip_nl_ge(ts, st.pos);
    }
    let (s6, fs) = class_methods(ts, repl, skip_newlines(ts, st), Seq::empty());
    if let Err(e) = fs {
        (s6, Err(e))
    } else {
        let (s7, r7) = consume(ts, s6, TokenType::RIGHT_BRACE);
        if let Err(e) = r7 {
            (s7, Err(e))
        } else {
            (s7, Ok(StmtV::Class(name, sup, fs->Ok_0)))
        }
    }
}

/// The methods of a class, up to its closing brace.
pub open spec fn class_methods(
    ts: Seq<TokenView>,
    repl: bool,
    st: PState,
    acc: Seq<StmtV>,
) -> (PState, Result<Seq<StmtV>, PErr>)
    decreases rem(ts, st.pos), 39int,
{
    if checks(ts, st, TokenType::RIGHT_BRACE) || at_end(ts, st) {
        (st, Ok(acc))
    } else {
        let (s1, r) = fun_decl(ts, repl, st);
        match r {
            Err(e) => (s1, Err(e)),
            Ok(f) => {
                let s2 = skip_newlines(ts, s1);
                proof {
                    lemma_skip_nl_ge(ts, s1.pos);
                }
                if s1.pos <= st.pos {
                    (s2, Err(stuck()))
                } else {
                    class_methods(ts, repl, s2, acc.push(f))
                }
            },
        }
    }
}

pub open spec fn fun_decl(ts: Seq<TokenView>, repl: bool, st: PState) -> (PState, Result<
    StmtV,
    PErr,
>)
    decreases rem(ts, st.pos), 38int,
{
    let (s1, r1) = consume(ts, st, TokenType::FUN);
    if let Err(e) = r1 {
        (s1, Err(e))
    } else {
        let (s2, r2) = consume(ts, s1, TokenType::IDENTIFIER);
        if let Err(e) = r2 {
            (s2, Err(e))
        } else {
            let (s3, r3) = consume(ts, s2, TokenType::LEFT_PAREN);
            if let Err(e) = r3 {
                (s3, Err(e))
            } else {
                let prev = s3.ignore_nl;
                let s4 = set_ignore(ts, s3, true);
                let (s5, params) = parameters(ts, s4);
                let s6 = set_ignore(ts, s5, prev);
                let (s7, r7) = consume(ts, s6, TokenType::RIGHT_PAREN);
                if let Err(e) = r7 {
                    (s7, Err(e))
                } else {
                    proof {
                        lemma_skip_nl_ge(ts, st.pos + 1);
                        lemma_skip_nl_ge(ts, s1.pos + 1);
                        lemma_skip_nl_ge(ts, s2.pos + 1);
                        lemma_skip_nl_ge(ts, s3.pos);
                        lemma_params_forward(ts, s4, Seq::empty());
                        lemma_skip_nl_ge(ts, s5.pos);
                        lemma_skip_nl_ge(ts, s6.pos + 1);
                    }
                    let (s8, b) = block(ts, repl, s7);
                    match b {
                        Err(e) => (s8, Err(e)),
                        Ok(body) => (
                            s8,
                            Ok(StmtV::Function(r2->Ok_0, params, Box::new(body))),
                        ),
                    }
                }
            }
        }
    }
}

pub open spec fn var_decl(ts: Seq<TokenView>, repl: bool, st: PState) -> (PState, Result<
    StmtV,
    PErr,
>)
    decreases rem(ts, st.pos), 37int,
{
    let (s1, r1) = consume(ts, st, TokenType::LET);
    if let Err(e) = r1 {
        (s1, Err(e))
    } else {
        let (s2, r2) = consume(ts, s1, TokenType::IDENTIFIER);
        if let Err(e) = r2 {
            (s2, Err(e))
        } else {
            let (s3, r3) = consume(ts, s2, TokenType::EQUAL);
            if r3 is Ok {
                proof {
                    lemma_skip_nl_ge(ts, st.pos + 1);
                    lemma_skip_nl_ge(ts, s1.pos + 1);
                    lemma_skip_nl_ge(ts, s2.pos + 1);
                }
                let (s4, e) = expression(ts, repl, s3);
                match e {
                    Err(x) => (s4, Err(x)),
                    Ok(v) => (s4, Ok(StmtV::Variable(r2->Ok_0, Some(v)))),
                }
            } else {
                (s3, Ok(StmtV::Variable(r2->Ok_0, None)))
            }
        }
    }
}

pub open spec fn statement(ts: Seq<TokenView>, repl: bool, st: PState) -> (PState, Result<
    StmtV,
    PErr,
>)
    decreases rem(ts, st.pos), 37int,
{
    let tt = ts[st.pos].token_type;
    if tt == TokenType::LEFT_BRACE {
        brace_statement(ts, repl, st)
    } else if tt == TokenType::FOR {
        for_stmt(ts, repl, st)
    } else if tt == TokenType::PRINT {
        print_stmt(ts, repl, st)
    } else if tt == TokenType::RETURN {
        return_stmt(ts, repl, st)
    } else if tt == TokenType::WHILE {
        while_stmt(ts, repl, st)
    } else if tt == TokenType::BREAK {
        break_stmt(ts, st)
    } else if tt == TokenType::CONTINUE {
        continue_stmt(ts, st)
    } else {
        expr_stmt(ts, repl, st)
    }
}

/// A statement that starts with a brace: a dictionary if key-value pairs
/// and a closing brace follow; otherwise a block, read again from the brace.
pub open spec fn brace_statement(ts: Seq<TokenView>, repl: bool, st: PState) -> (PState, Result<
    StmtV,
    PErr,
>)
    decreases rem(ts, st.pos), 36int,
{
    let (s1, r1) = consume(ts, st, TokenType::LEFT_BRACE);
    if let Err(e) = r1 {
        (s1, Err(e))
    } else {
        let prev = s1.ignore_nl;
        let s2 = set_ignore(ts, s1, true);
        proof {
            lemma_skip_nl_ge(ts, st.pos + 1);
            lemma_skip_nl_ge(ts, s1.pos);
        }
        let (s3, pairs) = key_value_pairs(ts, repl, s2);
        let s4 = set_ignore(ts, s3, prev);
        let (s5, close) = consume(ts, s4, TokenType::RIGHT_BRACE);
        if pairs is Ok && close is Ok {
            (s5, Ok(StmtV::Expression(ExprV::Dictionary(pairs->Ok_0))))
        } else {
            block(ts, repl, PState { pos: st.pos, nested: st.nested, ..s4 })
        }
    }
}

pub open spec fn break_stmt(ts: Seq<TokenView>, st: PState) -> (PState, Result<StmtV, PErr>) {
    let (s, r) = consume(ts, st, TokenType::BREAK);
    match r {
        Ok(t) => (s, Ok(StmtV::Break(t))),
        Err(e) => (s, Err(e)),
    }
}

pub open spec fn continue_stmt(ts: Seq<TokenView>, st: PState) -> (PState, Result<StmtV, PErr>) {
    let (s, r) = consume(ts, st, TokenType::CONTINUE);
    match r {
        Ok(t) => (s, Ok(StmtV::Continue(t))),
        Err(e) => (s, Err(e)),
    }
}

pub open spec fn expr_stmt(ts: Seq<TokenView>, repl: bool, st: PState) -> (PState, Result<
    StmtV,
    PErr,
>)
    decreases rem(ts, st.pos), 34int,
{
    let (s, r) = expression(ts, repl, st);
    match r {
        Ok(e) => (s, Ok(StmtV::Expression(e))),
        Err(e) => (s, Err(e)),
    }
}

pub open spec fn block(ts: Seq<TokenView>, repl: bool, st: PState) -> (PState, Result<
    StmtV,
    PErr,
>)
    decreases rem(ts, st.pos), 35int,
{
    let s0 = skip_newlines(ts, st);
    let (s1, r1) = consume(ts, s0, TokenType::LEFT_BRACE);
    if let Err(e) = r1 {
        (s1, Err(e))
    } else {
        let s2 = skip_newlines(ts, s1);
        let prev = s2.ignore_nl;
        let s3 = set_ignore(ts, s2, false);
        proof {
            lemma_skip_nl_ge(ts, st.pos);
            lemma_skip_nl_ge(ts, s0.pos + 1);
            lemma_skip_nl_ge(ts, s1.pos);
        }
        let (s4, v) = block_loop(ts, repl, s3, Seq::empty());
        let s5 = set_ignore(ts, s4, prev);
        let (s6, r6) = consume(ts, s5, TokenType::RIGHT_BRACE);
        match r6 {
            Err(e) => (s6, Err(e)),
            Ok(_) => (s6, Ok(StmtV::Block(v))),
        }
    }
}

/// The declarations of a block up to its closing brace. A declaration not
/// followed by a line break ends the block if a closing brace follows it,
/// and is reported otherwise.
pub open spec fn block_loop(ts: Seq<TokenView>, repl: bool, st: PState, acc: Seq<StmtV>) -> (
    PState,
    Seq<StmtV>,
)
    decreases rem(ts, st.pos), 41int,
{
    if checks(ts, st, TokenType::RIGHT_BRACE) || at_end(ts, st) {
        (st, acc)
    } else {
        let (s1, d) = declaration(ts, repl, st);
        match d {
            Some(x) => {
                let (s2, ok) = consume_newline(ts, s1);
                if !ok && checks(ts, s2, TokenType::RIGHT_BRACE) {
                    (s2, acc.push(x))
                } else {
                    let s3 = if ok {
                        s2
                    } else {
                        handle_newline_error(ts, repl, s2)
                    };
                    if s3.pos <= st.pos {
                        (s3, acc.push(x))
                    } else {
                        block_loop(ts, repl, s3, acc.push(x))
                    }
                }
            },
            None => if s1.pos <= st.pos {
                (s1, acc)
            } else {
                block_loop(ts, repl, s1, acc)
            },
        }
    }
}

pub open spec fn for_stmt(ts: Seq<TokenView>, repl: bool, st: PState) -> (PState, Result<
    StmtV,
    PErr,
>)
    decreases rem(ts, st.pos), 34int,
{
    let (s1, r1) = consume(ts, st, TokenType::FOR);
    if let Err(e) = r1 {
        (s1, Err(e))
    } else {
        let (s2, r2) = consume(ts, s1, TokenType::IDENTIFIER);
        if let Err(e) = r2 {
            (s2, Err(e))
        } else {
            let (s3, r3) = consume(ts, s2, TokenType::IN);
            if let Err(e) = r3 {
                (s3, Err(e))
            } else {
                proof {
                    lemma_skip_nl_ge(ts, st.pos + 1);
                    lemma_skip_nl_ge(ts, s1.pos + 1);
                    lemma_skip_nl_ge(ts, s2.pos + 1);
                }
                for_rest(ts, repl, s3, r2->Ok_0)
            }
        }
    }
}

/// The iterated expression and the body of a `for` loop over `var`.
pub open spec fn for_rest(ts: Seq<TokenView>, repl: bool, s3: PState, var: TokenView) -> (
    PState,
    Result<StmtV, PErr>,
)
    decreases rem(ts, s3.pos), 29int,
{
    let (s4, r4) = logic_or(ts, repl, s3);
    if let Err(e) = r4 {
        (s4, Err(e))
    } else if s4.pos <= s3.pos || s3.pos >= ts.len() {
        (s4, Err(stuck()))
    } else {
        let (s5, r5) = block(ts, repl, s4);
        match r5 {
            Err(e) => (s5, Err(e)),
            Ok(b) => (s5, Ok(StmtV::For(var, r4->Ok_0, Box::new(b)))),
        }
    }
}

pub open spec fn print_stmt(ts: Seq<TokenView>, repl: bool, st: PState) -> (PState, Result<
    StmtV,
    PErr,
>)
    decreases rem(ts, st.pos), 34int,
{
    let (s1, r1) = consume(ts, st, TokenType::PRINT);
    if let Err(e) = r1 {
        (s1, Err(e))
    } else {
        proof {
            lemma_skip_nl_ge(ts, st.pos + 1);
        }
        let (s2, r2) = expression(ts, repl, s1);
        match r2 {
            Err(e) => (s2, Err(e)),
            Ok(x) => (s2, Ok(StmtV::Print(r1->Ok_0, x))),
        }
    }
}

pub open spec fn return_stmt(ts: Seq<TokenView>, repl: bool, st: PState) -> (PState, Result<
    StmtV,
    PErr,
>)
    decreases rem(ts, st.pos), 34int,
{
    let (s1, r1) = consume(ts, st, TokenType::RETURN);
    if let Err(e) = r1 {
        (s1, Err(e))
    } else if checks(ts, s1, TokenType::NEWLINE) || checks(ts, s1, TokenType::RIGHT_BRACE) {
        (s1, Ok(StmtV::Return(r1->Ok_0, None)))
    } else {
        proof {
            lemma_skip_nl_ge(ts, st.pos + 1);
        }
        let (s2, r2) = expression(ts, repl, s1);
        match r2 {
            Err(e) => (s2, Err(e)),
            Ok(x) => (s2, Ok(StmtV::Return(r1->Ok_0, Some(x)))),
        }
    }
}

pub open spec fn while_stmt(ts: Seq<TokenView>, repl: bool, st: PState) -> (PState, Result<
    StmtV,
    PErr,
>)
    decreases rem(ts, st.pos), 34int,
{
    let (s1, r1) = consume(ts, st, TokenType::WHILE);
    if let Err(e) = r1 {
        (s1, Err(e))
    } else {
        proof {
            lemma_skip_nl_ge(ts, st.pos + 1);
        }
        let (s2, r2) = expression(ts, repl, s1);
        if let Err(e) = r2 {
            (s2, Err(e))
        } else if s2.pos < s1.pos {
            (s2, Err(stuck()))
        } else {
            let (s3, r3) = block(ts, repl, s2);
            match r3 {
                Err(e) => (s3, Err(e)),
                Ok(b) => (s3, Ok(StmtV::While(r2->Ok_0, Box::new(b)))),
            }
        }
    }
}

pub open spec fn expression(ts: Seq<TokenView>, repl: bool, st: PState) -> (PState, Result<
    ExprV,
    PErr,
>)
    decreases rem(ts, st.pos), 32int,
{
    assignment(ts, repl, st)
}

pub open spec fn assignment(ts: Seq<TokenView>, repl: bool, st: PState) -> (PState, Result<
    ExprV,
    PErr,
>)
    decreases rem(ts, st.pos), 31int,
{
    let (s1, r1) = lambda(ts, repl, st);
    if let Err(e) = r1 {
        (s1, Err(e))
    } else if !is_assignment_sign(ts[s1.pos].token_type) {
        (s1, r1)
    } else if s1.pos < st.pos {
        (s1, Err(stuck()))
    } else {
        let sign = ts[s1.pos];
        let s2 = advance(ts, s1);
        proof {
            lemma_skip_nl_ge(ts, s1.pos + 1);
        }
        let (s3, value) = if sign.token_type == TokenType::PLUS_PLUS || sign.token_type
            == TokenType::MINUS_MINUS {
            (s2, Ok(ExprV::Literal(LiteralView::Number("1"@))))
        } else if at_end(ts, s1) {
            (s2, Err(stuck()))
        } else {
            expression(ts, repl, s2)
        };
        match value {
            Err(e) => (s3, Err(e)),
            Ok(v) => match assign_to(r1->Ok_0, sign, v) {
                Some(x) => (s3, Ok(x)),
                None => (s3, Err(PErr::Line(ts[s3.pos].line, assign_message()))),
            },
        }
    }
}

pub open spec fn lambda(ts: Seq<TokenView>, repl: bool, st: PState) -> (PState, Result<
    ExprV,
    PErr,
>)
    decreases rem(ts, st.pos), 30int,
{
    let (s1, r1) = consume(ts, st, TokenType::LAMBDA);
    if r1 is Ok {
        let (s2, params) = parameters(ts, s1);
        let (s3, r3) = consume(ts, s2, TokenType::MINUS_GREATER);
        if let Err(e) = r3 {
            (s3, Err(e))
        } else {
            proof {
                lemma_skip_nl_ge(ts, st.pos + 1);
                lemma_params_forward(ts, s1, Seq::empty());
                lemma_skip_nl_ge(ts, s2.pos + 1);
            }
            let (s4, body) = if checks(ts, s3, TokenType::LEFT_BRACE) {
                block(ts, repl, s3)
            } else {
                let (s, r) = statement(ts, repl, s3);
                match r {
                    Ok(x) => (s, Ok(StmtV::Block(seq![x]))),
                    Err(e) => (s, Err(e)),
                }
            };
            match body {
                Err(e) => (s4, Err(e)),
                Ok(b) => (s4, Ok(ExprV::Lambda(params, Box::new(b)))),
            }
        }
    } else {
        if_expr(ts, repl, st)
    }
}

pub open spec fn if_expr(ts: Seq<TokenView>, repl: bool, st: PState) -> (PState, Result<
    ExprV,
    PErr,
>)
    decreases rem(ts, st.pos), 29int,
{
    let (s1, r1) = consume(ts, st, TokenType::IF);
    if r1 is Ok {
        proof {
            lemma_skip_nl_ge(ts, st.pos + 1);
        }
        let (s2, c) = logic_or(ts, repl, s1);
        if let Err(e) = c {
            (s2, Err(e))
        } else if s2.pos < s1.pos {
            (s2, Err(stuck()))
        } else {
            let (s3, t) = block(ts, repl, s2);
            if let Err(e) = t {
                (s3, Err(e))
            } else if s3.pos < s2.pos {
                (s3, Err(stuck()))
            } else {
                let (s5, el) = else_branch(ts, repl, s3);
                match el {
                    Err(e) => (s5, Err(e)),
                    Ok(x) => (
                        s5,
                        Ok(ExprV::IfExpr(Box::new(c->Ok_0), Box::new(t->Ok_0), Box::new(x))),
                    ),
                }
            }
        }
    } else {
        logic_or(ts, repl, st)
    }
}

/// What follows the first branch of an `if`: `else` and another `if` or a
/// block, or nothing (an empty block).
pub open spec fn else_branch(ts: Seq<TokenView>, repl: bool, st: PState) -> (PState, Result<
    StmtV,
    PErr,
>)
    decreases rem(ts, st.pos), 30int,
{
    let (s4, r4) = consume(ts, st, TokenType::ELSE);
    if r4 is Ok {
        proof {
            lemma_skip_nl_ge(ts, st.pos + 1);
        }
        if ts[s4.pos].token_type == TokenType::IF {
            let (s, r) = if_expr(ts, repl, s4);
            match r {
                Ok(x) => (s, Ok(StmtV::Expression(x))),
                Err(e) => (s, Err(e)),
            }
        } else {
            block(ts, repl, s4)
        }
    } else {
        (s4, Ok(StmtV::Block(Seq::empty())))
    }
}

/// A left-associative chain of binary operations at one level of
/// precedence: operands from `operand`, operators from `ops`.
pub open spec fn logic_or(ts: Seq<TokenView>, repl: bool, st: PState) -> (PState, Result<
    ExprV,
    PErr,
>)
    decreases rem(ts, st.pos), 28int,
{
    let (s1, r1) = logic_and(ts, repl, st);
    if let Err(e) = r1 {
        (s1, Err(e))
    } else if s1.pos < st.pos {
        (s1, Err(stuck()))
    } else {
        or_loop(ts, repl, s1, r1->Ok_0)
    }
}

pub open spec fn or_loop(ts: Seq<TokenView>, repl: bool, st: PState, left: ExprV) -> (
    PState,
    Result<ExprV, PErr>,
)
    decreases rem(ts, st.pos), 27int,
{
    if checks(ts, st, TokenType::OR) {
        let op = ts[st.pos];
        let s1 = advance(ts, st);
        proof {
            lemma_skip_nl_ge(ts, st.pos + 1);
        }
        let (s2, r) = logic_and(ts, repl, s1);
        if let Err(e) = r {
            (s2, Err(e))
        } else if s2.pos < s1.pos {
            (s2, Err(stuck()))
        } else {
            or_loop(ts, repl, s2, ExprV::Binary(Box::new(left), op, Box::new(r->Ok_0)))
        }
    } else {
        (st, Ok(left))
    }
}

pub open spec fn logic_and(ts: Seq<TokenView>, repl: bool, st: PState) -> (PState, Result<
    ExprV,
    PErr,
>)
    decreases rem(ts, st.pos), 27int,
{
    let (s1, r1) = equality(ts, repl, st);
    if let Err(e) = r1 {
        (s1, Err(e))
    } else if s1.pos < st.pos {
        (s1, Err(stuck()))
    } else {
        and_loop(ts, repl, s1, r1->Ok_0)
    }
}

pub open spec fn and_loop(ts: Seq<TokenView>, repl: bool, st: PState, left: ExprV) -> (
    PState,
    Result<ExprV, PErr>,
)
    decreases rem(ts, st.pos), 26int,
{
    if checks(ts, st, TokenType::PLUS) || checks(ts, st, TokenType::AND) {
        let op = ts[st.pos];
        let s1 = advance(ts, st);
        proof {
            lemma_skip_nl_ge(ts, st.pos + 1);
        }
        let (s2, r) = equality(ts, repl, s1);
        if let Err(e) = r {
            (s2, Err(e))
        } else if s2.pos < s1.pos {
            (s2, Err(stuck()))
        } else {
            and_loop(ts, repl, s2, ExprV::Binary(Box::new(left), op, Box::new(r->Ok_0)))
        }
    } else {
        (st, Ok(left))
    }
}

pub open spec fn equality(ts: Seq<TokenView>, repl: bool, st: PState) -> (PState, Result<
    ExprV,
    PErr,
>)
    decreases rem(ts, st.pos), 26int,
{
    let (s1, r1) = comparison(ts, repl, st);
    if let Err(e) = r1 {
        (s1, Err(e))
    } else if s1.pos < st.pos {
        (s1, Err(stuck()))
    } else {
        eq_loop(ts, repl, s1, r1->Ok_0)
    }
}

pub open spec fn eq_loop(ts: Seq<TokenView>, repl: bool, st: PState, left: ExprV) -> (
    PState,
    Result<ExprV, PErr>,
)
    decreases rem(ts, st.pos), 25int,
{
    if checks(ts, st, TokenType::EQUAL_EQUAL) || checks(ts, st, TokenType::BANG_EQUAL) {
        let op = ts[st.pos];
        let s1 = advance(ts, st);
        proof {
            lemma_skip_nl_ge(ts, st.pos + 1);
        }
        let (s2, r) = comparison(ts, repl, s1);
        if let Err(e) = r {
            (s2, Err(e))
        } else if s2.pos < s1.pos {
            (s2, Err(stuck()))
        } else {
            eq_loop(ts, repl, s2, ExprV::Binary(Box::new(left), op, Box::new(r->Ok_0)))
        }
    } else {
        (st, Ok(left))
    }
}

pub open spec fn comparison(ts: Seq<TokenView>, repl: bool, st: PState) -> (PState, Result<
    ExprV,
    PErr,
>)
    decreases rem(ts, st.pos), 25int,
{
    let (s1, r1) = range(ts, repl, st);
    if let Err(e) = r1 {
        (s1, Err(e))
    } else if s1.pos < st.pos {
        (s1, Err(stuck()))
    } else {
        cmp_loop(ts, repl, s1, r1->Ok_0)
    }
}

pub open spec fn cmp_loop(ts: Seq<TokenView>, repl: bool, st: PState, left: ExprV) -> (
    PState,
    Result<ExprV, PErr>,
)
    decreases rem(ts, st.pos), 24int,
{
    if checks(ts, st, TokenType::LESS) || checks(ts, st, TokenType::GREATER) || checks(ts, st, TokenType::LESS_EQUAL) || checks(ts, st, TokenType::GREATER_EQUAL) {
        let op = ts[st.pos];
        let s1 = advance(ts, st);
        proof {
            lemma_skip_nl_ge(ts, st.pos + 1);
        }
        let (s2, r) = range(ts, repl, s1);
        if let Err(e) = r {
            (s2, Err(e))
        } else if s2.pos < s1.pos {
            (s2, Err(stuck()))
        } else {
            cmp_loop(ts, repl, s2, ExprV::Binary(Box::new(left), op, Box::new(r->Ok_0)))
        }
    } else {
        (st, Ok(left))
    }
}

pub open spec fn range(ts: Seq<TokenView>, repl: bool, st: PState) -> (PState, Result<
    ExprV,
    PErr,
>)
    decreases rem(ts, st.pos), 24int,
{
    let (s1, r1) = addition(ts, repl, st);
    if let Err(e) = r1 {
        (s1, Err(e))
    } else if s1.pos < st.pos {
        (s1, Err(stuck()))
    } else {
        if checks(ts, s1, TokenType::DOT_DOT) || checks(ts, s1, TokenType::DOT_DOT_DOT) {
            let op = ts[s1.pos];
            let s2 = advance(ts, s1);
            proof {
                lemma_skip_nl_ge(ts, s1.pos + 1);
            }
            let (s3, r) = addition(ts, repl, s2);
            match r {
                Err(e) => (s3, Err(e)),
                Ok(x) => (s3, Ok(ExprV::Binary(Box::new(r1->Ok_0), op, Box::new(x)))),
            }
        } else {
            (s1, r1)
        }
    }
}

pub open spec fn addition(ts: Seq<TokenView>, repl: bool, st: PState) -> (PState, Result<
    ExprV,
    PErr,
>)
    decreases rem(ts, st.pos), 23int,
{
    let (s1, r1) = multiplication(ts, repl, st);
    if let Err(e) = r1 {
        (s1, Err(e))
    } else if s1.pos < st.pos {
        (s1, Err(stuck()))
    } else {
        add_loop(ts, repl, s1, r1->Ok_0)
    }
}

pub open spec fn add_loop(ts: Seq<TokenView>, repl: bool, st: PState, left: ExprV) -> (
    PState,
    Result<ExprV, PErr>,
)
    decreases rem(ts, st.pos), 22int,
{
    if checks(ts, st, TokenType::PLUS) || checks(ts, st, TokenType::MINUS) {
        let op = ts[st.pos];
        let s1 = advance(ts, st);
        proof {
            lemma_skip_nl_ge(ts, st.pos + 1);
        }
        let (s2, r) = multiplication(ts, repl, s1);
        if let Err(e) = r {
            (s2, Err(e))
        } else if s2.pos < s1.pos {
            (s2, Err(stuck()))
        } else {
            add_loop(ts, repl, s2, ExprV::Binary(Box::new(left), op, Box::new(r->Ok_0)))
        }
    } else {
        (st, Ok(left))
    }
}

pub open spec fn multiplication(ts: Seq<TokenView>, repl: bool, st: PState) -> (PState, Result<
    ExprV,
    PErr,
>)
    decreases rem(ts, st.pos), 22int,
{
    let (s1, r1) = unary(ts, repl, st);
    if let Err(e) = r1 {
        (s1, Err(e))
    } else if s1.pos < st.pos {
        (s1, Err(stuck()))
    } else {
        mul_loop(ts, repl, s1, r1->Ok_0)
    }
}

pub open spec fn mul_loop(ts: Seq<TokenView>, repl: bool, st: PState, left: ExprV) -> (
    PState,
    Result<ExprV, PErr>,
)
    decreases rem(ts, st.pos), 21int,
{
    if checks(ts, st, TokenType::STAR) || checks(ts, st, TokenType::SLASH) || checks(ts, st, TokenType::SLASH_LESS) || checks(ts, st, TokenType::SLASH_GREATER) || checks(ts, st, TokenType::PERCENT) {
        let op = ts[st.pos];
        let s1 = advance(ts, st);
        proof {
            lemma_skip_nl_ge(ts, st.pos + 1);
        }
        let (s2, r) = unary(ts, repl, s1);
        if let Err(e) = r {
            (s2, Err(e))
        } else if s2.pos < s1.pos {
            (s2, Err(stuck()))
        } else {
            mul_loop(ts, repl, s2, ExprV::Binary(Box::new(left), op, Box::new(r->Ok_0)))
        }
    } else {
        (st, Ok(left))
    }
}

pub open spec fn unary(ts: Seq<TokenView>, repl: bool, st: PState) -> (PState, Result<
    ExprV,
    PErr,
>)
    decreases rem(ts, st.pos), 21int,
{
    let (s1, ops) = unary_ops(ts, st, Seq::empty());
    proof {
        lemma_unary_ops_forward(ts, st, Seq::empty());
    }
    let (s2, r) = call(ts, repl, s1);
    match r {
        Err(e) => (s2, Err(e)),
        Ok(x) => (s2, Ok(wrap_unary(ops, x))),
    }
}

pub open spec fn call(ts: Seq<TokenView>, repl: bool, st: PState) -> (PState, Result<
    ExprV,
    PErr,
>)
    decreases rem(ts, st.pos), 20int,
{
    let (s1, r1) = primary(ts, repl, st);
    if let Err(e) = r1 {
        (s1, Err(e))
    } else if s1.pos < st.pos {
        (s1, Err(stuck()))
    } else {
        call_loop(ts, repl, s1, r1->Ok_0)
    }
}

/// Calls, indexes and property reads after an operand, in order; a
/// property read may start on a later line.
pub open spec fn call_loop(ts: Seq<TokenView>, repl: bool, st: PState, e: ExprV) -> (
    PState,
    Result<ExprV, PErr>,
)
    decreases rem(ts, st.pos), 19int,
{
    if checks(ts, st, TokenType::LEFT_PAREN) {
        call_args(ts, repl, st, e)
    } else if checks(ts, st, TokenType::LEFT_BRACKET) {
        call_index(ts, repl, st, e)
    } else if checks(ts, st, TokenType::DOT) {
        call_property(ts, repl, st, e)
    } else if checks(ts, st, TokenType::NEWLINE) && next_non_newline(ts, st).token_type
        == TokenType::DOT {
        call_property_next_line(ts, repl, st, e)
    } else {
        (st, Ok(e))
    }
}

/// A call: the arguments in parentheses.
pub open spec fn call_args(ts: Seq<TokenView>, repl: bool, st: PState, e: ExprV) -> (
    PState,
    Result<ExprV, PErr>,
)
    decreases rem(ts, st.pos), 18int,
{
    if !checks(ts, st, TokenType::LEFT_PAREN) {
        (st, Err(stuck()))
    } else {
        let paren = ts[st.pos];
        let s1 = advance(ts, st);
        proof {
            lemma_skip_nl_ge(ts, st.pos + 1);
        }
        let (s2, args) = bracketed_args(ts, repl, s1, TokenType::RIGHT_PAREN);
        if let Err(x) = args {
            (s2, Err(x))
        } else if s2.pos <= st.pos {
            (s2, Err(stuck()))
        } else {
            call_loop(ts, repl, s2, ExprV::Call(Box::new(e), paren, args->Ok_0))
        }
    }
}

/// Arguments, with line breaks skipped among them, up to a closing token
/// of type `close`.
pub open spec fn bracketed_args(ts: Seq<TokenView>, repl: bool, st: PState, close: TokenType) -> (
    PState,
    Result<Seq<ExprV>, PErr>,
)
    decreases rem(ts, st.pos), 35int,
{
    let prev = st.ignore_nl;
    let s1 = set_ignore(ts, st, true);
    proof {
        lemma_skip_nl_ge(ts, st.pos);
    }
    let (s2, args) = arguments(ts, repl, s1);
    if let Err(x) = args {
        (s2, Err(x))
    } else {
        let s3 = set_ignore(ts, s2, prev);
        let (s4, r4) = consume(ts, s3, close);
        match r4 {
            Err(x) => (s4, Err(x)),
            Ok(_) => (s4, args),
        }
    }
}

/// An index in brackets.
pub open spec fn call_index(ts: Seq<TokenView>, repl: bool, st: PState, e: ExprV) -> (
    PState,
    Result<ExprV, PErr>,
)
    decreases rem(ts, st.pos), 18int,
{
    if !(checks(ts, st, TokenType::LEFT_BRACKET)) {
        (st, Err(stuck()))
    } else {
        proof {
            lemma_skip_nl_ge(ts, st.pos + 1);
            lemma_skip_nl_ge(ts, st.pos);
        }
        let s1 = advance(ts, st);
        let prev = s1.ignore_nl;
        let s2 = set_ignore(ts, s1, true);
        proof {
            lemma_skip_nl_ge(ts, s1.pos);
        }
        let (s3, index) = expression(ts, repl, s2);
        if let Err(x) = index {
            (s3, Err(x))
        } else {
            let s4 = set_ignore(ts, s3, prev);
            let (s5, r5) = consume(ts, s4, TokenType::RIGHT_BRACKET);
            if let Err(x) = r5 {
                (s5, Err(x))
            } else if s3.pos < st.pos {
                (s5, Err(stuck()))
            } else {
                proof {
                    lemma_skip_nl_ge(ts, s3.pos);
                    lemma_skip_nl_ge(ts, s4.pos + 1);
                }
                call_loop(
                    ts,
                    repl,
                    s5,
                    ExprV::IndexGet(Box::new(e), Box::new(index->Ok_0)),
                )
            }
        }
    }
}

/// A property read after a dot.
pub open spec fn call_property(ts: Seq<TokenView>, repl: bool, st: PState, e: ExprV) -> (
    PState,
    Result<ExprV, PErr>,
)
    decreases rem(ts, st.pos), 18int,
{
    if !(checks(ts, st, TokenType::DOT)) {
        (st, Err(stuck()))
    } else {
        proof {
            lemma_skip_nl_ge(ts, st.pos + 1);
            lemma_skip_nl_ge(ts, st.pos);
        }
        let s1 = advance(ts, st);
        let (s2, name) = consume(ts, s1, TokenType::IDENTIFIER);
        proof {
            lemma_skip_nl_ge(ts, s1.pos + 1);
        }
        match name {
            Err(x) => (s2, Err(x)),
            Ok(n) => call_loop(ts, repl, s2, ExprV::Get(Box::new(e), n)),
        }
    }
}

/// A property read whose dot starts a later line.
pub open spec fn call_property_next_line(ts: Seq<TokenView>, repl: bool, st: PState, e: ExprV) -> (
    PState,
    Result<ExprV, PErr>,
)
    decreases rem(ts, st.pos), 18int,
{
    if !(checks(ts, st, TokenType::NEWLINE)) {
        (st, Err(stuck()))
    } else {
        proof {
            lemma_skip_nl_ge(ts, st.pos + 1);
            lemma_skip_nl_ge(ts, st.pos);
        }
        let s1 = skip_newlines(ts, st);
        let (s2, dot) = consume(ts, s1, TokenType::DOT);
        proof {
            lemma_skip_nl_ge(ts, s1.pos + 1);
            lemma_skip_nl_ge(ts, s2.pos + 1);
        }
        if let Err(x) = dot {
            (s2, Err(x))
        } else {
            let (s3, name) = consume(ts, s2, TokenType::IDENTIFIER);
            match name {
                Err(x) => (s3, Err(x)),
                Ok(n) => call_loop(ts, repl, s3, ExprV::Get(Box::new(e), n)),
            }
        }
    }
}

pub open spec fn primary(ts: Seq<TokenView>, repl: bool, st: PState) -> (PState, Result<
    ExprV,
    PErr,
>)
    decreases rem(ts, st.pos), 19int,
{
    let t = ts[st.pos];
    let s1 = advance(ts, st);
    proof {
        lemma_skip_nl_ge(ts, st.pos + 1);
    }
    if checks(ts, st, TokenType::STRING) || checks(ts, st, TokenType::NUMBER) {
        (s1, Ok(literal_of(t)))
    } else if checks(ts, st, TokenType::TRUE) {
        (s1, Ok(ExprV::Literal(LiteralView::Boolean(true))))
    } else if checks(ts, st, TokenType::FALSE) {
        (s1, Ok(ExprV::Literal(LiteralView::Boolean(false))))
    } else if checks(ts, st, TokenType::NIL) {
        (s1, Ok(ExprV::Literal(LiteralView::Nil)))
    } else if checks(ts, st, TokenType::IDENTIFIER) {
        (s1, Ok(ExprV::Variable(t)))
    } else if checks(ts, st, TokenType::SELF) {
        (s1, Ok(ExprV::SelfExpr(t)))
    } else if checks(ts, st, TokenType::SUPER) {
        super_expr(ts, s1, t)
    } else if checks(ts, st, TokenType::LEFT_PAREN) {
        group(ts, repl, s1)
    } else if checks(ts, st, TokenType::LEFT_BRACKET) {
        let (s2, items) = bracketed_args(ts, repl, s1, TokenType::RIGHT_BRACKET);
        match items {
            Err(x) => (s2, Err(x)),
            Ok(v) => (s2, Ok(ExprV::Array(v))),
        }
    } else if checks(ts, st, TokenType::LEFT_BRACE) {
        dictionary(ts, repl, s1)
    } else {
        (st, Err(PErr::Token(t, unexpected_message(), None)))
    }
}

/// `super.name`, after the `super` token `t`.
pub open spec fn super_expr(ts: Seq<TokenView>, s1: PState, t: TokenView) -> (PState, Result<
    ExprV,
    PErr,
>) {
    let (s2, dot) = consume(ts, s1, TokenType::DOT);
    if let Err(x) = dot {
        (s2, Err(x))
    } else {
        let (s3, name) = consume(ts, s2, TokenType::IDENTIFIER);
        match name {
            Err(x) => (s3, Err(x)),
            Ok(n) => (s3, Ok(ExprV::SuperExpr(t, n))),
        }
    }
}

/// After an opening parenthesis: an empty tuple, a tuple, or a grouped
/// expression.
pub open spec fn group(ts: Seq<TokenView>, repl: bool, s1: PState) -> (PState, Result<
    ExprV,
    PErr,
>)
    decreases rem(ts, s1.pos), 33int,
{
    let prev = s1.ignore_nl;
    let s2 = set_ignore(ts, s1, true);
    proof {
        lemma_skip_nl_ge(ts, s1.pos);
    }
    let (s3, close) = consume(ts, s2, TokenType::RIGHT_PAREN);
    if close is Ok {
        (s3, Ok(ExprV::Tuple(Seq::empty())))
    } else {
        let (s4, first) = expression(ts, repl, s3);
        if let Err(x) = first {
            (s4, Err(x))
        } else if s4.pos < s3.pos {
            (s4, Err(stuck()))
        } else {
            group_rest(ts, repl, s4, prev, first->Ok_0)
        }
    }
}

/// After the first expression in parentheses: more after a comma (a
/// tuple), or none (the expression itself); then the closing parenthesis,
/// with the skipping of line breaks set back to `prev`.
pub open spec fn group_rest(
    ts: Seq<TokenView>,
    repl: bool,
    s4: PState,
    prev: bool,
    first: ExprV,
) -> (PState, Result<ExprV, PErr>)
    decreases rem(ts, s4.pos), 32int,
{
    let (s5, comma) = consume(ts, s4, TokenType::COMMA);
    if comma is Ok {
        proof {
            lemma_skip_nl_ge(ts, s4.pos + 1);
        }
        let (s6, rest) = arguments(ts, repl, s5);
        if let Err(x) = rest {
            (s6, Err(x))
        } else {
            let s7 = set_ignore(ts, s6, prev);
            let (s8, r8) = consume(ts, s7, TokenType::RIGHT_PAREN);
            match r8 {
                Err(x) => (s8, Err(x)),
                Ok(_) => (s8, Ok(ExprV::Tuple(seq![first] + rest->Ok_0))),
            }
        }
    } else {
        let s6 = set_ignore(ts, s5, prev);
        let (s7, r7) = consume(ts, s6, TokenType::RIGHT_PAREN);
        match r7 {
            Err(x) => (s7, Err(x)),
            Ok(_) => (s7, Ok(first)),
        }
    }
}

/// After an opening brace: key-value pairs and the closing brace.
pub open spec fn dictionary(ts: Seq<TokenView>, repl: bool, s1: PState) -> (PState, Result<
    ExprV,
    PErr,
>)
    decreases rem(ts, s1.pos), 35int,
{
    let prev = s1.ignore_nl;
    let s2 = set_ignore(ts, s1, true);
    proof {
        lemma_skip_nl_ge(ts, s1.pos);
    }
    let (s3, pairs) = key_value_pairs(ts, repl, s2);
    let s4 = set_ignore(ts, s3, prev);
    let (s5, close) = consume(ts, s4, TokenType::RIGHT_BRACE);
    if pairs is Err {
        (s3, Err(pairs->Err_0))
    } else if close is Err {
        (s5, Err(close->Err_0))
    } else {
        (s5, Ok(ExprV::Dictionary(pairs->Ok_0)))
    }
}

/// Expressions separated by commas, as long as they parse; the attempt at
/// one more that fails ends the list.
pub open spec fn arguments(ts: Seq<TokenView>, repl: bool, st: PState) -> (PState, Result<
    Seq<ExprV>,
    PErr,
>)
    decreases rem(ts, st.pos), 34int,
{
    args_loop(ts, repl, st, Seq::empty())
}

pub open spec fn args_loop(ts: Seq<TokenView>, repl: bool, st: PState, acc: Seq<ExprV>) -> (
    PState,
    Result<Seq<ExprV>, PErr>,
)
    decreases rem(ts, st.pos), 33int,
{
    let (s1, r1) = expression(ts, repl, st);
    match r1 {
        Err(_) => (s1, Ok(acc)),
        Ok(x) => {
            let (s2, comma) = consume(ts, s1, TokenType::COMMA);
            if comma is Ok {
                if s1.pos < st.pos {
                    (s2, Err(stuck()))
                } else {
                    proof {
                        lemma_skip_nl_ge(ts, s1.pos + 1);
                    }
                    args_loop(ts, repl, s2, acc.push(x))
                }
            } else {
                (s2, Ok(acc.push(x)))
            }
        },
    }
}

/// `key: value` pairs separated by commas, as long as a key parses; a key
/// without a colon and value is an error.
pub open spec fn key_value_pairs(ts: Seq<TokenView>, repl: bool, st: PState) -> (PState, Result<
    Seq<(ExprV, ExprV)>,
    PErr,
>)
    decreases rem(ts, st.pos), 34int,
{
    pairs_loop(ts, repl, st, Seq::empty())
}

pub open spec fn pairs_loop(
    ts: Seq<TokenView>,
    repl: bool,
    st: PState,
    acc: Seq<(ExprV, ExprV)>,
) -> (PState, Result<Seq<(ExprV, ExprV)>, PErr>)
    decreases rem(ts, st.pos), 33int,
{
    let (s1, r1) = expression(ts, repl, st);
    match r1 {
        Err(_) => (s1, Ok(acc)),
        Ok(k) => {
            let (s2, colon) = consume(ts, s1, TokenType::COLON);
            if let Err(x) = colon {
                (s2, Err(x))
            } else if s1.pos < st.pos {
                (s2, Err(stuck()))
            } else {
                proof {
                    lemma_skip_nl_ge(ts, s1.pos + 1);
                }
                let (s3, r3) = expression(ts, repl, s2);
                match r3 {
                    Err(x) => (s3, Err(x)),
                    Ok(v) => {
                        let (s4, comma) = consume(ts, s3, TokenType::COMMA);
                        if comma is Ok {
                            if s3.pos < s2.pos {
                                (s4, Err(stuck()))
                            } else {
                                proof {
                                    lemma_skip_nl_ge(ts, s3.pos + 1);
                                }
                                pairs_loop(ts, repl, s4, acc.push((k, v)))
                            }
                        } else {
                            (s4, Ok(acc.push((k, v))))
                        }
                    },
                }
            }
        },
    }
}

/// Reading parameters never moves back.
pub proof fn lemma_params_forward(ts: Seq<TokenView>, st: PState, acc: Seq<TokenView>)
    ensures
        params_loop(ts, st, acc).0.pos >= st.pos,
    decreases rem(ts, st.pos),
{
    let (s1, r) = consume(ts, st, TokenType::IDENTIFIER);
    lemma_skip_nl_ge(ts, st.pos + 1);
    if r is Ok {
        let (s2, c) = consume(ts, s1, TokenType::COMMA);
        lemma_skip_nl_ge(ts, s1.pos + 1);
        if c is Ok {
            lemma_params_forward(ts, s2, acc.push(r->Ok_0));
        }
    }
}

/// Reading prefix operators never moves back.
pub proof fn lemma_unary_ops_forward(ts: Seq<TokenView>, st: PState, acc: Seq<TokenView>)
    ensures
        unary_ops(ts, st, acc).0.pos >= st.pos,
    decreases rem(ts, st.pos),
{
    lemma_skip_nl_ge(ts, st.pos + 1);
    if checks(ts, st, TokenType::BANG) || checks(ts, st, TokenType::MINUS) || checks(
        ts,
        st,
        TokenType::NOT,
    ) {
        lemma_unary_ops_forward(ts, advance(ts, st), acc.push(ts[st.pos]));
    }
}

} // verus!

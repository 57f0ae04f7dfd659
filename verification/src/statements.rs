//! Laws of the grammar of statements: what each kind of statement is made
//! of, read from its first token.
use vstd::prelude::*;
use crate::ast::{ExprV, StmtV};
use crate::grammar::{PErr, PState, at_end, consume_newline, declaration, handle_newline_error, program_loop, advance, block, checks, expression, fun_decl, lemma_skip_nl_ge, parameters, params_loop, set_ignore, statement, var_decl};
use crate::token::{TokenType, TokenView};

verus! {

/// The token at the position of `st` has kind `t`, before the end of the
/// input.
pub open spec fn token_at(ts: Seq<TokenView>, st: PState, t: TokenType) -> bool {
    0 <= st.pos < ts.len() - 1 && ts[st.pos].token_type == t
}

/// `print` followed by an expression prints that expression.
pub proof fn lemma_print_statement(ts: Seq<TokenView>, repl: bool, st: PState, s2: PState, x: ExprV)
    requires
        token_at(ts, st, TokenType::PRINT),
        expression(ts, repl, advance(ts, st)) == (s2, Ok::<ExprV, PErr>(x)),
    ensures
        statement(ts, repl, st) == (s2, Ok::<StmtV, PErr>(StmtV::Print(ts[st.pos], x))),
{
    lemma_skip_nl_ge(ts, st.pos + 1);
}

/// `return` followed by a line break or `}` returns nothing; followed by an
/// expression it returns that expression.
pub proof fn lemma_return_statement(ts: Seq<TokenView>, repl: bool, st: PState, s2: PState, x: ExprV)
    requires
        token_at(ts, st, TokenType::RETURN),
    ensures
        token_at(ts, advance(ts, st), TokenType::NEWLINE) || token_at(ts, advance(ts, st), TokenType::RIGHT_BRACE)
            ==> statement(ts, repl, st) == (advance(ts, st), Ok::<StmtV, PErr>(StmtV::Return(ts[st.pos], None))),
        !token_at(ts, advance(ts, st), TokenType::NEWLINE) && !token_at(ts, advance(ts, st), TokenType::RIGHT_BRACE)
            && expression(ts, repl, advance(ts, st)) == (s2, Ok::<ExprV, PErr>(x)) ==> statement(ts, repl, st) == (
            s2,
            Ok::<StmtV, PErr>(StmtV::Return(ts[st.pos], Some(x))),
        ),
{
    lemma_skip_nl_ge(ts, st.pos + 1);
}

/// `while` followed by a condition and a block loops over that block while
/// the condition holds.
pub proof fn lemma_while_statement(
    ts: Seq<TokenView>,
    repl: bool,
    st: PState,
    s2: PState,
    c: ExprV,
    s3: PState,
    b: StmtV,
)
    requires
        token_at(ts, st, TokenType::WHILE),
        expression(ts, repl, advance(ts, st)) == (s2, Ok::<ExprV, PErr>(c)),
        advance(ts, st).pos <= s2.pos,
        block(ts, repl, s2) == (s3, Ok::<StmtV, PErr>(b)),
    ensures
        statement(ts, repl, st) == (s3, Ok::<StmtV, PErr>(StmtV::While(c, Box::new(b)))),
{
    lemma_skip_nl_ge(ts, st.pos + 1);
}

/// `break` and `continue` are statements of one token.
pub proof fn lemma_jump_statements(ts: Seq<TokenView>, repl: bool, st: PState)
    ensures
        token_at(ts, st, TokenType::BREAK) ==> statement(ts, repl, st) == (advance(ts, st), Ok::<StmtV, PErr>(
            StmtV::Break(ts[st.pos]),
        )),
        token_at(ts, st, TokenType::CONTINUE) ==> statement(ts, repl, st) == (advance(ts, st), Ok::<
            StmtV,
            PErr,
        >(StmtV::Continue(ts[st.pos]))),
{
}

/// A statement that starts with no keyword of a statement (nor `{`) is an
/// expression, evaluated for its effect.
pub proof fn lemma_expression_statement(ts: Seq<TokenView>, repl: bool, st: PState, s: PState, e: ExprV)
    requires
        0 <= st.pos < ts.len(),
        ({
            let t = ts[st.pos].token_type;
            t != TokenType::LEFT_BRACE && t != TokenType::FOR && t != TokenType::PRINT && t != TokenType::RETURN
                && t != TokenType::WHILE && t != TokenType::BREAK && t != TokenType::CONTINUE
        }),
        expression(ts, repl, st) == (s, Ok::<ExprV, PErr>(e)),
    ensures
        statement(ts, repl, st) == (s, Ok::<StmtV, PErr>(StmtV::Expression(e))),
{
}

/// `let` and a name declare a variable: with `=` and an expression after
/// the name, initialized to that expression, and otherwise with no
/// initializer.
pub proof fn lemma_variable_declaration(ts: Seq<TokenView>, repl: bool, st: PState, s4: PState, x: ExprV)
    requires
        token_at(ts, st, TokenType::LET),
        token_at(ts, advance(ts, st), TokenType::IDENTIFIER),
    ensures
        ({
            let s1 = advance(ts, st);
            let s2 = advance(ts, s1);
            &&& !token_at(ts, s2, TokenType::EQUAL) ==> var_decl(ts, repl, st) == (s2, Ok::<StmtV, PErr>(
                StmtV::Variable(ts[s1.pos], None),
            ))
            &&& token_at(ts, s2, TokenType::EQUAL) && expression(ts, repl, advance(ts, s2)) == (s4, Ok::<
                ExprV,
                PErr,
            >(x)) ==> var_decl(ts, repl, st) == (s4, Ok::<StmtV, PErr>(
                StmtV::Variable(ts[s1.pos], Some(x)),
            ))
        }),
{
    let s1 = advance(ts, st);
    let s2 = advance(ts, s1);
    lemma_skip_nl_ge(ts, st.pos + 1);
    lemma_skip_nl_ge(ts, s1.pos + 1);
    lemma_skip_nl_ge(ts, s2.pos + 1);
    assert(checks(ts, st, TokenType::LET));
    assert(checks(ts, s1, TokenType::IDENTIFIER));
}

/// `fun`, a name, parameters in parentheses (line breaks skipped inside
/// them) and a block declare a function of that name with those parameters
/// and that block as its body.
pub proof fn lemma_function_declaration(
    ts: Seq<TokenView>,
    repl: bool,
    st: PState,
    s5: PState,
    params: Seq<TokenView>,
    s8: PState,
    body: StmtV,
)
    requires
        token_at(ts, st, TokenType::FUN),
        token_at(ts, advance(ts, st), TokenType::IDENTIFIER),
        token_at(ts, advance(ts, advance(ts, st)), TokenType::LEFT_PAREN),
        ({
            let s3 = advance(ts, advance(ts, advance(ts, st)));
            let s2 = advance(ts, advance(ts, st));
            &&& parameters(ts, set_ignore(ts, s3, true)) == (s5, params)
            &&& token_at(ts, set_ignore(ts, s5, s2.ignore_nl), TokenType::RIGHT_PAREN)
            &&& block(ts, repl, advance(ts, set_ignore(ts, s5, s2.ignore_nl))) == (s8, Ok::<StmtV, PErr>(body))
        }),
    ensures
        fun_decl(ts, repl, st) == (s8, Ok::<StmtV, PErr>(
            StmtV::Function(ts[advance(ts, st).pos], params, Box::new(body)),
        )),
{
    let s1 = advance(ts, st);
    let s2 = advance(ts, s1);
    lemma_skip_nl_ge(ts, st.pos + 1);
    lemma_skip_nl_ge(ts, s1.pos + 1);
    lemma_skip_nl_ge(ts, s2.pos + 1);
    assert(checks(ts, st, TokenType::FUN));
    assert(checks(ts, s1, TokenType::IDENTIFIER));
    assert(checks(ts, s2, TokenType::LEFT_PAREN));
}

/// Parameters are names separated by commas: a name followed by a comma is
/// taken and the list goes on after the comma; a name followed by anything
/// else ends the list; and a list that does not start with a name is empty.
pub proof fn lemma_parameters(ts: Seq<TokenView>, st: PState, acc: Seq<TokenView>)
    ensures
        !token_at(ts, st, TokenType::IDENTIFIER) ==> params_loop(ts, st, acc) == (st, acc),
        token_at(ts, st, TokenType::IDENTIFIER) && !token_at(ts, advance(ts, st), TokenType::COMMA)
            ==> params_loop(ts, st, acc) == (advance(ts, st), acc.push(ts[st.pos])),
        token_at(ts, st, TokenType::IDENTIFIER) && token_at(ts, advance(ts, st), TokenType::COMMA)
            ==> params_loop(ts, st, acc) == params_loop(ts, advance(ts, advance(ts, st)), acc.push(ts[st.pos])),
{
    lemma_skip_nl_ge(ts, st.pos + 1);
    lemma_skip_nl_ge(ts, advance(ts, st).pos + 1);
}

/// A program is its declarations in order: a declaration that parses and
/// is followed by a line break (or the end) is kept and the program goes on
/// after it; one that parses but is followed by something else is left out
/// and reported as a missing line break; one with a syntax error is left
/// out (its error handled) and the program goes on after it. At the end
/// nothing more is read.
pub proof fn lemma_program_declarations(ts: Seq<TokenView>, repl: bool, st: PState, acc: Seq<StmtV>, x: StmtV)
    ensures
        at_end(ts, st) ==> program_loop(ts, repl, st, acc) == (st, acc),
        !at_end(ts, st) ==> ({
            let (s1, d) = declaration(ts, repl, st);
            let (s2, ok) = consume_newline(ts, s1);
            &&& (d == Some(x) && ok && st.pos < s2.pos) ==> program_loop(ts, repl, st, acc) == program_loop(
                ts,
                repl,
                s2,
                acc.push(x),
            )
            &&& (d == Some(x) && !ok && st.pos < handle_newline_error(ts, repl, s2).pos) ==> program_loop(
                ts,
                repl,
                st,
                acc,
            ) == program_loop(ts, repl, handle_newline_error(ts, repl, s2), acc)
            &&& (d is None && st.pos < s1.pos) ==> program_loop(ts, repl, st, acc) == program_loop(ts, repl, s1, acc)
        }),
{
}

} // verus!

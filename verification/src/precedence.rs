//! Laws of the grammar of expressions: how each level of binary operators
//! joins its operands and which operators it reads, how prefix operators
//! apply, what a single token stands for, and how a call is read.
use vstd::prelude::*;
use crate::ast::{ExprV, StmtV};
use crate::grammar::{PErr, PState, rem, args_loop, block, if_expr, assignment, lambda, expression, set_ignore, bracketed_args, call, call_loop, checks, primary, skip_nl, unary_ops, wrap_unary, add_loop, addition, advance, and_loop, cmp_loop, comparison, eq_loop, equality, lemma_skip_nl_ge, logic_and, logic_or, mul_loop, multiplication, or_loop, range, unary};
use crate::token::{LiteralView, TokenType, TokenView};

verus! {

/// A token of a kind `op` picks is at the position of `st`, before the end
/// of the input.
pub open spec fn operator_at(ts: Seq<TokenView>, st: PState, op: spec_fn(TokenType) -> bool) -> bool {
    0 <= st.pos < ts.len() - 1 && op(ts[st.pos].token_type)
}

/// The operators that join operands at the level of a disjunction: `or`.
pub open spec fn disjunction_op(t: TokenType) -> bool {
    t == TokenType::OR
}

/// A disjunction reads an operand and then, while `or` follows, another
/// operand: an operand followed by anything else is the whole disjunction, and
/// two operands with one such operator between them give the binary
/// expression of that operator over them.
pub proof fn lemma_disjunction(
    ts: Seq<TokenView>,
    repl: bool,
    st: PState,
    s1: PState,
    l: ExprV,
    s2: PState,
    r: ExprV,
)
    requires
        logic_and(ts, repl, st) == (s1, Ok::<ExprV, PErr>(l)),
        st.pos <= s1.pos,
    ensures
        !operator_at(ts, s1, |t: TokenType| disjunction_op(t)) ==> logic_or(ts, repl, st) == (s1, Ok::<ExprV, PErr>(l)),
        operator_at(ts, s1, |t: TokenType| disjunction_op(t)) && logic_and(ts, repl, advance(ts, s1)) == (s2, Ok::<ExprV, PErr>(r))
            && advance(ts, s1).pos <= s2.pos && !operator_at(ts, s2, |t: TokenType| disjunction_op(t)) ==> logic_or(ts, repl, st) == (
            s2,
            Ok::<ExprV, PErr>(ExprV::Binary(Box::new(l), ts[s1.pos], Box::new(r))),
        ),
{
    lemma_skip_nl_ge(ts, s1.pos + 1);
    if operator_at(ts, s1, |t: TokenType| disjunction_op(t)) && logic_and(ts, repl, advance(ts, s1)) == (s2, Ok::<ExprV, PErr>(r))
        && advance(ts, s1).pos <= s2.pos && !operator_at(ts, s2, |t: TokenType| disjunction_op(t)) {
        let b = ExprV::Binary(Box::new(l), ts[s1.pos], Box::new(r));
        assert(or_loop(ts, repl, s2, b) == (s2, Ok::<ExprV, PErr>(b)));
    }
}

/// The operators that join operands at the level of a conjunction: `and` (or `+`, which this level also reads).
pub open spec fn conjunction_op(t: TokenType) -> bool {
    t == TokenType::PLUS || t == TokenType::AND
}

/// A conjunction reads an operand and then, while `and` (or `+`, which this level also reads) follows, another
/// operand: an operand followed by anything else is the whole conjunction, and
/// two operands with one such operator between them give the binary
/// expression of that operator over them.
pub proof fn lemma_conjunction(
    ts: Seq<TokenView>,
    repl: bool,
    st: PState,
    s1: PState,
    l: ExprV,
    s2: PState,
    r: ExprV,
)
    requires
        equality(ts, repl, st) == (s1, Ok::<ExprV, PErr>(l)),
        st.pos <= s1.pos,
    ensures
        !operator_at(ts, s1, |t: TokenType| conjunction_op(t)) ==> logic_and(ts, repl, st) == (s1, Ok::<ExprV, PErr>(l)),
        operator_at(ts, s1, |t: TokenType| conjunction_op(t)) && equality(ts, repl, advance(ts, s1)) == (s2, Ok::<ExprV, PErr>(r))
            && advance(ts, s1).pos <= s2.pos && !operator_at(ts, s2, |t: TokenType| conjunction_op(t)) ==> logic_and(ts, repl, st) == (
            s2,
            Ok::<ExprV, PErr>(ExprV::Binary(Box::new(l), ts[s1.pos], Box::new(r))),
        ),
{
    lemma_skip_nl_ge(ts, s1.pos + 1);
    if operator_at(ts, s1, |t: TokenType| conjunction_op(t)) && equality(ts, repl, advance(ts, s1)) == (s2, Ok::<ExprV, PErr>(r))
        && advance(ts, s1).pos <= s2.pos && !operator_at(ts, s2, |t: TokenType| conjunction_op(t)) {
        let b = ExprV::Binary(Box::new(l), ts[s1.pos], Box::new(r));
        assert(and_loop(ts, repl, s2, b) == (s2, Ok::<ExprV, PErr>(b)));
    }
}

/// The operators that join operands at the level of a equality: `==` or `!=`.
pub open spec fn equality_op(t: TokenType) -> bool {
    t == TokenType::EQUAL_EQUAL || t == TokenType::BANG_EQUAL
}

/// A equality reads an operand and then, while `==` or `!=` follows, another
/// operand: an operand followed by anything else is the whole equality, and
/// two operands with one such operator between them give the binary
/// expression of that operator over them.
pub proof fn lemma_equality(
    ts: Seq<TokenView>,
    repl: bool,
    st: PState,
    s1: PState,
    l: ExprV,
    s2: PState,
    r: ExprV,
)
    requires
        comparison(ts, repl, st) == (s1, Ok::<ExprV, PErr>(l)),
        st.pos <= s1.pos,
    ensures
        !operator_at(ts, s1, |t: TokenType| equality_op(t)) ==> equality(ts, repl, st) == (s1, Ok::<ExprV, PErr>(l)),
        operator_at(ts, s1, |t: TokenType| equality_op(t)) && comparison(ts, repl, advance(ts, s1)) == (s2, Ok::<ExprV, PErr>(r))
            && advance(ts, s1).pos <= s2.pos && !operator_at(ts, s2, |t: TokenType| equality_op(t)) ==> equality(ts, repl, st) == (
            s2,
            Ok::<ExprV, PErr>(ExprV::Binary(Box::new(l), ts[s1.pos], Box::new(r))),
        ),
{
    lemma_skip_nl_ge(ts, s1.pos + 1);
    if operator_at(ts, s1, |t: TokenType| equality_op(t)) && comparison(ts, repl, advance(ts, s1)) == (s2, Ok::<ExprV, PErr>(r))
        && advance(ts, s1).pos <= s2.pos && !operator_at(ts, s2, |t: TokenType| equality_op(t)) {
        let b = ExprV::Binary(Box::new(l), ts[s1.pos], Box::new(r));
        assert(eq_loop(ts, repl, s2, b) == (s2, Ok::<ExprV, PErr>(b)));
    }
}

/// The operators that join operands at the level of a comparison: `<`, `>`, `<=` or `>=`.
pub open spec fn comparison_op(t: TokenType) -> bool {
    t == TokenType::LESS || t == TokenType::GREATER || t == TokenType::LESS_EQUAL || t == TokenType::GREATER_EQUAL
}

/// A comparison reads an operand and then, while `<`, `>`, `<=` or `>=` follows, another
/// operand: an operand followed by anything else is the whole comparison, and
/// two operands with one such operator between them give the binary
/// expression of that operator over them.
pub proof fn lemma_comparison(
    ts: Seq<TokenView>,
    repl: bool,
    st: PState,
    s1: PState,
    l: ExprV,
    s2: PState,
    r: ExprV,
)
    requires
        range(ts, repl, st) == (s1, Ok::<ExprV, PErr>(l)),
        st.pos <= s1.pos,
    ensures
        !operator_at(ts, s1, |t: TokenType| comparison_op(t)) ==> comparison(ts, repl, st) == (s1, Ok::<ExprV, PErr>(l)),
        operator_at(ts, s1, |t: TokenType| comparison_op(t)) && range(ts, repl, advance(ts, s1)) == (s2, Ok::<ExprV, PErr>(r))
            && advance(ts, s1).pos <= s2.pos && !operator_at(ts, s2, |t: TokenType| comparison_op(t)) ==> comparison(ts, repl, st) == (
            s2,
            Ok::<ExprV, PErr>(ExprV::Binary(Box::new(l), ts[s1.pos], Box::new(r))),
        ),
{
    lemma_skip_nl_ge(ts, s1.pos + 1);
    if operator_at(ts, s1, |t: TokenType| comparison_op(t)) && range(ts, repl, advance(ts, s1)) == (s2, Ok::<ExprV, PErr>(r))
        && advance(ts, s1).pos <= s2.pos && !operator_at(ts, s2, |t: TokenType| comparison_op(t)) {
        let b = ExprV::Binary(Box::new(l), ts[s1.pos], Box::new(r));
        assert(cmp_loop(ts, repl, s2, b) == (s2, Ok::<ExprV, PErr>(b)));
    }
}

/// The operators that join operands at the level of a sum: `+` or `-`.
pub open spec fn sum_op(t: TokenType) -> bool {
    t == TokenType::PLUS || t == TokenType::MINUS
}

/// A sum reads an operand and then, while `+` or `-` follows, another
/// operand: an operand followed by anything else is the whole sum, and
/// two operands with one such operator between them give the binary
/// expression of that operator over them.
pub proof fn lemma_sum(
    ts: Seq<TokenView>,
    repl: bool,
    st: PState,
    s1: PState,
    l: ExprV,
    s2: PState,
    r: ExprV,
)
    requires
        multiplication(ts, repl, st) == (s1, Ok::<ExprV, PErr>(l)),
        st.pos <= s1.pos,
    ensures
        !operator_at(ts, s1, |t: TokenType| sum_op(t)) ==> addition(ts, repl, st) == (s1, Ok::<ExprV, PErr>(l)),
        operator_at(ts, s1, |t: TokenType| sum_op(t)) && multiplication(ts, repl, advance(ts, s1)) == (s2, Ok::<ExprV, PErr>(r))
            && advance(ts, s1).pos <= s2.pos && !operator_at(ts, s2, |t: TokenType| sum_op(t)) ==> addition(ts, repl, st) == (
            s2,
            Ok::<ExprV, PErr>(ExprV::Binary(Box::new(l), ts[s1.pos], Box::new(r))),
        ),
{
    lemma_skip_nl_ge(ts, s1.pos + 1);
    if operator_at(ts, s1, |t: TokenType| sum_op(t)) && multiplication(ts, repl, advance(ts, s1)) == (s2, Ok::<ExprV, PErr>(r))
        && advance(ts, s1).pos <= s2.pos && !operator_at(ts, s2, |t: TokenType| sum_op(t)) {
        let b = ExprV::Binary(Box::new(l), ts[s1.pos], Box::new(r));
        assert(add_loop(ts, repl, s2, b) == (s2, Ok::<ExprV, PErr>(b)));
    }
}

/// The operators that join operands at the level of a product: `*`, `/`, `/<`, `/>` or `%`.
pub open spec fn product_op(t: TokenType) -> bool {
    t == TokenType::STAR || t == TokenType::SLASH || t == TokenType::SLASH_LESS || t == TokenType::SLASH_GREATER || t == TokenType::PERCENT
}

/// A product reads an operand and then, while `*`, `/`, `/<`, `/>` or `%` follows, another
/// operand: an operand followed by anything else is the whole product, and
/// two operands with one such operator between them give the binary
/// expression of that operator over them.
pub proof fn lemma_product(
    ts: Seq<TokenView>,
    repl: bool,
    st: PState,
    s1: PState,
    l: ExprV,
    s2: PState,
    r: ExprV,
)
    requires
        unary(ts, repl, st) == (s1, Ok::<ExprV, PErr>(l)),
        st.pos <= s1.pos,
    ensures
        !operator_at(ts, s1, |t: TokenType| product_op(t)) ==> multiplication(ts, repl, st) == (s1, Ok::<ExprV, PErr>(l)),
        operator_at(ts, s1, |t: TokenType| product_op(t)) && unary(ts, repl, advance(ts, s1)) == (s2, Ok::<ExprV, PErr>(r))
            && advance(ts, s1).pos <= s2.pos && !operator_at(ts, s2, |t: TokenType| product_op(t)) ==> multiplication(ts, repl, st) == (
            s2,
            Ok::<ExprV, PErr>(ExprV::Binary(Box::new(l), ts[s1.pos], Box::new(r))),
        ),
{
    lemma_skip_nl_ge(ts, s1.pos + 1);
    if operator_at(ts, s1, |t: TokenType| product_op(t)) && unary(ts, repl, advance(ts, s1)) == (s2, Ok::<ExprV, PErr>(r))
        && advance(ts, s1).pos <= s2.pos && !operator_at(ts, s2, |t: TokenType| product_op(t)) {
        let b = ExprV::Binary(Box::new(l), ts[s1.pos], Box::new(r));
        assert(mul_loop(ts, repl, s2, b) == (s2, Ok::<ExprV, PErr>(b)));
    }
}

/// The operators of a range: `..` or `...`.
pub open spec fn range_op(t: TokenType) -> bool {
    t == TokenType::DOT_DOT || t == TokenType::DOT_DOT_DOT
}

/// A range reads a sum and, if `..` or `...` follows, one more sum: a sum
/// followed by anything else is the whole range, and two sums with one such
/// operator between them give the binary expression of that operator over
/// them, whatever follows.
pub proof fn lemma_range(
    ts: Seq<TokenView>,
    repl: bool,
    st: PState,
    s1: PState,
    l: ExprV,
    s2: PState,
    r: ExprV,
)
    requires
        addition(ts, repl, st) == (s1, Ok::<ExprV, PErr>(l)),
        st.pos <= s1.pos,
    ensures
        !operator_at(ts, s1, |t: TokenType| range_op(t)) ==> range(ts, repl, st) == (s1, Ok::<ExprV, PErr>(l)),
        operator_at(ts, s1, |t: TokenType| range_op(t)) && addition(ts, repl, advance(ts, s1)) == (s2, Ok::<ExprV, PErr>(r))
            ==> range(ts, repl, st) == (
            s2,
            Ok::<ExprV, PErr>(ExprV::Binary(Box::new(l), ts[s1.pos], Box::new(r))),
        ),
{
    lemma_skip_nl_ge(ts, s1.pos + 1);
}

/// Reading prefix operators after `acc` gives `acc` followed by what reading
/// them from scratch gives.
proof fn lemma_unary_ops_acc(ts: Seq<TokenView>, st: PState, acc: Seq<TokenView>)
    ensures
        unary_ops(ts, st, acc).0 == unary_ops(ts, st, Seq::empty()).0,
        unary_ops(ts, st, acc).1 == acc + unary_ops(ts, st, Seq::empty()).1,
    decreases rem(ts, st.pos),
{
    if checks(ts, st, TokenType::BANG) || checks(ts, st, TokenType::MINUS) || checks(ts, st, TokenType::NOT) {
        lemma_skip_nl_ge(ts, st.pos + 1);
        let s = advance(ts, st);
        lemma_unary_ops_acc(ts, s, acc.push(ts[st.pos]));
        lemma_unary_ops_acc(ts, s, seq![ts[st.pos]]);
        assert(Seq::<TokenView>::empty().push(ts[st.pos]) =~= seq![ts[st.pos]]);
        assert(acc.push(ts[st.pos]) + unary_ops(ts, s, Seq::empty()).1 =~= acc + (seq![ts[st.pos]]
            + unary_ops(ts, s, Seq::empty()).1));
    } else {
        assert(acc + Seq::<TokenView>::empty() =~= acc);
    }
}

/// The prefix operators: `!`, `-` and `not`.
pub open spec fn prefix_op(t: TokenType) -> bool {
    t == TokenType::BANG || t == TokenType::MINUS || t == TokenType::NOT
}

/// A prefix `!`, `-` or `not` applies to the operand that follows it, with
/// its own prefix operators: the result is that operator over the operand.
/// Without a prefix operator, the operand is read as a call.
pub proof fn lemma_prefix(ts: Seq<TokenView>, repl: bool, st: PState, s2: PState, x: ExprV)
    ensures
        !operator_at(ts, st, |t: TokenType| prefix_op(t)) ==> unary(ts, repl, st) == call(ts, repl, st),
        operator_at(ts, st, |t: TokenType| prefix_op(t)) && unary(ts, repl, advance(ts, st)) == (
            s2,
            Ok::<ExprV, PErr>(x),
        ) ==> unary(ts, repl, st) == (s2, Ok::<ExprV, PErr>(ExprV::Unary(ts[st.pos], Box::new(x)))),
{
    lemma_skip_nl_ge(ts, st.pos + 1);
    if operator_at(ts, st, |t: TokenType| prefix_op(t)) {
        let s = advance(ts, st);
        let op = ts[st.pos];
        lemma_unary_ops_acc(ts, s, seq![op]);
        assert(Seq::<TokenView>::empty().push(op) =~= seq![op]);
        let ops = unary_ops(ts, s, Seq::empty()).1;
        assert((seq![op] + ops).drop_first() =~= ops);
        assert((seq![op] + ops)[0] == op);
        assert(wrap_unary(seq![op] + ops, call(ts, repl, unary_ops(ts, s, Seq::empty()).0).1->Ok_0)
            == ExprV::Unary(op, Box::new(wrap_unary(ops, call(ts, repl, unary_ops(ts, s, Seq::empty()).0).1->Ok_0))));
    } else {
        assert(wrap_unary(Seq::<TokenView>::empty(), call(ts, repl, st).1->Ok_0) == call(ts, repl, st).1->Ok_0);
    }
}

/// A literal, a name or `true`, `false` or `nil` is one token, read as the
/// value or variable it stands for.
pub proof fn lemma_atom(ts: Seq<TokenView>, repl: bool, st: PState)
    requires
        0 <= st.pos < ts.len() - 1,
    ensures
        ts[st.pos].token_type == TokenType::NUMBER || ts[st.pos].token_type == TokenType::STRING ==> primary(
            ts,
            repl,
            st,
        ) == (advance(ts, st), Ok::<ExprV, PErr>(
            match ts[st.pos].literal {
                Some(l) => ExprV::Literal(l),
                None => ExprV::Literal(LiteralView::Nil),
            },
        )),
        ts[st.pos].token_type == TokenType::TRUE ==> primary(ts, repl, st) == (advance(ts, st), Ok::<
            ExprV,
            PErr,
        >(ExprV::Literal(LiteralView::Boolean(true)))),
        ts[st.pos].token_type == TokenType::FALSE ==> primary(ts, repl, st) == (advance(ts, st), Ok::<
            ExprV,
            PErr,
        >(ExprV::Literal(LiteralView::Boolean(false)))),
        ts[st.pos].token_type == TokenType::NIL ==> primary(ts, repl, st) == (advance(ts, st), Ok::<
            ExprV,
            PErr,
        >(ExprV::Literal(LiteralView::Nil))),
        ts[st.pos].token_type == TokenType::IDENTIFIER ==> primary(ts, repl, st) == (advance(ts, st), Ok::<
            ExprV,
            PErr,
        >(ExprV::Variable(ts[st.pos]))),
{
}

/// What may follow an operand and continue it: `(`, `[`, `.`, or a line
/// break before a `.`.
pub open spec fn continues_operand(ts: Seq<TokenView>, st: PState) -> bool {
    0 <= st.pos < ts.len() - 1 && {
        let t = ts[st.pos].token_type;
        ||| t == TokenType::LEFT_PAREN
        ||| t == TokenType::LEFT_BRACKET
        ||| t == TokenType::DOT
        ||| t == TokenType::NEWLINE && ts[skip_nl(ts, st.pos + 1)].token_type == TokenType::DOT
    }
}

/// An operand followed by nothing that continues it is the whole call; an
/// operand followed by `(`, arguments and a closing `)`, and then by nothing
/// that continues it, is a call of the operand with those arguments.
pub proof fn lemma_call(
    ts: Seq<TokenView>,
    repl: bool,
    st: PState,
    s1: PState,
    e: ExprV,
    s2: PState,
    args: Seq<ExprV>,
)
    requires
        primary(ts, repl, st) == (s1, Ok::<ExprV, PErr>(e)),
        st.pos <= s1.pos,
    ensures
        !continues_operand(ts, s1) ==> call(ts, repl, st) == (s1, Ok::<ExprV, PErr>(e)),
        0 <= s1.pos < ts.len() - 1 && ts[s1.pos].token_type == TokenType::LEFT_PAREN && bracketed_args(
            ts,
            repl,
            advance(ts, s1),
            TokenType::RIGHT_PAREN,
        ) == (s2, Ok::<Seq<ExprV>, PErr>(args)) && s1.pos < s2.pos && !continues_operand(ts, s2)
            ==> call(ts, repl, st) == (
            s2,
            Ok::<ExprV, PErr>(ExprV::Call(Box::new(e), ts[s1.pos], args)),
        ),
{
    lemma_skip_nl_ge(ts, s1.pos + 1);
    if 0 <= s1.pos < ts.len() - 1 && ts[s1.pos].token_type == TokenType::LEFT_PAREN && bracketed_args(
        ts,
        repl,
        advance(ts, s1),
        TokenType::RIGHT_PAREN,
    ) == (s2, Ok::<Seq<ExprV>, PErr>(args)) && s1.pos < s2.pos && !continues_operand(ts, s2) {
        let c = ExprV::Call(Box::new(e), ts[s1.pos], args);
        assert(call_loop(ts, repl, s2, c) == (s2, Ok::<ExprV, PErr>(c)));
    }
}

/// A parenthesized expression is that expression: `(`, an expression not
/// followed by a comma, then `)`, with line breaks skipped inside the
/// parentheses; and `()` is the empty tuple.
pub proof fn lemma_parenthesized(ts: Seq<TokenView>, repl: bool, st: PState, s4: PState, x: ExprV)
    requires
        0 <= st.pos < ts.len() - 1,
        ts[st.pos].token_type == TokenType::LEFT_PAREN,
    ensures
        ({
            let s1 = advance(ts, st);
            let s2 = set_ignore(ts, s1, true);
            let s6 = set_ignore(ts, s4, s1.ignore_nl);
            &&& operator_at(ts, s2, |t: TokenType| t == TokenType::RIGHT_PAREN) ==> primary(ts, repl, st) == (
                advance(ts, s2),
                Ok::<ExprV, PErr>(ExprV::Tuple(Seq::empty())),
            )
            &&& !operator_at(ts, s2, |t: TokenType| t == TokenType::RIGHT_PAREN) && expression(ts, repl, s2) == (
                s4,
                Ok::<ExprV, PErr>(x),
            ) && s2.pos <= s4.pos && !operator_at(ts, s4, |t: TokenType| t == TokenType::COMMA) && operator_at(
                ts,
                s6,
                |t: TokenType| t == TokenType::RIGHT_PAREN,
            ) ==> primary(ts, repl, st) == (advance(ts, s6), Ok::<ExprV, PErr>(x))
        }),
{
    lemma_skip_nl_ge(ts, st.pos + 1);
}

/// The signs that assign the value of an expression: `=`, `+=`, `-=`, `*=`
/// and `/=`.
pub open spec fn assigning_sign(t: TokenType) -> bool {
    t == TokenType::EQUAL || t == TokenType::PLUS_EQUAL || t == TokenType::MINUS_EQUAL || t
        == TokenType::STAR_EQUAL || t == TokenType::SLASH_EQUAL
}

/// What assigning `value` to `target` with `sign` makes: an assignment to a
/// variable, a property write for a property read, an index write for an
/// index read; nothing else can be assigned to.
pub open spec fn assigned(target: ExprV, sign: TokenView, value: ExprV) -> Option<ExprV> {
    match target {
        ExprV::Variable(v) => Some(ExprV::Assign(v, sign, Box::new(value))),
        ExprV::Get(o, n) => Some(ExprV::SetProperty(o, n, Box::new(value))),
        ExprV::IndexGet(a, i) => Some(ExprV::IndexSet(a, i, Box::new(value))),
        _ => None,
    }
}

/// An operand followed by no assignment sign is the whole expression. An
/// operand followed by `=`, `+=`, `-=`, `*=` or `/=` and an expression
/// assigns that expression to the operand, and `++` or `--` after an
/// operand assigns the number 1 with that sign; assigning to anything but
/// a variable, a property or an index is an error on the line where the
/// assignment ends.
pub proof fn lemma_assignment(
    ts: Seq<TokenView>,
    repl: bool,
    st: PState,
    s1: PState,
    target: ExprV,
    s3: PState,
    v: ExprV,
)
    requires
        lambda(ts, repl, st) == (s1, Ok::<ExprV, PErr>(target)),
        st.pos <= s1.pos,
        0 <= s1.pos < ts.len(),
    ensures
        ({
            let t = ts[s1.pos].token_type;
            !(assigning_sign(t) || t == TokenType::PLUS_PLUS || t == TokenType::MINUS_MINUS)
        }) ==> assignment(ts, repl, st) == (s1, Ok::<ExprV, PErr>(target)),
        ({
            let sign = ts[s1.pos];
            let value = if sign.token_type == TokenType::PLUS_PLUS || sign.token_type == TokenType::MINUS_MINUS {
                ExprV::Literal(LiteralView::Number("1"@))
            } else {
                v
            };
            let end = if sign.token_type == TokenType::PLUS_PLUS || sign.token_type == TokenType::MINUS_MINUS {
                advance(ts, s1)
            } else {
                s3
            };
            (s1.pos < ts.len() - 1 && (sign.token_type == TokenType::PLUS_PLUS || sign.token_type
                == TokenType::MINUS_MINUS || assigning_sign(sign.token_type) && expression(
                ts,
                repl,
                advance(ts, s1),
            ) == (s3, Ok::<ExprV, PErr>(v)))) ==> assignment(ts, repl, st) == match assigned(target, sign, value) {
                Some(x) => (end, Ok::<ExprV, PErr>(x)),
                None => (end, Err::<ExprV, PErr>(PErr::Line(ts[end.pos].line, "Cannot use assignment."@))),
            }
        }),
{
    lemma_skip_nl_ge(ts, s1.pos + 1);
}

/// An `if` expression: `if`, a condition, and a block, then optionally
/// `else` and a block; without `else` the other branch is an empty block.
/// An expression that does not start with `if` is a disjunction.
pub proof fn lemma_if_expression(
    ts: Seq<TokenView>,
    repl: bool,
    st: PState,
    s2: PState,
    c: ExprV,
    s3: PState,
    t: StmtV,
    s5: PState,
    e: StmtV,
)
    ensures
        !operator_at(ts, st, |k: TokenType| k == TokenType::IF) ==> if_expr(ts, repl, st) == logic_or(ts, repl, st),
        operator_at(ts, st, |k: TokenType| k == TokenType::IF) && logic_or(ts, repl, advance(ts, st)) == (
            s2,
            Ok::<ExprV, PErr>(c),
        ) && advance(ts, st).pos <= s2.pos && block(ts, repl, s2) == (s3, Ok::<StmtV, PErr>(t)) && s2.pos
            <= s3.pos ==> {
            &&& !operator_at(ts, s3, |k: TokenType| k == TokenType::ELSE) ==> if_expr(ts, repl, st) == (
                s3,
                Ok::<ExprV, PErr>(ExprV::IfExpr(Box::new(c), Box::new(t), Box::new(StmtV::Block(Seq::empty())))),
            )
            &&& operator_at(ts, s3, |k: TokenType| k == TokenType::ELSE) && ts[advance(ts, s3).pos].token_type
                != TokenType::IF && block(ts, repl, advance(ts, s3)) == (s5, Ok::<StmtV, PErr>(e)) ==> if_expr(
                ts,
                repl,
                st,
            ) == (s5, Ok::<ExprV, PErr>(ExprV::IfExpr(Box::new(c), Box::new(t), Box::new(e))))
        },
{
    lemma_skip_nl_ge(ts, st.pos + 1);
    lemma_skip_nl_ge(ts, s3.pos + 1);
}

/// Arguments are expressions separated by commas: an expression followed
/// by a comma is taken and the list goes on after the comma; an expression
/// followed by anything else ends the list; where no expression can be
/// read, the list ends before it.
pub proof fn lemma_arguments(ts: Seq<TokenView>, repl: bool, st: PState, acc: Seq<ExprV>, s1: PState, x: ExprV)
    ensures
        expression(ts, repl, st).1 is Err ==> args_loop(ts, repl, st, acc) == (
            expression(ts, repl, st).0,
            Ok::<Seq<ExprV>, PErr>(acc),
        ),
        expression(ts, repl, st) == (s1, Ok::<ExprV, PErr>(x)) && st.pos <= s1.pos ==> {
            &&& operator_at(ts, s1, |k: TokenType| k == TokenType::COMMA) ==> args_loop(ts, repl, st, acc)
                == args_loop(ts, repl, advance(ts, s1), acc.push(x))
            &&& !operator_at(ts, s1, |k: TokenType| k == TokenType::COMMA) ==> args_loop(ts, repl, st, acc) == (
                s1,
                Ok::<Seq<ExprV>, PErr>(acc.push(x)),
            )
        },
{
    lemma_skip_nl_ge(ts, s1.pos + 1);
}

} // verus!

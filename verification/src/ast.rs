//! The syntax tree of Dove programs.
use vstd::prelude::*;
use crate::token::{Literal, LiteralView, Token, TokenType, TokenView, tokens_view};

verus! {

#[derive(Debug)]
pub enum Expr {
    Array(Vec<Expr>),
    /// The variable, the assignment operator, and the value.
    Assign(Token, Token, Box<Expr>),
    Binary(Box<Expr>, Token, Box<Expr>),
    /// The callee, the opening parenthesis, and the arguments.
    Call(Box<Expr>, Token, Vec<Expr>),
    Dictionary(Vec<(Expr, Expr)>),
    Get(Box<Expr>, Token),
    Grouping(Box<Expr>),
    IfExpr(Box<Expr>, Box<Stmt>, Box<Stmt>),
    IndexGet(Box<Expr>, Box<Expr>),
    IndexSet(Box<Expr>, Box<Expr>, Box<Expr>),
    Lambda(Vec<Token>, Box<Stmt>),
    Literal(Literal),
    /// The object, the property name, and the value.
    SetProperty(Box<Expr>, Token, Box<Expr>),
    SelfExpr(Token),
    SuperExpr(Token, Token),
    Tuple(Vec<Expr>),
    Unary(Token, Box<Expr>),
    Variable(Token),
}

#[derive(Debug)]
pub enum Stmt {
    Block(Vec<Stmt>),
    Break(Token),
    Continue(Token),
    /// The class name, the superclass name, and the methods.
    Class(Token, Option<Token>, Vec<Stmt>),
    Expression(Expr),
    For(Token, Expr, Box<Stmt>),
    Function(Token, Vec<Token>, Box<Stmt>),
    Print(Token, Expr),
    Return(Token, Option<Expr>),
    Variable(Token, Option<Expr>),
    While(Expr, Box<Stmt>),
}


/// The mathematical value of an [`Expr`]: tokens by their views, vectors as
/// sequences.
pub enum ExprV {
    Array(Seq<ExprV>),
    Assign(TokenView, TokenView, Box<ExprV>),
    Binary(Box<ExprV>, TokenView, Box<ExprV>),
    Call(Box<ExprV>, TokenView, Seq<ExprV>),
    Dictionary(Seq<(ExprV, ExprV)>),
    Get(Box<ExprV>, TokenView),
    Grouping(Box<ExprV>),
    IfExpr(Box<ExprV>, Box<StmtV>, Box<StmtV>),
    IndexGet(Box<ExprV>, Box<ExprV>),
    IndexSet(Box<ExprV>, Box<ExprV>, Box<ExprV>),
    Lambda(Seq<TokenView>, Box<StmtV>),
    Literal(LiteralView),
    SetProperty(Box<ExprV>, TokenView, Box<ExprV>),
    SelfExpr(TokenView),
    SuperExpr(TokenView, TokenView),
    Tuple(Seq<ExprV>),
    Unary(TokenView, Box<ExprV>),
    Variable(TokenView),
}

/// The mathematical value of a [`Stmt`].
pub enum StmtV {
    Block(Seq<StmtV>),
    Break(TokenView),
    Continue(TokenView),
    Class(TokenView, Option<TokenView>, Seq<StmtV>),
    Expression(ExprV),
    For(TokenView, ExprV, Box<StmtV>),
    Function(TokenView, Seq<TokenView>, Box<StmtV>),
    Print(TokenView, ExprV),
    Return(TokenView, Option<ExprV>),
    Variable(TokenView, Option<ExprV>),
    While(ExprV, Box<StmtV>),
}

pub open spec fn opt_token_view(t: Option<Token>) -> Option<TokenView> {
    match t {
        Some(x) => Some(x@),
        None => None,
    }
}

/// The view of an expression.
pub open spec fn expr_view(e: Expr) -> ExprV
    decreases e,
{
    match e {
        Expr::Array(v) => ExprV::Array(
            Seq::new(
                v@.len(),
                |i: int|
                    if 0 <= i < v@.len() {
                        expr_view(v@[i])
                    } else {
                        ExprV::Tuple(Seq::empty())
                    },
            ),
        ),
        Expr::Assign(a, b, x) => ExprV::Assign(a@, b@, Box::new(expr_view(*x))),
        Expr::Binary(l, op, r) => ExprV::Binary(
            Box::new(expr_view(*l)),
            op@,
            Box::new(expr_view(*r)),
        ),
        Expr::Call(c, p, args) => ExprV::Call(
            Box::new(expr_view(*c)),
            p@,
            Seq::new(
                args@.len(),
                |i: int|
                    if 0 <= i < args@.len() {
                        expr_view(args@[i])
                    } else {
                        ExprV::Tuple(Seq::empty())
                    },
            ),
        ),
        Expr::Dictionary(v) => ExprV::Dictionary(
            Seq::new(
                v@.len(),
                |i: int|
                    if 0 <= i < v@.len() {
                        (expr_view(v@[i].0), expr_view(v@[i].1))
                    } else {
                        (ExprV::Tuple(Seq::empty()), ExprV::Tuple(Seq::empty()))
                    },
            ),
        ),
        Expr::Get(o, n) => ExprV::Get(Box::new(expr_view(*o)), n@),
        Expr::Grouping(x) => ExprV::Grouping(Box::new(expr_view(*x))),
        Expr::IfExpr(c, t, el) => ExprV::IfExpr(
            Box::new(expr_view(*c)),
            Box::new(stmt_view(*t)),
            Box::new(stmt_view(*el)),
        ),
        Expr::IndexGet(a, i) => ExprV::IndexGet(Box::new(expr_view(*a)), Box::new(expr_view(*i))),
        Expr::IndexSet(a, i, x) => ExprV::IndexSet(
            Box::new(expr_view(*a)),
            Box::new(expr_view(*i)),
            Box::new(expr_view(*x)),
        ),
        Expr::Lambda(ps, b) => ExprV::Lambda(tokens_view(ps@), Box::new(stmt_view(*b))),
        Expr::Literal(l) => ExprV::Literal(l@),
        Expr::SetProperty(o, n, x) => ExprV::SetProperty(
            Box::new(expr_view(*o)),
            n@,
            Box::new(expr_view(*x)),
        ),
        Expr::SelfExpr(t) => ExprV::SelfExpr(t@),
        Expr::SuperExpr(t, m) => ExprV::SuperExpr(t@, m@),
        Expr::Tuple(v) => ExprV::Tuple(
            Seq::new(
                v@.len(),
                |i: int|
                    if 0 <= i < v@.len() {
                        expr_view(v@[i])
                    } else {
                        ExprV::Tuple(Seq::empty())
                    },
            ),
        ),
        Expr::Unary(op, x) => ExprV::Unary(op@, Box::new(expr_view(*x))),
        Expr::Variable(t) => ExprV::Variable(t@),
    }
}

/// The view of a statement.
pub open spec fn stmt_view(s: Stmt) -> StmtV
    decreases s,
{
    match s {
        Stmt::Block(v) => StmtV::Block(
            Seq::new(
                v@.len(),
                |i: int|
                    if 0 <= i < v@.len() {
                        stmt_view(v@[i])
                    } else {
                        StmtV::Block(Seq::empty())
                    },
            ),
        ),
        Stmt::Break(t) => StmtV::Break(t@),
        Stmt::Continue(t) => StmtV::Continue(t@),
        Stmt::Class(n, sc, ms) => StmtV::Class(
            n@,
            opt_token_view(sc),
            Seq::new(
                ms@.len(),
                |i: int|
                    if 0 <= i < ms@.len() {
                        stmt_view(ms@[i])
                    } else {
                        StmtV::Block(Seq::empty())
                    },
            ),
        ),
        Stmt::Expression(e) => StmtV::Expression(expr_view(e)),
        Stmt::For(v, e, b) => StmtV::For(v@, expr_view(e), Box::new(stmt_view(*b))),
        Stmt::Function(n, ps, b) => StmtV::Function(n@, tokens_view(ps@), Box::new(stmt_view(*b))),
        Stmt::Print(t, e) => StmtV::Print(t@, expr_view(e)),
        Stmt::Return(t, e) => StmtV::Return(
            t@,
            match e {
                Some(x) => Some(expr_view(x)),
                None => None,
            },
        ),
        Stmt::Variable(t, e) => StmtV::Variable(
            t@,
            match e {
                Some(x) => Some(expr_view(x)),
                None => None,
            },
        ),
        Stmt::While(c, b) => StmtV::While(expr_view(c), Box::new(stmt_view(*b))),
    }
}

/// The views of a sequence of expressions.
pub closed spec fn exprs_view(v: Seq<Expr>) -> Seq<ExprV> {
    Seq::new(v.len(), |i: int| expr_view(v[i]))
}

/// The views of a sequence of statements.
pub closed spec fn stmts_view(v: Seq<Stmt>) -> Seq<StmtV> {
    Seq::new(v.len(), |i: int| stmt_view(v[i]))
}

/// The views of a sequence of key-value pairs.
pub closed spec fn pairs_view(v: Seq<(Expr, Expr)>) -> Seq<(ExprV, ExprV)> {
    Seq::new(v.len(), |i: int| (expr_view(v[i].0), expr_view(v[i].1)))
}

/// The views of statements: one for each, in order.
pub proof fn lemma_stmts_view_index(v: Seq<Stmt>)
    ensures
        stmts_view(v).len() == v.len(),
        forall|i: int| 0 <= i < v.len() ==> #[trigger] stmts_view(v)[i] == stmt_view(v[i]),
{
}

/// The views of expressions: one for each, in order.
pub proof fn lemma_exprs_view_index(v: Seq<Expr>)
    ensures
        exprs_view(v).len() == v.len(),
        forall|i: int| 0 <= i < v.len() ==> #[trigger] exprs_view(v)[i] == expr_view(v[i]),
{
}

/// The views of no expressions are empty.
pub proof fn lemma_exprs_view_empty(v: Seq<Expr>)
    requires
        v.len() == 0,
    ensures
        exprs_view(v) == Seq::<ExprV>::empty(),
{
    assert(exprs_view(v) =~= Seq::<ExprV>::empty());
}

/// Adding an expression at the end adds its view at the end.
pub proof fn lemma_exprs_view_push(v: Seq<Expr>, x: Expr)
    ensures
        exprs_view(v.push(x)) == exprs_view(v).push(expr_view(x)),
{
    assert(exprs_view(v.push(x)) =~= exprs_view(v).push(expr_view(x)));
}

/// Adding an expression at the front adds its view at the front.
pub proof fn lemma_exprs_view_insert_first(v: Seq<Expr>, x: Expr)
    ensures
        exprs_view(v.insert(0, x)) == seq![expr_view(x)] + exprs_view(v),
{
    assert(exprs_view(v.insert(0, x)) =~= seq![expr_view(x)] + exprs_view(v));
}

/// The views of no statements are empty.
pub proof fn lemma_stmts_view_empty(v: Seq<Stmt>)
    requires
        v.len() == 0,
    ensures
        stmts_view(v) == Seq::<StmtV>::empty(),
{
    assert(stmts_view(v) =~= Seq::<StmtV>::empty());
}

/// Adding a statement at the end adds its view at the end.
pub proof fn lemma_stmts_view_push(v: Seq<Stmt>, x: Stmt)
    ensures
        stmts_view(v.push(x)) == stmts_view(v).push(stmt_view(x)),
{
    assert(stmts_view(v.push(x)) =~= stmts_view(v).push(stmt_view(x)));
}

/// The views of no key-value pairs are empty.
pub proof fn lemma_pairs_view_empty(v: Seq<(Expr, Expr)>)
    requires
        v.len() == 0,
    ensures
        pairs_view(v) == Seq::<(ExprV, ExprV)>::empty(),
{
    assert(pairs_view(v) =~= Seq::<(ExprV, ExprV)>::empty());
}

/// Adding a key-value pair at the end adds its view at the end.
pub proof fn lemma_pairs_view_push(v: Seq<(Expr, Expr)>, x: (Expr, Expr))
    ensures
        pairs_view(v.push(x)) == pairs_view(v).push((expr_view(x.0), expr_view(x.1))),
{
    assert(pairs_view(v.push(x)) =~= pairs_view(v).push((expr_view(x.0), expr_view(x.1))));
}

/// A call built from well-formed parts is well-formed.
pub proof fn lemma_wf_call(c: Expr, p: Token, args: Vec<Expr>)
    requires
        wf_expr(c),
        wf_exprs(args@),
    ensures
        wf_expr(Expr::Call(Box::new(c), p, args)),
{
}

/// An array of well-formed expressions is well-formed.
pub proof fn lemma_wf_array(v: Vec<Expr>)
    requires
        wf_exprs(v@),
    ensures
        wf_expr(Expr::Array(v)),
{
}

/// A tuple of well-formed expressions is well-formed.
pub proof fn lemma_wf_tuple(v: Vec<Expr>)
    requires
        wf_exprs(v@),
    ensures
        wf_expr(Expr::Tuple(v)),
{
}

/// A dictionary of well-formed pairs is well-formed.
pub proof fn lemma_wf_dictionary(v: Vec<(Expr, Expr)>)
    requires
        wf_pairs(v@),
    ensures
        wf_expr(Expr::Dictionary(v)),
{
}

/// A block of well-formed statements is well-formed.
pub proof fn lemma_wf_block(v: Vec<Stmt>)
    requires
        wf_stmts(v@),
    ensures
        wf_stmt(Stmt::Block(v)),
{
}

/// A class of well-formed methods is well-formed.
pub proof fn lemma_wf_class(n: Token, sc: Option<Token>, v: Vec<Stmt>)
    requires
        forall|i: int| 0 <= i < v@.len() ==> is_function(#[trigger] v@[i]) && wf_stmt(v@[i]),
    ensures
        wf_stmt(Stmt::Class(n, sc, v)),
{
}

/// A `for` loop built from well-formed parts is well-formed.
pub proof fn lemma_wf_for(v: Token, e: Expr, b: Stmt)
    requires
        wf_expr(e),
        is_block(b),
        wf_stmt(b),
    ensures
        wf_stmt(Stmt::For(v, e, Box::new(b))),
{
}

/// An `if` expression built from well-formed parts is well-formed.
pub proof fn lemma_wf_if(c: Expr, t: Stmt, el: Stmt)
    requires
        wf_expr(c),
        is_block(t),
        wf_stmt(t),
        is_block(el) || (el matches Stmt::Expression(Expr::IfExpr(_, _, _))),
        wf_stmt(el),
    ensures
        wf_expr(Expr::IfExpr(Box::new(c), Box::new(t), Box::new(el))),
{
}

/// The view of a `for` loop is made of the views of its parts.
pub proof fn lemma_for_view(v: Token, e: Expr, b: Stmt)
    ensures
        stmt_view(Stmt::For(v, e, Box::new(b))) == StmtV::For(
            v@,
            expr_view(e),
            Box::new(stmt_view(b)),
        ),
{
}

/// The view of an array holds the views of its elements.
pub proof fn lemma_array_view(v: Vec<Expr>)
    ensures
        expr_view(Expr::Array(v)) == ExprV::Array(exprs_view(v@)),
{
    if let ExprV::Array(w) = expr_view(Expr::Array(v)) {
        assert(w =~= exprs_view(v@));
    }
}

/// The view of a tuple holds the views of its elements.
pub proof fn lemma_tuple_view(v: Vec<Expr>)
    ensures
        expr_view(Expr::Tuple(v)) == ExprV::Tuple(exprs_view(v@)),
{
    if let ExprV::Tuple(w) = expr_view(Expr::Tuple(v)) {
        assert(w =~= exprs_view(v@));
    }
}

/// The view of a call holds the views of its arguments.
pub proof fn lemma_call_view(c: Box<Expr>, p: Token, v: Vec<Expr>)
    ensures
        expr_view(Expr::Call(c, p, v)) == ExprV::Call(Box::new(expr_view(*c)), p@, exprs_view(v@)),
{
    if let ExprV::Call(_, _, w) = expr_view(Expr::Call(c, p, v)) {
        assert(w =~= exprs_view(v@));
    }
}

/// The view of a dictionary holds the views of its pairs.
pub proof fn lemma_dictionary_view(v: Vec<(Expr, Expr)>)
    ensures
        expr_view(Expr::Dictionary(v)) == ExprV::Dictionary(pairs_view(v@)),
{
    if let ExprV::Dictionary(w) = expr_view(Expr::Dictionary(v)) {
        assert(w =~= pairs_view(v@));
    }
}

/// The view of a block holds the views of its statements.
pub proof fn lemma_block_view(v: Vec<Stmt>)
    ensures
        stmt_view(Stmt::Block(v)) == StmtV::Block(stmts_view(v@)),
{
    if let StmtV::Block(w) = stmt_view(Stmt::Block(v)) {
        assert(w =~= stmts_view(v@));
    }
}

/// The view of a class holds the views of its methods.
pub proof fn lemma_class_view(n: Token, sc: Option<Token>, v: Vec<Stmt>)
    ensures
        stmt_view(Stmt::Class(n, sc, v)) == StmtV::Class(n@, opt_token_view(sc), stmts_view(v@)),
{
    if let StmtV::Class(_, _, w) = stmt_view(Stmt::Class(n, sc, v)) {
        assert(w =~= stmts_view(v@));
    }
}

/// The token types that an assignment expression can carry as its operator.
pub open spec fn is_assign_op(t: TokenType) -> bool {
    ||| t == TokenType::EQUAL
    ||| t == TokenType::PLUS_EQUAL
    ||| t == TokenType::MINUS_EQUAL
    ||| t == TokenType::STAR_EQUAL
    ||| t == TokenType::SLASH_EQUAL
    ||| t == TokenType::PLUS_PLUS
    ||| t == TokenType::MINUS_MINUS
}

pub open spec fn is_block(s: Stmt) -> bool {
    s is Block
}

pub open spec fn is_function(s: Stmt) -> bool {
    s is Function
}

/// A well-formed expression: every function body is a block, every
/// assignment carries an assignment operator, and the `else` branch of an
/// `if` is a block or another `if`.
pub open spec fn wf_expr(e: Expr) -> bool
    decreases e,
{
    match e {
        Expr::Array(v) => forall|i: int| 0 <= i < v@.len() ==> wf_expr(#[trigger] v@[i]),
        Expr::Assign(_, op, v) => is_assign_op(op.token_type) && wf_expr(*v),
        Expr::Binary(l, _, r) => wf_expr(*l) && wf_expr(*r),
        Expr::Call(c, _, args) => wf_expr(*c) && forall|i: int|
            0 <= i < args@.len() ==> wf_expr(#[trigger] args@[i]),
        Expr::Dictionary(ps) => forall|i: int|
            0 <= i < ps@.len() ==> wf_expr((#[trigger] ps@[i]).0) && wf_expr(ps@[i].1),
        Expr::Get(o, _) => wf_expr(*o),
        Expr::Grouping(x) => wf_expr(*x),
        Expr::IfExpr(c, t, el) => {
            &&& wf_expr(*c)
            &&& is_block(*t)
            &&& wf_stmt(*t)
            &&& (is_block(*el) || (*el matches Stmt::Expression(Expr::IfExpr(_, _, _))))
            &&& wf_stmt(*el)
        },
        Expr::IndexGet(a, i) => wf_expr(*a) && wf_expr(*i),
        Expr::IndexSet(a, i, v) => wf_expr(*a) && wf_expr(*i) && wf_expr(*v),
        Expr::Lambda(_, body) => is_block(*body) && wf_stmt(*body),
        Expr::Literal(_) => true,
        Expr::SetProperty(o, _, v) => wf_expr(*o) && wf_expr(*v),
        Expr::SelfExpr(_) => true,
        Expr::SuperExpr(_, _) => true,
        Expr::Tuple(v) => forall|i: int| 0 <= i < v@.len() ==> wf_expr(#[trigger] v@[i]),
        Expr::Unary(_, x) => wf_expr(*x),
        Expr::Variable(_) => true,
    }
}

/// A well-formed statement: every function, loop and class body has the
/// shape the later passes expect (blocks, and methods that are functions),
/// and every expression in it is well-formed.
pub open spec fn wf_stmt(s: Stmt) -> bool
    decreases s,
{
    match s {
        Stmt::Block(v) => forall|i: int| 0 <= i < v@.len() ==> wf_stmt(#[trigger] v@[i]),
        Stmt::Break(_) => true,
        Stmt::Continue(_) => true,
        Stmt::Class(_, _, methods) => forall|i: int|
            0 <= i < methods@.len() ==> is_function(#[trigger] methods@[i]) && wf_stmt(
                methods@[i],
            ),
        Stmt::Expression(e) => wf_expr(e),
        Stmt::For(_, e, b) => wf_expr(e) && is_block(*b) && wf_stmt(*b),
        Stmt::Function(_, _, b) => is_block(*b) && wf_stmt(*b),
        Stmt::Print(_, e) => wf_expr(e),
        Stmt::Return(_, e) => match e {
            Some(x) => wf_expr(x),
            None => true,
        },
        Stmt::Variable(_, e) => match e {
            Some(x) => wf_expr(x),
            None => true,
        },
        Stmt::While(c, b) => wf_expr(c) && is_block(*b) && wf_stmt(*b),
    }
}

/// Every statement of the sequence is well-formed.
pub open spec fn wf_stmts(v: Seq<Stmt>) -> bool {
    forall|i: int| 0 <= i < v.len() ==> wf_stmt(#[trigger] v[i])
}

/// Every key and value of the sequence is well-formed.
pub open spec fn wf_pairs(v: Seq<(Expr, Expr)>) -> bool {
    forall|i: int| 0 <= i < v.len() ==> wf_expr((#[trigger] v[i]).0) && wf_expr(v[i].1)
}

/// Every expression of the sequence is well-formed.
pub open spec fn wf_exprs(v: Seq<Expr>) -> bool {
    forall|i: int| 0 <= i < v.len() ==> wf_expr(#[trigger] v[i])
}

/// An expression the resolver can walk: every function body in it is a
/// block and every class method is a function.
pub open spec fn resolvable_expr(e: Expr) -> bool
    decreases e,
{
    match e {
        Expr::Array(v) => forall|i: int| 0 <= i < v@.len() ==> resolvable_expr(#[trigger] v@[i]),
        Expr::Assign(_, _, v) => resolvable_expr(*v),
        Expr::Binary(l, _, r) => resolvable_expr(*l) && resolvable_expr(*r),
        Expr::Call(c, _, args) => resolvable_expr(*c) && forall|i: int|
            0 <= i < args@.len() ==> resolvable_expr(#[trigger] args@[i]),
        Expr::Dictionary(ps) => forall|i: int|
            0 <= i < ps@.len() ==> resolvable_expr((#[trigger] ps@[i]).0) && resolvable_expr(ps@[i].1),
        Expr::Get(o, _) => resolvable_expr(*o),
        Expr::Grouping(x) => resolvable_expr(*x),
        Expr::IfExpr(c, t, el) => resolvable_expr(*c) && resolvable_stmt(*t) && resolvable_stmt(*el),
        Expr::IndexGet(a, i) => resolvable_expr(*a) && resolvable_expr(*i),
        Expr::IndexSet(a, i, v) => resolvable_expr(*a) && resolvable_expr(*i) && resolvable_expr(*v),
        Expr::Lambda(_, body) => is_block(*body) && resolvable_stmt(*body),
        Expr::Literal(_) => true,
        Expr::SetProperty(o, _, v) => resolvable_expr(*o) && resolvable_expr(*v),
        Expr::SelfExpr(_) => true,
        Expr::SuperExpr(_, _) => true,
        Expr::Tuple(v) => forall|i: int| 0 <= i < v@.len() ==> resolvable_expr(#[trigger] v@[i]),
        Expr::Unary(_, x) => resolvable_expr(*x),
        Expr::Variable(_) => true,
    }
}

/// A statement the resolver can walk: every function and `for` body in it
/// is a block and every class method is a function.
pub open spec fn resolvable_stmt(s: Stmt) -> bool
    decreases s,
{
    match s {
        Stmt::Block(v) => forall|i: int| 0 <= i < v@.len() ==> resolvable_stmt(#[trigger] v@[i]),
        Stmt::Break(_) => true,
        Stmt::Continue(_) => true,
        Stmt::Class(_, _, methods) => forall|i: int|
            0 <= i < methods@.len() ==> is_function(#[trigger] methods@[i]) && resolvable_stmt(
                methods@[i],
            ),
        Stmt::Expression(e) => resolvable_expr(e),
        Stmt::For(_, e, b) => resolvable_expr(e) && is_block(*b) && resolvable_stmt(*b),
        Stmt::Function(_, _, b) => is_block(*b) && resolvable_stmt(*b),
        Stmt::Print(_, e) => resolvable_expr(e),
        Stmt::Return(_, e) => match e {
            Some(x) => resolvable_expr(x),
            None => true,
        },
        Stmt::Variable(_, e) => match e {
            Some(x) => resolvable_expr(x),
            None => true,
        },
        Stmt::While(c, b) => resolvable_expr(c) && resolvable_stmt(*b),
    }
}

/// Every statement of the sequence can be resolved.
pub open spec fn resolvable_stmts(v: Seq<Stmt>) -> bool {
    forall|i: int| 0 <= i < v.len() ==> resolvable_stmt(#[trigger] v[i])
}

/// A well-formed expression can be resolved.
pub proof fn lemma_wf_resolvable_expr(e: Expr)
    requires
        wf_expr(e),
    ensures
        resolvable_expr(e),
    decreases e,
{
    match e {
        Expr::Array(v) => {
            assert forall|i: int| 0 <= i < v@.len() implies resolvable_expr(#[trigger] v@[i]) by {
                lemma_wf_resolvable_expr(v@[i]);
            }
        },
        Expr::Assign(_, _, v) => lemma_wf_resolvable_expr(*v),
        Expr::Binary(l, _, r) => {
            lemma_wf_resolvable_expr(*l);
            lemma_wf_resolvable_expr(*r);
        },
        Expr::Call(c, _, args) => {
            lemma_wf_resolvable_expr(*c);
            assert forall|i: int| 0 <= i < args@.len() implies resolvable_expr(#[trigger] args@[i]) by {
                lemma_wf_resolvable_expr(args@[i]);
            }
        },
        Expr::Dictionary(ps) => {
            assert forall|i: int| 0 <= i < ps@.len() implies resolvable_expr((#[trigger] ps@[i]).0)
                && resolvable_expr(ps@[i].1) by {
                lemma_wf_resolvable_expr(ps@[i].0);
                lemma_wf_resolvable_expr(ps@[i].1);
            }
        },
        Expr::Get(o, _) => lemma_wf_resolvable_expr(*o),
        Expr::Grouping(x) => lemma_wf_resolvable_expr(*x),
        Expr::IfExpr(c, t, el) => {
            lemma_wf_resolvable_expr(*c);
            lemma_wf_resolvable_stmt(*t);
            lemma_wf_resolvable_stmt(*el);
        },
        Expr::IndexGet(a, i) => {
            lemma_wf_resolvable_expr(*a);
            lemma_wf_resolvable_expr(*i);
        },
        Expr::IndexSet(a, i, v) => {
            lemma_wf_resolvable_expr(*a);
            lemma_wf_resolvable_expr(*i);
            lemma_wf_resolvable_expr(*v);
        },
        Expr::Lambda(_, body) => lemma_wf_resolvable_stmt(*body),
        Expr::SetProperty(o, _, v) => {
            lemma_wf_resolvable_expr(*o);
            lemma_wf_resolvable_expr(*v);
        },
        Expr::Tuple(v) => {
            assert forall|i: int| 0 <= i < v@.len() implies resolvable_expr(#[trigger] v@[i]) by {
                lemma_wf_resolvable_expr(v@[i]);
            }
        },
        Expr::Unary(_, x) => lemma_wf_resolvable_expr(*x),
        _ => {},
    }
}

/// A well-formed statement can be resolved.
pub proof fn lemma_wf_resolvable_stmt(s: Stmt)
    requires
        wf_stmt(s),
    ensures
        resolvable_stmt(s),
    decreases s,
{
    match s {
        Stmt::Block(v) => {
            assert forall|i: int| 0 <= i < v@.len() implies resolvable_stmt(#[trigger] v@[i]) by {
                lemma_wf_resolvable_stmt(v@[i]);
            }
        },
        Stmt::Class(_, _, methods) => {
            assert forall|i: int| 0 <= i < methods@.len() implies is_function(#[trigger] methods@[i])
                && resolvable_stmt(methods@[i]) by {
                lemma_wf_resolvable_stmt(methods@[i]);
            }
        },
        Stmt::Expression(e) => lemma_wf_resolvable_expr(e),
        Stmt::For(_, e, b) => {
            lemma_wf_resolvable_expr(e);
            lemma_wf_resolvable_stmt(*b);
        },
        Stmt::Function(_, _, b) => lemma_wf_resolvable_stmt(*b),
        Stmt::Print(_, e) => lemma_wf_resolvable_expr(e),
        Stmt::Return(_, e) => match e {
            Some(x) => lemma_wf_resolvable_expr(x),
            None => {},
        },
        Stmt::Variable(_, e) => match e {
            Some(x) => lemma_wf_resolvable_expr(x),
            None => {},
        },
        Stmt::While(c, b) => {
            lemma_wf_resolvable_expr(c);
            lemma_wf_resolvable_stmt(*b);
        },
        _ => {},
    }
}

/// Well-formed statements can be resolved.
pub proof fn lemma_wf_resolvable_stmts(v: Seq<Stmt>)
    requires
        wf_stmts(v),
    ensures
        resolvable_stmts(v),
{
    assert forall|i: int| 0 <= i < v.len() implies resolvable_stmt(#[trigger] v[i]) by {
        lemma_wf_resolvable_stmt(v[i]);
    }
}

} // verus!

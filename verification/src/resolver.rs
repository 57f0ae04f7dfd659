//! The resolver: a static pass over the syntax tree that records, for each
//! use of a local variable, how many scopes out it is declared, and reports
//! the misuses of names that can be found before the program runs.
use vstd::prelude::*;
use crate::ast::{Expr, Stmt, resolvable_expr, resolvable_stmt, resolvable_stmts};
use crate::error_handler::{CompiletimeErrorHandler, report_text, strings_view, token_where};
use crate::text::string_of;
use crate::token::{Token, TokenView};

verus! {

/// The kind of function whose body is being resolved.
#[derive(Clone, Copy, Debug, PartialEq, Eq, Structural)]
pub enum FunctionType {
    NoFunction,
    Function,
    Method,
    Initializer,
}

/// The kind of class whose body is being resolved.
#[derive(Clone, Copy, Debug, PartialEq, Eq, Structural)]
pub enum ClassType {
    NoClass,
    Class,
    Subclass,
}

/// A scope as a list of (name, defined) entries; a later entry for a name
/// overrides an earlier one.
pub open spec fn assoc_map(s: Seq<(Seq<char>, bool)>) -> Map<Seq<char>, bool>
    decreases s.len(),
{
    if s.len() == 0 {
        Map::empty()
    } else {
        assoc_map(s.drop_last()).insert(s.last().0, s.last().1)
    }
}

pub open spec fn scope_view(s: Seq<(String, bool)>) -> Map<Seq<char>, bool> {
    assoc_map(s.map_values(|p: (String, bool)| (p.0@, p.1)))
}

pub open spec fn scopes_view(v: Seq<Vec<(String, bool)>>) -> Seq<Map<Seq<char>, bool>> {
    v.map_values(|s: Vec<(String, bool)>| scope_view(s@))
}

pub open spec fn locals_view(v: Seq<(Token, usize)>) -> Seq<(TokenView, nat)> {
    v.map_values(|p: (Token, usize)| (p.0@, p.1 as nat))
}

/// What the resolver knows at a point of the program: its scopes (the
/// innermost last), the resolutions it has recorded, the errors it has
/// reported, and the kinds of the enclosing function and class and whether
/// it is inside a loop.
pub struct ResolveState {
    pub scopes: Seq<Map<Seq<char>, bool>>,
    pub locals: Seq<(TokenView, nat)>,
    pub errors: Seq<Seq<char>>,
    pub function: FunctionType,
    pub class: ClassType,
    pub in_loop: bool,
}

pub open spec fn with_error(st: ResolveState, t: TokenView, message: Seq<char>) -> ResolveState {
    ResolveState { errors: st.errors.push(report_text(Some(t.line), token_where(t), message)), ..st }
}

pub open spec fn begin_scope(st: ResolveState) -> ResolveState {
    ResolveState { scopes: st.scopes.push(Map::empty()), ..st }
}

pub open spec fn end_scope(st: ResolveState) -> ResolveState {
    if st.scopes.len() == 0 {
        st
    } else {
        ResolveState { scopes: st.scopes.drop_last(), ..st }
    }
}

/// Adds `name` to the innermost scope, if there is one.
pub open spec fn bind(st: ResolveState, name: Seq<char>, defined: bool) -> ResolveState {
    if st.scopes.len() == 0 {
        st
    } else {
        ResolveState {
            scopes: st.scopes.update(
                st.scopes.len() - 1,
                st.scopes.last().insert(name, defined),
            ),
            ..st
        }
    }
}

pub open spec fn declare(st: ResolveState, t: TokenView) -> ResolveState {
    if st.scopes.len() == 0 {
        st
    } else if st.scopes.last().dom().contains(t.lexeme) {
        with_error(st, t, "Variable with this name already declared in this scope."@)
    } else {
        bind(st, t.lexeme, false)
    }
}

pub open spec fn define(st: ResolveState, t: TokenView) -> ResolveState {
    bind(st, t.lexeme, true)
}

/// How many scopes out from the innermost one `name` is declared.
pub open spec fn depth_of(scopes: Seq<Map<Seq<char>, bool>>, name: Seq<char>) -> Option<nat>
    decreases scopes.len(),
{
    if scopes.len() == 0 {
        None
    } else if scopes.last().dom().contains(name) {
        Some(0)
    } else {
        match depth_of(scopes.drop_last(), name) {
            Some(d) => Some(d + 1),
            None => None,
        }
    }
}

/// Records the depth of a local variable; a name declared in no scope is
/// global and not recorded.
pub open spec fn resolve_local(st: ResolveState, t: TokenView) -> ResolveState {
    match depth_of(st.scopes, t.lexeme) {
        Some(d) => ResolveState { locals: st.locals.push((t, d)), ..st },
        None => st,
    }
}

pub open spec fn declare_params(st: ResolveState, params: Seq<TokenView>) -> ResolveState
    decreases params.len(),
{
    if params.len() == 0 {
        st
    } else {
        let s = declare_params(st, params.drop_last());
        define(declare(s, params.last()), params.last())
    }
}

pub open spec fn tokens_of(v: Seq<Token>) -> Seq<TokenView> {
    v.map_values(|t: Token| t@)
}

/// The statements of a block (none for any other statement).
pub open spec fn block_stmts(s: Stmt) -> Seq<Stmt> {
    match s {
        Stmt::Block(v) => v@,
        _ => Seq::empty(),
    }
}

pub open spec fn with_flags(st: ResolveState, function: FunctionType, in_loop: bool) -> ResolveState {
    ResolveState { function, in_loop, ..st }
}

pub open spec fn with_class(st: ResolveState, class: ClassType) -> ResolveState {
    ResolveState { class, ..st }
}

pub open spec fn with_loop(st: ResolveState, in_loop: bool) -> ResolveState {
    ResolveState { in_loop, ..st }
}

/// A function: its parameters and body in a scope of their own, outside
/// any loop.
pub open spec fn resolve_function(
    st: ResolveState,
    params: Seq<TokenView>,
    body: Stmt,
    ft: FunctionType,
) -> ResolveState
    decreases body, 0nat,
{
    let a = declare_params(begin_scope(with_flags(st, ft, false)), params);
    let b = match body {
        Stmt::Block(v) => resolve_stmts(a, v@),
        _ => a,
    };
    with_flags(end_scope(b), st.function, st.in_loop)
}

/// The statements of `v`, in order.
pub open spec fn resolve_stmts(st: ResolveState, v: Seq<Stmt>) -> ResolveState
    decreases v, v.len(),
{
    if v.len() == 0 {
        st
    } else {
        resolve_stmt(resolve_stmts(st, v.drop_last()), v.last())
    }
}

/// The expressions of `v`, in order.
pub open spec fn resolve_exprs(st: ResolveState, v: Seq<Expr>) -> ResolveState
    decreases v, v.len(),
{
    if v.len() == 0 {
        st
    } else {
        resolve_expr(resolve_exprs(st, v.drop_last()), v.last())
    }
}

/// The keys and values of `v`, in order.
pub open spec fn resolve_pairs(st: ResolveState, v: Seq<(Expr, Expr)>) -> ResolveState
    decreases v, v.len(),
{
    if v.len() == 0 {
        st
    } else {
        let s = resolve_pairs(st, v.drop_last());
        resolve_expr(resolve_expr(s, v.last().0), v.last().1)
    }
}

/// The methods of a class; a method named `init` is an initializer.
pub open spec fn resolve_methods(st: ResolveState, v: Seq<Stmt>) -> ResolveState
    decreases v, v.len(),
{
    if v.len() == 0 {
        st
    } else {
        let s = resolve_methods(st, v.drop_last());
        match v.last() {
            Stmt::Function(name, params, body) => resolve_function(
                s,
                tokens_of(params@),
                *body,
                if name.lexeme@ == "init"@ {
                    FunctionType::Initializer
                } else {
                    FunctionType::Method
                },
            ),
            _ => s,
        }
    }
}

pub open spec fn resolve_stmt(st: ResolveState, s: Stmt) -> ResolveState
    decreases s, 0nat,
{
    match s {
        Stmt::Block(v) => end_scope(resolve_stmts(begin_scope(st), v@)),
        Stmt::Break(t) => if !st.in_loop {
            with_error(st, t@, "Break statements can only be used inside loops."@)
        } else {
            st
        },
        Stmt::Continue(t) => if !st.in_loop {
            with_error(st, t@, "Continue statements can only be used inside loops."@)
        } else {
            st
        },
        Stmt::Class(name, superclass, methods) => {
            let a = define(declare(st, name@), name@);
            let b = match superclass {
                Some(sc) => {
                    let x = resolve_local(a, sc@);
                    let y = if sc.lexeme@ == name.lexeme@ {
                        with_error(x, sc@, "A class cannot inherit from itself."@)
                    } else {
                        x
                    };
                    bind(begin_scope(y), "super"@, true)
                },
                None => a,
            };
            let c = bind(begin_scope(b), "self"@, true);
            let d = resolve_methods(
                with_class(
                    c,
                    if superclass is Some {
                        ClassType::Subclass
                    } else {
                        ClassType::Class
                    },
                ),
                methods@,
            );
            let e = if superclass is Some {
                end_scope(d)
            } else {
                d
            };
            end_scope(with_class(e, st.class))
        },
        Stmt::Expression(e) => resolve_expr(st, e),
        Stmt::For(var, e, body) => {
            let a = resolve_expr(st, e);
            let b = define(declare(begin_scope(with_loop(a, true)), var@), var@);
            let c = end_scope(
                match *body {
                    Stmt::Block(v) => resolve_stmts(b, v@),
                    _ => b,
                },
            );
            with_loop(c, a.in_loop)
        },
        Stmt::Function(name, params, body) => {
            let a = define(declare(st, name@), name@);
            resolve_function(a, tokens_of(params@), *body, FunctionType::Function)
        },
        Stmt::Print(_, e) => resolve_expr(st, e),
        Stmt::Return(t, value) => {
            let a = if st.function == FunctionType::NoFunction {
                with_error(st, t@, "Cannot return from top-level code."@)
            } else {
                st
            };
            match value {
                Some(e) => {
                    let b = if st.function == FunctionType::Initializer {
                        with_error(a, t@, "Cannot return a value from an initializer."@)
                    } else {
                        a
                    };
                    resolve_expr(b, e)
                },
                None => a,
            }
        },
        Stmt::Variable(var, init) => {
            let a = declare(st, var@);
            let b = match init {
                Some(e) => resolve_expr(a, e),
                None => a,
            };
            define(b, var@)
        },
        Stmt::While(c, body) => {
            let a = resolve_expr(st, c);
            let b = resolve_stmt(with_loop(a, true), *body);
            with_loop(b, a.in_loop)
        },
    }
}

pub open spec fn resolve_expr(st: ResolveState, e: Expr) -> ResolveState
    decreases e, 0nat,
{
    match e {
        Expr::Array(v) => resolve_exprs(st, v@),
        Expr::Assign(var, _, value) => resolve_local(resolve_expr(st, *value), var@),
        Expr::Binary(l, _, r) => resolve_expr(resolve_expr(st, *l), *r),
        Expr::Call(callee, _, args) => resolve_exprs(resolve_expr(st, *callee), args@),
        Expr::Dictionary(v) => resolve_pairs(st, v@),
        Expr::Get(o, _) => resolve_expr(st, *o),
        Expr::Grouping(x) => resolve_expr(st, *x),
        Expr::IfExpr(c, t, el) => resolve_stmt(resolve_stmt(resolve_expr(st, *c), *t), *el),
        Expr::IndexGet(a, i) => resolve_expr(resolve_expr(st, *a), *i),
        Expr::IndexSet(a, i, v) => resolve_expr(resolve_expr(resolve_expr(st, *a), *i), *v),
        Expr::Lambda(params, body) => resolve_function(
            st,
            tokens_of(params@),
            *body,
            FunctionType::Function,
        ),
        Expr::Literal(_) => st,
        Expr::SetProperty(o, _, v) => resolve_expr(resolve_expr(st, *o), *v),
        Expr::SelfExpr(t) => {
            let a = if st.class == ClassType::NoClass {
                with_error(st, t@, "Cannot use 'self' outside of a class."@)
            } else {
                st
            };
            resolve_local(a, t@)
        },
        Expr::SuperExpr(t, _) => {
            let a = if st.class == ClassType::NoClass {
                with_error(st, t@, "Cannot use 'super' outside of a class."@)
            } else if st.class == ClassType::Class {
                with_error(st, t@, "Cannot use 'super' inside a class with no superclass."@)
            } else {
                st
            };
            resolve_local(a, t@)
        },
        Expr::Tuple(v) => resolve_exprs(st, v@),
        Expr::Unary(_, x) => resolve_expr(st, *x),
        Expr::Variable(t) => {
            if st.scopes.len() > 0 && st.scopes.last().dom().contains(t.lexeme@)
                && !st.scopes.last()[t.lexeme@] {
                // Declared but not defined: the variable is used in its own initializer.
                with_error(st, t@, "Cannot use a variable in its own initializer."@)
            } else {
                resolve_local(st, t@)
            }
        },
    }
}

/// `b` has as many scopes as `a`, the same enclosing function, class and
/// loop, and has only added to `a`'s resolutions and errors.
pub open spec fn keeps_context(a: ResolveState, b: ResolveState) -> bool {
    &&& b.scopes.len() == a.scopes.len()
    &&& b.function == a.function
    &&& b.class == a.class
    &&& b.in_loop == a.in_loop
    &&& a.locals.is_prefix_of(b.locals)
    &&& a.errors.is_prefix_of(b.errors)
}

proof fn lemma_prefix_trans<A>(a: Seq<A>, b: Seq<A>, c: Seq<A>)
    requires
        a.is_prefix_of(b),
        b.is_prefix_of(c),
    ensures
        a.is_prefix_of(c),
{
    assert forall|i: int| 0 <= i < a.len() implies a[i] == c[i] by {
        assert(a[i] == b.subrange(0, a.len() as int)[i]);
        assert(b[i] == c.subrange(0, b.len() as int)[i]);
    }
    assert(a =~= c.subrange(0, a.len() as int));
}

proof fn lemma_prefix_push<A>(a: Seq<A>, x: A)
    ensures
        a.is_prefix_of(a.push(x)),
{
    assert(a =~= a.push(x).subrange(0, a.len() as int));
}

proof fn lemma_prefix_refl<A>(a: Seq<A>)
    ensures
        a.is_prefix_of(a),
{
    assert(a =~= a.subrange(0, a.len() as int));
}

proof fn lemma_keeps_trans(a: ResolveState, b: ResolveState, c: ResolveState)
    requires
        keeps_context(a, b),
        keeps_context(b, c),
    ensures
        keeps_context(a, c),
{
    lemma_prefix_trans(a.locals, b.locals, c.locals);
    lemma_prefix_trans(a.errors, b.errors, c.errors);
}

proof fn lemma_keeps_refl(a: ResolveState)
    ensures
        keeps_context(a, a),
{
    lemma_prefix_refl(a.locals);
    lemma_prefix_refl(a.errors);
}

/// Declaring, defining, reporting and recording a resolution keep the
/// context.
proof fn lemma_small_steps(st: ResolveState, t: TokenView, m: Seq<char>)
    ensures
        keeps_context(st, declare(st, t)),
        keeps_context(st, define(st, t)),
        keeps_context(st, with_error(st, t, m)),
        keeps_context(st, resolve_local(st, t)),
        keeps_context(st, bind(st, t.lexeme, true)),
{
    lemma_prefix_refl(st.locals);
    lemma_prefix_refl(st.errors);
    lemma_prefix_push(st.errors, report_text(Some(t.line), token_where(t), m));
    lemma_prefix_push(
        st.errors,
        report_text(
            Some(t.line),
            token_where(t),
            "Variable with this name already declared in this scope."@,
        ),
    );
    match depth_of(st.scopes, t.lexeme) {
        Some(d) => lemma_prefix_push(st.locals, (t, d)),
        None => {},
    }
}

proof fn lemma_params_keep(st: ResolveState, params: Seq<TokenView>)
    ensures
        keeps_context(st, declare_params(st, params)),
    decreases params.len(),
{
    if params.len() == 0 {
        lemma_keeps_refl(st);
    } else {
        let s = declare_params(st, params.drop_last());
        lemma_params_keep(st, params.drop_last());
        lemma_small_steps(s, params.last(), Seq::empty());
        let d = declare(s, params.last());
        lemma_small_steps(d, params.last(), Seq::empty());
        lemma_keeps_trans(st, s, d);
        lemma_keeps_trans(st, d, define(d, params.last()));
    }
}

/// A function leaves the resolver's context as it found it.
pub proof fn lemma_function_keeps(
    st: ResolveState,
    params: Seq<TokenView>,
    body: Stmt,
    ft: FunctionType,
)
    ensures
        keeps_context(st, resolve_function(st, params, body, ft)),
    decreases body, 0nat,
{
    let a0 = begin_scope(with_flags(st, ft, false));
    let a = declare_params(a0, params);
    lemma_params_keep(a0, params);
    let b = match body {
        Stmt::Block(v) => resolve_stmts(a, v@),
        _ => a,
    };
    match body {
        Stmt::Block(v) => lemma_stmts_keep(a, v@),
        _ => lemma_keeps_refl(a),
    }
    lemma_keeps_trans(a0, a, b);
}

/// Statements in sequence leave the resolver's context as they found it.
pub proof fn lemma_stmts_keep(st: ResolveState, v: Seq<Stmt>)
    ensures
        keeps_context(st, resolve_stmts(st, v)),
    decreases v, v.len(),
{
    if v.len() == 0 {
        lemma_keeps_refl(st);
    } else {
        let s = resolve_stmts(st, v.drop_last());
        lemma_stmts_keep(st, v.drop_last());
        lemma_stmt_keeps(s, v.last());
        lemma_keeps_trans(st, s, resolve_stmt(s, v.last()));
    }
}

/// Resolving a sequence of expressions leaves the context as it found it.
pub proof fn lemma_exprs_keep(st: ResolveState, v: Seq<Expr>)
    ensures
        keeps_context(st, resolve_exprs(st, v)),
    decreases v, v.len(),
{
    if v.len() == 0 {
        lemma_keeps_refl(st);
    } else {
        let s = resolve_exprs(st, v.drop_last());
        lemma_exprs_keep(st, v.drop_last());
        lemma_expr_keeps(s, v.last());
        lemma_keeps_trans(st, s, resolve_expr(s, v.last()));
    }
}

/// Resolving key-value pairs leaves the context as it found it.
pub proof fn lemma_pairs_keep(st: ResolveState, v: Seq<(Expr, Expr)>)
    ensures
        keeps_context(st, resolve_pairs(st, v)),
    decreases v, v.len(),
{
    if v.len() == 0 {
        lemma_keeps_refl(st);
    } else {
        let s = resolve_pairs(st, v.drop_last());
        lemma_pairs_keep(st, v.drop_last());
        let k = resolve_expr(s, v.last().0);
        lemma_expr_keeps(s, v.last().0);
        lemma_expr_keeps(k, v.last().1);
        lemma_keeps_trans(st, s, k);
        lemma_keeps_trans(st, k, resolve_expr(k, v.last().1));
    }
}

/// Resolving the methods of a class leaves the context as it found it.
pub proof fn lemma_methods_keep(st: ResolveState, v: Seq<Stmt>)
    ensures
        keeps_context(st, resolve_methods(st, v)),
    decreases v, v.len(),
{
    if v.len() == 0 {
        lemma_keeps_refl(st);
    } else {
        let s = resolve_methods(st, v.drop_last());
        lemma_methods_keep(st, v.drop_last());
        match v.last() {
            Stmt::Function(name, params, body) => {
                let ft = if name.lexeme@ == "init"@ {
                    FunctionType::Initializer
                } else {
                    FunctionType::Method
                };
                lemma_function_keeps(s, tokens_of(params@), *body, ft);
                lemma_keeps_trans(st, s, resolve_function(s, tokens_of(params@), *body, ft));
            },
            _ => {},
        }
    }
}

/// A class declaration leaves the resolver's context as it found it.
proof fn lemma_class_keeps(st: ResolveState, s: Stmt)
    requires
        s is Class,
    ensures
        keeps_context(st, resolve_stmt(st, s)),
    decreases s, 0nat,
{
    match s {
        Stmt::Class(name, superclass, methods) => {
            let d0 = declare(st, name@);
            lemma_small_steps(st, name@, Seq::empty());
            let a = define(d0, name@);
            lemma_small_steps(d0, name@, Seq::empty());
            lemma_keeps_trans(st, d0, a);
            let b = match superclass {
                Some(sc) => {
                    let x = resolve_local(a, sc@);
                    let y = if sc.lexeme@ == name.lexeme@ {
                        with_error(x, sc@, "A class cannot inherit from itself."@)
                    } else {
                        x
                    };
                    bind(begin_scope(y), "super"@, true)
                },
                None => a,
            };
            match superclass {
                Some(sc) => {
                    let x = resolve_local(a, sc@);
                    lemma_small_steps(a, sc@, Seq::empty());
                    lemma_small_steps(x, sc@, "A class cannot inherit from itself."@);
                    lemma_keeps_refl(x);
                    let y = if sc.lexeme@ == name.lexeme@ {
                        with_error(x, sc@, "A class cannot inherit from itself."@)
                    } else {
                        x
                    };
                    lemma_keeps_trans(a, x, y);
                    lemma_keeps_trans(st, a, y);
                    lemma_prefix_refl(y.locals);
                    lemma_prefix_refl(y.errors);
                },
                None => {},
            }
            let c = bind(begin_scope(b), "self"@, true);
            let cls = with_class(
                c,
                if superclass is Some {
                    ClassType::Subclass
                } else {
                    ClassType::Class
                },
            );
            lemma_methods_keep(cls, methods@);
            let d = resolve_methods(cls, methods@);
            let e = if superclass is Some {
                end_scope(d)
            } else {
                d
            };
            lemma_prefix_refl(b.locals);
            lemma_prefix_refl(b.errors);
            lemma_prefix_trans(b.locals, cls.locals, d.locals);
            lemma_prefix_trans(b.errors, cls.errors, d.errors);
            match superclass {
                Some(_) => {
                    lemma_prefix_trans(st.locals, b.locals, d.locals);
                    lemma_prefix_trans(st.errors, b.errors, d.errors);
                },
                None => {
                    lemma_prefix_trans(st.locals, b.locals, d.locals);
                    lemma_prefix_trans(st.errors, b.errors, d.errors);
                },
            }
        },
        _ => {},
    }
}

/// Resolving a statement leaves the number of scopes, the enclosing
/// function and class kinds and the loop flag as they were, and only adds to
/// the resolutions and errors.
pub proof fn lemma_stmt_keeps(st: ResolveState, s: Stmt)
    ensures
        keeps_context(st, resolve_stmt(st, s)),
    decreases s, 1nat,
{
    match s {
        Stmt::Block(v) => {
            lemma_stmts_keep(begin_scope(st), v@);
        },
        Stmt::Break(t) => {
            lemma_small_steps(st, t@, "Break statements can only be used inside loops."@);
            lemma_keeps_refl(st);
        },
        Stmt::Continue(t) => {
            lemma_small_steps(st, t@, "Continue statements can only be used inside loops."@);
            lemma_keeps_refl(st);
        },
        Stmt::Class(..) => lemma_class_keeps(st, s),
        Stmt::Expression(e) => {
            lemma_expr_keeps(st, e);
        },
        Stmt::For(var, e, body) => {
            let a = resolve_expr(st, e);
            lemma_expr_keeps(st, e);
            let b0 = begin_scope(with_loop(a, true));
            let d0 = declare(b0, var@);
            lemma_small_steps(b0, var@, Seq::empty());
            let b = define(d0, var@);
            lemma_small_steps(d0, var@, Seq::empty());
            lemma_keeps_trans(b0, d0, b);
            let inner = match *body {
                Stmt::Block(v) => resolve_stmts(b, v@),
                _ => b,
            };
            match *body {
                Stmt::Block(v) => lemma_stmts_keep(b, v@),
                _ => lemma_keeps_refl(b),
            }
            lemma_keeps_trans(b0, b, inner);
            lemma_prefix_trans(st.locals, a.locals, inner.locals);
            lemma_prefix_trans(st.errors, a.errors, inner.errors);
        },
        Stmt::Function(name, params, body) => {
            let d0 = declare(st, name@);
            lemma_small_steps(st, name@, Seq::empty());
            let a = define(d0, name@);
            lemma_small_steps(d0, name@, Seq::empty());
            lemma_keeps_trans(st, d0, a);
            lemma_function_keeps(a, tokens_of(params@), *body, FunctionType::Function);
            lemma_keeps_trans(
                st,
                a,
                resolve_function(a, tokens_of(params@), *body, FunctionType::Function),
            );
        },
        Stmt::Print(_, e) => {
            lemma_expr_keeps(st, e);
        },
        Stmt::Return(t, value) => {
            lemma_small_steps(st, t@, "Cannot return from top-level code."@);
            lemma_keeps_refl(st);
            let a = if st.function == FunctionType::NoFunction {
                with_error(st, t@, "Cannot return from top-level code."@)
            } else {
                st
            };
            match value {
                Some(e) => {
                    lemma_small_steps(a, t@, "Cannot return a value from an initializer."@);
                    lemma_keeps_refl(a);
                    let b = if st.function == FunctionType::Initializer {
                        with_error(a, t@, "Cannot return a value from an initializer."@)
                    } else {
                        a
                    };
                    lemma_expr_keeps(b, e);
                    lemma_keeps_trans(st, a, b);
                    lemma_keeps_trans(st, b, resolve_expr(b, e));
                },
                None => {},
            }
        },
        Stmt::Variable(var, init) => {
            let a = declare(st, var@);
            lemma_small_steps(st, var@, Seq::empty());
            let b = match init {
                Some(e) => resolve_expr(a, e),
                None => a,
            };
            match init {
                Some(e) => lemma_expr_keeps(a, e),
                None => lemma_keeps_refl(a),
            }
            lemma_small_steps(b, var@, Seq::empty());
            lemma_keeps_trans(st, a, b);
            lemma_keeps_trans(st, b, define(b, var@));
        },
        Stmt::While(c, body) => {
            let a = resolve_expr(st, c);
            lemma_expr_keeps(st, c);
            lemma_stmt_keeps(with_loop(a, true), *body);
            let b = resolve_stmt(with_loop(a, true), *body);
            lemma_prefix_trans(st.locals, a.locals, b.locals);
            lemma_prefix_trans(st.errors, a.errors, b.errors);
        },
    }
}

/// Resolving an expression leaves the resolver's context as it found it.
pub proof fn lemma_expr_keeps(st: ResolveState, e: Expr)
    ensures
        keeps_context(st, resolve_expr(st, e)),
    decreases e, 0nat,
{
    match e {
        Expr::Array(v) => lemma_exprs_keep(st, v@),
        Expr::Assign(var, _, value) => {
            let a = resolve_expr(st, *value);
            lemma_expr_keeps(st, *value);
            lemma_small_steps(a, var@, Seq::empty());
            lemma_keeps_trans(st, a, resolve_local(a, var@));
        },
        Expr::Binary(l, _, r) => {
            let a = resolve_expr(st, *l);
            lemma_expr_keeps(st, *l);
            lemma_expr_keeps(a, *r);
            lemma_keeps_trans(st, a, resolve_expr(a, *r));
        },
        Expr::Call(callee, _, args) => {
            let a = resolve_expr(st, *callee);
            lemma_expr_keeps(st, *callee);
            lemma_exprs_keep(a, args@);
            lemma_keeps_trans(st, a, resolve_exprs(a, args@));
        },
        Expr::Dictionary(v) => lemma_pairs_keep(st, v@),
        Expr::Get(o, _) => lemma_expr_keeps(st, *o),
        Expr::Grouping(x) => lemma_expr_keeps(st, *x),
        Expr::IfExpr(c, t, el) => {
            let a = resolve_expr(st, *c);
            lemma_expr_keeps(st, *c);
            let b = resolve_stmt(a, *t);
            lemma_stmt_keeps(a, *t);
            lemma_stmt_keeps(b, *el);
            lemma_keeps_trans(st, a, b);
            lemma_keeps_trans(st, b, resolve_stmt(b, *el));
        },
        Expr::IndexGet(x, i) => {
            let a = resolve_expr(st, *x);
            lemma_expr_keeps(st, *x);
            lemma_expr_keeps(a, *i);
            lemma_keeps_trans(st, a, resolve_expr(a, *i));
        },
        Expr::IndexSet(x, i, v) => {
            let a = resolve_expr(st, *x);
            lemma_expr_keeps(st, *x);
            let b = resolve_expr(a, *i);
            lemma_expr_keeps(a, *i);
            lemma_expr_keeps(b, *v);
            lemma_keeps_trans(st, a, b);
            lemma_keeps_trans(st, b, resolve_expr(b, *v));
        },
        Expr::Lambda(params, body) => {
            lemma_function_keeps(st, tokens_of(params@), *body, FunctionType::Function);
        },
        Expr::Literal(_) => lemma_keeps_refl(st),
        Expr::SetProperty(o, _, v) => {
            let a = resolve_expr(st, *o);
            lemma_expr_keeps(st, *o);
            lemma_expr_keeps(a, *v);
            lemma_keeps_trans(st, a, resolve_expr(a, *v));
        },
        Expr::SelfExpr(t) => {
            lemma_small_steps(st, t@, "Cannot use 'self' outside of a class."@);
            lemma_keeps_refl(st);
            let a = if st.class == ClassType::NoClass {
                with_error(st, t@, "Cannot use 'self' outside of a class."@)
            } else {
                st
            };
            lemma_small_steps(a, t@, Seq::empty());
            lemma_keeps_trans(st, a, resolve_local(a, t@));
        },
        Expr::SuperExpr(t, _) => {
            lemma_small_steps(st, t@, "Cannot use 'super' outside of a class."@);
            lemma_small_steps(st, t@, "Cannot use 'super' inside a class with no superclass."@);
            lemma_keeps_refl(st);
            let a = if st.class == ClassType::NoClass {
                with_error(st, t@, "Cannot use 'super' outside of a class."@)
            } else if st.class == ClassType::Class {
                with_error(st, t@, "Cannot use 'super' inside a class with no superclass."@)
            } else {
                st
            };
            lemma_small_steps(a, t@, Seq::empty());
            lemma_keeps_trans(st, a, resolve_local(a, t@));
        },
        Expr::Tuple(v) => lemma_exprs_keep(st, v@),
        Expr::Unary(_, x) => lemma_expr_keeps(st, *x),
        Expr::Variable(t) => {
            lemma_small_steps(st, t@, "Cannot use a variable in its own initializer."@);
        },
    }
}

/// `st` with `locals` recorded and `errors` reported before its own.
pub open spec fn after(locals: Seq<(TokenView, nat)>, errors: Seq<Seq<char>>, st: ResolveState) -> ResolveState {
    ResolveState { locals: locals + st.locals, errors: errors + st.errors, ..st }
}

/// `st` with nothing recorded or reported yet.
pub open spec fn fresh(st: ResolveState) -> ResolveState {
    ResolveState { locals: Seq::empty(), errors: Seq::empty(), ..st }
}

proof fn lemma_after_steps(l: Seq<(TokenView, nat)>, e: Seq<Seq<char>>, st: ResolveState, t: TokenView, m: Seq<char>)
    ensures
        with_error(after(l, e, st), t, m) == after(l, e, with_error(st, t, m)),
        resolve_local(after(l, e, st), t) == after(l, e, resolve_local(st, t)),
        declare(after(l, e, st), t) == after(l, e, declare(st, t)),
        define(after(l, e, st), t) == after(l, e, define(st, t)),
{
    let x = report_text(Some(t.line), token_where(t), m);
    assert((e + st.errors).push(x) =~= e + st.errors.push(x));
    let y = report_text(Some(t.line), token_where(t), "Variable with this name already declared in this scope."@);
    assert((e + st.errors).push(y) =~= e + st.errors.push(y));
    match depth_of(st.scopes, t.lexeme) {
        Some(d) => {
            assert((l + st.locals).push((t, d)) =~= l + st.locals.push((t, d)));
        },
        None => {},
    }
}

proof fn lemma_after_params(l: Seq<(TokenView, nat)>, e: Seq<Seq<char>>, st: ResolveState, params: Seq<TokenView>)
    ensures
        declare_params(after(l, e, st), params) == after(l, e, declare_params(st, params)),
    decreases params.len(),
{
    if params.len() > 0 {
        lemma_after_params(l, e, st, params.drop_last());
        let s = declare_params(st, params.drop_last());
        lemma_after_steps(l, e, s, params.last(), Seq::empty());
        lemma_after_steps(l, e, declare(s, params.last()), params.last(), Seq::empty());
    }
}

/// Resolving a function records and reports the same whatever was recorded
/// and reported before.
pub proof fn lemma_function_frame(
    l: Seq<(TokenView, nat)>,
    e: Seq<Seq<char>>,
    st: ResolveState,
    params: Seq<TokenView>,
    body: Stmt,
    ft: FunctionType,
)
    ensures
        resolve_function(after(l, e, st), params, body, ft) == after(l, e, resolve_function(st, params, body, ft)),
    decreases body, 0nat,
{
    let a0 = begin_scope(with_flags(st, ft, false));
    assert(begin_scope(with_flags(after(l, e, st), ft, false)) == after(l, e, a0));
    lemma_after_params(l, e, a0, params);
    let a = declare_params(a0, params);
    match body {
        Stmt::Block(v) => lemma_stmts_frame(l, e, a, v@),
        _ => {},
    }
}

/// Resolving statements in sequence records and reports the same whatever
/// was recorded and reported before.
pub proof fn lemma_stmts_frame(l: Seq<(TokenView, nat)>, e: Seq<Seq<char>>, st: ResolveState, v: Seq<Stmt>)
    ensures
        resolve_stmts(after(l, e, st), v) == after(l, e, resolve_stmts(st, v)),
    decreases v, v.len(),
{
    if v.len() > 0 {
        lemma_stmts_frame(l, e, st, v.drop_last());
        lemma_stmt_frame(l, e, resolve_stmts(st, v.drop_last()), v.last());
    }
}

/// Resolving expressions in sequence records and reports the same whatever
/// was recorded and reported before.
pub proof fn lemma_exprs_frame(l: Seq<(TokenView, nat)>, e: Seq<Seq<char>>, st: ResolveState, v: Seq<Expr>)
    ensures
        resolve_exprs(after(l, e, st), v) == after(l, e, resolve_exprs(st, v)),
    decreases v, v.len(),
{
    if v.len() > 0 {
        lemma_exprs_frame(l, e, st, v.drop_last());
        lemma_expr_frame(l, e, resolve_exprs(st, v.drop_last()), v.last());
    }
}

/// Resolving key-value pairs records and reports the same whatever was
/// recorded and reported before.
pub proof fn lemma_pairs_frame(l: Seq<(TokenView, nat)>, e: Seq<Seq<char>>, st: ResolveState, v: Seq<(Expr, Expr)>)
    ensures
        resolve_pairs(after(l, e, st), v) == after(l, e, resolve_pairs(st, v)),
    decreases v, v.len(),
{
    if v.len() > 0 {
        lemma_pairs_frame(l, e, st, v.drop_last());
        let s = resolve_pairs(st, v.drop_last());
        lemma_expr_frame(l, e, s, v.last().0);
        lemma_expr_frame(l, e, resolve_expr(s, v.last().0), v.last().1);
    }
}

/// Resolving the methods of a class records and reports the same whatever
/// was recorded and reported before.
pub proof fn lemma_methods_frame(l: Seq<(TokenView, nat)>, e: Seq<Seq<char>>, st: ResolveState, v: Seq<Stmt>)
    ensures
        resolve_methods(after(l, e, st), v) == after(l, e, resolve_methods(st, v)),
    decreases v, v.len(),
{
    if v.len() > 0 {
        lemma_methods_frame(l, e, st, v.drop_last());
        let s = resolve_methods(st, v.drop_last());
        match v.last() {
            Stmt::Function(name, params, body) => {
                let ft = if name.lexeme@ == "init"@ {
                    FunctionType::Initializer
                } else {
                    FunctionType::Method
                };
                lemma_function_frame(l, e, s, tokens_of(params@), *body, ft);
            },
            _ => {},
        }
    }
}

proof fn lemma_class_frame(l: Seq<(TokenView, nat)>, e: Seq<Seq<char>>, st: ResolveState, s: Stmt)
    requires
        s is Class,
    ensures
        resolve_stmt(after(l, e, st), s) == after(l, e, resolve_stmt(st, s)),
    decreases s, 0nat,
{
    match s {
        Stmt::Class(name, superclass, methods) => {
            lemma_after_steps(l, e, st, name@, Seq::empty());
            let d0 = declare(st, name@);
            lemma_after_steps(l, e, d0, name@, Seq::empty());
            let a = define(d0, name@);
            match superclass {
                Some(sc) => {
                    lemma_after_steps(l, e, a, sc@, Seq::empty());
                    let x = resolve_local(a, sc@);
                    lemma_after_steps(l, e, x, sc@, "A class cannot inherit from itself."@);
                },
                None => {},
            }
            let b = match superclass {
                Some(sc) => {
                    let x = resolve_local(a, sc@);
                    let y = if sc.lexeme@ == name.lexeme@ {
                        with_error(x, sc@, "A class cannot inherit from itself."@)
                    } else {
                        x
                    };
                    bind(begin_scope(y), "super"@, true)
                },
                None => a,
            };
            let c = bind(begin_scope(b), "self"@, true);
            let cls = with_class(
                c,
                if superclass is Some {
                    ClassType::Subclass
                } else {
                    ClassType::Class
                },
            );
            lemma_methods_frame(l, e, cls, methods@);
        },
        _ => {},
    }
}

/// Resolving a statement records the same resolutions and reports the same
/// errors whatever was recorded and reported before: what it adds depends
/// only on the scopes, the enclosing function and class and the loop flag.
pub proof fn lemma_stmt_frame(l: Seq<(TokenView, nat)>, e: Seq<Seq<char>>, st: ResolveState, s: Stmt)
    ensures
        resolve_stmt(after(l, e, st), s) == after(l, e, resolve_stmt(st, s)),
    decreases s, 1nat,
{
    match s {
        Stmt::Block(v) => lemma_stmts_frame(l, e, begin_scope(st), v@),
        Stmt::Break(t) => lemma_after_steps(l, e, st, t@, "Break statements can only be used inside loops."@),
        Stmt::Continue(t) => lemma_after_steps(l, e, st, t@, "Continue statements can only be used inside loops."@),
        Stmt::Class(..) => lemma_class_frame(l, e, st, s),
        Stmt::Expression(x) => lemma_expr_frame(l, e, st, x),
        Stmt::For(var, x, body) => {
            lemma_expr_frame(l, e, st, x);
            let a = resolve_expr(st, x);
            let b0 = begin_scope(with_loop(a, true));
            lemma_after_steps(l, e, b0, var@, Seq::empty());
            lemma_after_steps(l, e, declare(b0, var@), var@, Seq::empty());
            let b = define(declare(b0, var@), var@);
            match *body {
                Stmt::Block(v) => lemma_stmts_frame(l, e, b, v@),
                _ => {},
            }
        },
        Stmt::Function(name, params, body) => {
            lemma_after_steps(l, e, st, name@, Seq::empty());
            let d0 = declare(st, name@);
            lemma_after_steps(l, e, d0, name@, Seq::empty());
            lemma_function_frame(l, e, define(d0, name@), tokens_of(params@), *body, FunctionType::Function);
        },
        Stmt::Print(_, x) => lemma_expr_frame(l, e, st, x),
        Stmt::Return(t, value) => {
            lemma_after_steps(l, e, st, t@, "Cannot return from top-level code."@);
            let a = if st.function == FunctionType::NoFunction {
                with_error(st, t@, "Cannot return from top-level code."@)
            } else {
                st
            };
            match value {
                Some(x) => {
                    lemma_after_steps(l, e, a, t@, "Cannot return a value from an initializer."@);
                    let b = if st.function == FunctionType::Initializer {
                        with_error(a, t@, "Cannot return a value from an initializer."@)
                    } else {
                        a
                    };
                    lemma_expr_frame(l, e, b, x);
                },
                None => {},
            }
        },
        Stmt::Variable(var, init) => {
            lemma_after_steps(l, e, st, var@, Seq::empty());
            let a = declare(st, var@);
            match init {
                Some(x) => lemma_expr_frame(l, e, a, x),
                None => {},
            }
            let b = match init {
                Some(x) => resolve_expr(a, x),
                None => a,
            };
            lemma_after_steps(l, e, b, var@, Seq::empty());
        },
        Stmt::While(c, body) => {
            lemma_expr_frame(l, e, st, c);
            let a = resolve_expr(st, c);
            lemma_stmt_frame(l, e, with_loop(a, true), *body);
        },
    }
}

/// Resolving an expression records the same resolutions and reports the
/// same errors whatever was recorded and reported before.
pub proof fn lemma_expr_frame(l: Seq<(TokenView, nat)>, e: Seq<Seq<char>>, st: ResolveState, x: Expr)
    ensures
        resolve_expr(after(l, e, st), x) == after(l, e, resolve_expr(st, x)),
    decreases x, 0nat,
{
    match x {
        Expr::Array(v) => lemma_exprs_frame(l, e, st, v@),
        Expr::Assign(var, _, value) => {
            lemma_expr_frame(l, e, st, *value);
            lemma_after_steps(l, e, resolve_expr(st, *value), var@, Seq::empty());
        },
        Expr::Binary(a, _, b) => {
            lemma_expr_frame(l, e, st, *a);
            lemma_expr_frame(l, e, resolve_expr(st, *a), *b);
        },
        Expr::Call(callee, _, args) => {
            lemma_expr_frame(l, e, st, *callee);
            lemma_exprs_frame(l, e, resolve_expr(st, *callee), args@);
        },
        Expr::Dictionary(v) => lemma_pairs_frame(l, e, st, v@),
        Expr::Get(o, _) => lemma_expr_frame(l, e, st, *o),
        Expr::Grouping(y) => lemma_expr_frame(l, e, st, *y),
        Expr::IfExpr(c, t, el) => {
            lemma_expr_frame(l, e, st, *c);
            let a = resolve_expr(st, *c);
            lemma_stmt_frame(l, e, a, *t);
            lemma_stmt_frame(l, e, resolve_stmt(a, *t), *el);
        },
        Expr::IndexGet(a, i) => {
            lemma_expr_frame(l, e, st, *a);
            lemma_expr_frame(l, e, resolve_expr(st, *a), *i);
        },
        Expr::IndexSet(a, i, v) => {
            lemma_expr_frame(l, e, st, *a);
            let p = resolve_expr(st, *a);
            lemma_expr_frame(l, e, p, *i);
            lemma_expr_frame(l, e, resolve_expr(p, *i), *v);
        },
        Expr::Lambda(params, body) => {
            lemma_function_frame(l, e, st, tokens_of(params@), *body, FunctionType::Function);
        },
        Expr::Literal(_) => {},
        Expr::SetProperty(o, _, v) => {
            lemma_expr_frame(l, e, st, *o);
            lemma_expr_frame(l, e, resolve_expr(st, *o), *v);
        },
        Expr::SelfExpr(t) => {
            lemma_after_steps(l, e, st, t@, "Cannot use 'self' outside of a class."@);
            let a = if st.class == ClassType::NoClass {
                with_error(st, t@, "Cannot use 'self' outside of a class."@)
            } else {
                st
            };
            lemma_after_steps(l, e, a, t@, Seq::empty());
        },
        Expr::SuperExpr(t, _) => {
            lemma_after_steps(l, e, st, t@, "Cannot use 'super' outside of a class."@);
            lemma_after_steps(l, e, st, t@, "Cannot use 'super' inside a class with no superclass."@);
            let a = if st.class == ClassType::NoClass {
                with_error(st, t@, "Cannot use 'super' outside of a class."@)
            } else if st.class == ClassType::Class {
                with_error(st, t@, "Cannot use 'super' inside a class with no superclass."@)
            } else {
                st
            };
            lemma_after_steps(l, e, a, t@, Seq::empty());
        },
        Expr::Tuple(v) => lemma_exprs_frame(l, e, st, v@),
        Expr::Unary(_, y) => lemma_expr_frame(l, e, st, *y),
        Expr::Variable(t) => {
            lemma_after_steps(l, e, st, t@, "Cannot use a variable in its own initializer."@);
        },
    }
}

/// Resolving two statements in turn records and reports what resolving
/// each one alone, from where the first leaves the scopes, records and
/// reports, one after the other.
pub proof fn lemma_stmt_sequence(st: ResolveState, s1: Stmt, s2: Stmt)
    ensures
        ({
            let one = resolve_stmt(st, s1);
            let two = resolve_stmt(fresh(one), s2);
            resolve_stmts(st, seq![s1, s2]) == after(one.locals, one.errors, two)
        }),
{
    let one = resolve_stmt(st, s1);
    let v = seq![s1, s2];
    assert(v.drop_last() =~= seq![s1]);
    assert(seq![s1].drop_last() =~= Seq::<Stmt>::empty());
    assert(one.locals + Seq::<(TokenView, nat)>::empty() =~= one.locals);
    assert(one.errors + Seq::<Seq<char>>::empty() =~= one.errors);
    assert(after(one.locals, one.errors, fresh(one)) == one);
    lemma_stmt_frame(one.locals, one.errors, fresh(one), s2);
    assert(resolve_stmts(st, v) == resolve_stmt(resolve_stmts(st, seq![s1]), s2));
    assert(resolve_stmts(st, seq![s1]) == resolve_stmt(resolve_stmts(st, Seq::<Stmt>::empty()), s1));
}

/// At the top level (no open scope), resolving two statements in turn
/// records and reports what resolving each alone from the same starting
/// context records and reports, the first's before the second's.
pub proof fn lemma_top_level_sequence(st: ResolveState, s1: Stmt, s2: Stmt)
    requires
        st.scopes.len() == 0,
    ensures
        ({
            let one = resolve_stmt(fresh(st), s1);
            let two = resolve_stmt(fresh(st), s2);
            resolve_stmts(st, seq![s1, s2]) == after(st.locals + one.locals, st.errors + one.errors, two)
        }),
{
    let one = resolve_stmt(fresh(st), s1);
    assert(st.locals + Seq::<(TokenView, nat)>::empty() =~= st.locals);
    assert(st.errors + Seq::<Seq<char>>::empty() =~= st.errors);
    assert(after(st.locals, st.errors, fresh(st)) == st);
    lemma_stmt_frame(st.locals, st.errors, fresh(st), s1);
    let first = resolve_stmt(st, s1);
    lemma_stmt_keeps(st, s1);
    assert(first.scopes =~= st.scopes);
    assert(fresh(first) == fresh(st));
    lemma_stmt_sequence(st, s1, s2);
    let two = resolve_stmt(fresh(st), s2);
    assert(first.locals == st.locals + one.locals);
    assert(after(first.locals, first.errors, two).locals =~= (st.locals + one.locals) + two.locals);
    assert(after(first.locals, first.errors, two).errors =~= (st.errors + one.errors) + two.errors);
}

/// Resolving two statements together from the top level (no open scope,
/// nothing recorded or reported yet) records and reports exactly what
/// resolving the first alone does, followed by what resolving the second
/// alone does, and leaves the same context.
pub proof fn lemma_resolve_in_turn(st: ResolveState, s1: Stmt, s2: Stmt)
    requires
        st.scopes.len() == 0,
        st.locals.len() == 0,
        st.errors.len() == 0,
    ensures
        ({
            let both = resolve_stmts(st, seq![s1, s2]);
            let one = resolve_stmts(st, seq![s1]);
            let two = resolve_stmts(st, seq![s2]);
            &&& both.locals == one.locals + two.locals
            &&& both.errors == one.errors + two.errors
            &&& both.scopes == st.scopes
            &&& both.function == st.function
            &&& both.class == st.class
            &&& both.in_loop == st.in_loop
        }),
{
    assert(fresh(st).locals =~= st.locals);
    assert(fresh(st).errors =~= st.errors);
    assert(fresh(st) == st);
    assert(seq![s1].drop_last() =~= Seq::<Stmt>::empty());
    assert(seq![s2].drop_last() =~= Seq::<Stmt>::empty());
    let one = resolve_stmts(st, seq![s1]);
    let two = resolve_stmts(st, seq![s2]);
    assert(one == resolve_stmt(resolve_stmts(st, Seq::<Stmt>::empty()), s1));
    assert(two == resolve_stmt(resolve_stmts(st, Seq::<Stmt>::empty()), s2));
    lemma_top_level_sequence(st, s1, s2);
    lemma_stmt_keeps(st, s2);
    assert(two.scopes =~= st.scopes);
    assert(st.locals + one.locals =~= one.locals);
    assert(st.errors + one.errors =~= one.errors);
}

/// An expression that opens no scope and declares nothing: variables and
/// literals, joined by operators, calls, property reads and writes,
/// groupings, arrays, tuples, index reads and writes, and assignments.
pub open spec fn plain_expr(e: Expr) -> bool
    decreases e,
{
    match e {
        Expr::Variable(_) => true,
        Expr::Literal(_) => true,
        Expr::Binary(l, _, r) => plain_expr(*l) && plain_expr(*r),
        Expr::Call(c, _, args) => plain_expr(*c) && forall|i: int|
            0 <= i < args@.len() ==> plain_expr(#[trigger] args@[i]),
        Expr::Grouping(x) => plain_expr(*x),
        Expr::Unary(_, x) => plain_expr(*x),
        Expr::Get(o, _) => plain_expr(*o),
        Expr::Array(v) => forall|i: int| 0 <= i < v@.len() ==> plain_expr(#[trigger] v@[i]),
        Expr::Tuple(v) => forall|i: int| 0 <= i < v@.len() ==> plain_expr(#[trigger] v@[i]),
        Expr::IndexGet(a, i) => plain_expr(*a) && plain_expr(*i),
        Expr::Assign(_, _, v) => plain_expr(*v),
        Expr::SetProperty(o, _, v) => plain_expr(*o) && plain_expr(*v),
        Expr::IndexSet(a, i, v) => plain_expr(*a) && plain_expr(*i) && plain_expr(*v),
        _ => false,
    }
}

/// The variables that an expression reads or assigns, in the order they are
/// met: each with whether it is read (rather than assigned).
pub open spec fn uses(e: Expr) -> Seq<(TokenView, bool)>
    decreases e, 0nat,
{
    match e {
        Expr::Variable(t) => seq![(t@, true)],
        Expr::Binary(l, _, r) => uses(*l) + uses(*r),
        Expr::Call(c, _, args) => uses(*c) + uses_all(args@),
        Expr::Grouping(x) => uses(*x),
        Expr::Unary(_, x) => uses(*x),
        Expr::Get(o, _) => uses(*o),
        Expr::Array(v) => uses_all(v@),
        Expr::Tuple(v) => uses_all(v@),
        Expr::IndexGet(a, i) => uses(*a) + uses(*i),
        Expr::Assign(t, _, v) => uses(*v) + seq![(t@, false)],
        Expr::SetProperty(o, _, v) => uses(*o) + uses(*v),
        Expr::IndexSet(a, i, v) => uses(*a) + uses(*i) + uses(*v),
        _ => Seq::empty(),
    }
}

/// The variables that a sequence of expressions reads or assigns, in the
/// order they are met.
pub open spec fn uses_all(v: Seq<Expr>) -> Seq<(TokenView, bool)>
    decreases v, v.len(),
{
    if v.len() == 0 {
        Seq::empty()
    } else {
        uses_all(v.drop_last()) + uses(v.last())
    }
}

/// What a use of the variable `u.0` records with `scopes` open: how many
/// scopes out its name is declared, unless it is global (declared in no
/// open scope) or is read (`u.1`) in its own initializer.
pub open spec fn record_of(scopes: Seq<Map<Seq<char>, bool>>, u: (TokenView, bool)) -> Seq<(TokenView, nat)> {
    let t = u.0;
    if u.1 && scopes.len() > 0 && scopes.last().dom().contains(t.lexeme) && !scopes.last()[t.lexeme] {
        Seq::empty()
    } else {
        match depth_of(scopes, t.lexeme) {
            Some(d) => seq![(t, d)],
            None => Seq::empty(),
        }
    }
}

/// What the uses `us` record in turn with `scopes` open.
pub open spec fn records(scopes: Seq<Map<Seq<char>, bool>>, us: Seq<(TokenView, bool)>) -> Seq<(TokenView, nat)>
    decreases us.len(),
{
    if us.len() == 0 {
        Seq::empty()
    } else {
        records(scopes, us.drop_last()) + record_of(scopes, us.last())
    }
}

proof fn lemma_records_one(scopes: Seq<Map<Seq<char>, bool>>, u: (TokenView, bool))
    ensures
        records(scopes, seq![u]) == record_of(scopes, u),
{
    let one = seq![u];
    assert(one.drop_last() =~= Seq::<(TokenView, bool)>::empty());
    assert(records(scopes, one.drop_last()) == Seq::<(TokenView, nat)>::empty());
    assert(Seq::<(TokenView, nat)>::empty() + record_of(scopes, u) =~= record_of(scopes, u));
}

proof fn lemma_records_append(scopes: Seq<Map<Seq<char>, bool>>, a: Seq<(TokenView, bool)>, b: Seq<(TokenView, bool)>)
    ensures
        records(scopes, a + b) == records(scopes, a) + records(scopes, b),
    decreases b.len(),
{
    if b.len() == 0 {
        assert(a + b =~= a);
        assert(records(scopes, a) + records(scopes, b) =~= records(scopes, a));
    } else {
        assert((a + b).drop_last() =~= a + b.drop_last());
        lemma_records_append(scopes, a, b.drop_last());
        assert(records(scopes, a) + (records(scopes, b.drop_last()) + record_of(scopes, b.last()))
            =~= (records(scopes, a) + records(scopes, b.drop_last())) + record_of(scopes, b.last()));
    }
}

/// Resolving a plain expression records, for each variable it reads or
/// assigns, in order, how many scopes out that variable is declared
/// (nothing for a global, or for a variable read in its own initializer),
/// and changes no scope. So every operand of a binary expression and every argument of a
/// call has its variables resolved.
pub proof fn lemma_plain_expr_records(st: ResolveState, e: Expr)
    requires
        plain_expr(e),
    ensures
        resolve_expr(st, e).locals == st.locals + records(st.scopes, uses(e)),
        resolve_expr(st, e).scopes == st.scopes,
    decreases e, 0nat,
{
    match e {
        Expr::Variable(t) => {
            let one = seq![(t@, true)];
            lemma_records_one(st.scopes, (t@, true));
            match depth_of(st.scopes, t@.lexeme) {
                Some(d) => {},
                None => {},
            }
            assert(st.locals + Seq::<(TokenView, nat)>::empty() =~= st.locals);
        },
        Expr::Literal(_) => {
            assert(st.locals + records(st.scopes, Seq::<(TokenView, bool)>::empty()) =~= st.locals);
        },
        Expr::Binary(l, _, r) => {
            lemma_plain_expr_records(st, *l);
            let a = resolve_expr(st, *l);
            lemma_plain_expr_records(a, *r);
            lemma_records_append(st.scopes, uses(*l), uses(*r));
            assert(st.locals + records(st.scopes, uses(*l)) + records(st.scopes, uses(*r)) =~= st.locals
                + (records(st.scopes, uses(*l)) + records(st.scopes, uses(*r))));
        },
        Expr::Call(c, _, args) => {
            lemma_plain_expr_records(st, *c);
            let a = resolve_expr(st, *c);
            lemma_plain_exprs_records(a, args@);
            lemma_records_append(st.scopes, uses(*c), uses_all(args@));
            assert(st.locals + records(st.scopes, uses(*c)) + records(st.scopes, uses_all(args@))
                =~= st.locals + (records(st.scopes, uses(*c)) + records(st.scopes, uses_all(args@))));
        },
        Expr::Grouping(x) => lemma_plain_expr_records(st, *x),
        Expr::Unary(_, x) => lemma_plain_expr_records(st, *x),
        Expr::Get(o, _) => lemma_plain_expr_records(st, *o),
        Expr::Array(v) => lemma_plain_exprs_records(st, v@),
        Expr::Tuple(v) => lemma_plain_exprs_records(st, v@),
        Expr::Assign(t, _, v) => {
            lemma_plain_expr_records(st, *v);
            lemma_records_one(st.scopes, (t@, false));
            lemma_records_append(st.scopes, uses(*v), seq![(t@, false)]);
            match depth_of(st.scopes, t@.lexeme) {
                Some(d) => {},
                None => {},
            }
            assert(st.locals + records(st.scopes, uses(*v)) + record_of(st.scopes, (t@, false)) =~= st.locals
                + (records(st.scopes, uses(*v)) + record_of(st.scopes, (t@, false))));
            assert(st.locals + records(st.scopes, uses(*v)) + Seq::<(TokenView, nat)>::empty() =~= st.locals
                + records(st.scopes, uses(*v)));
        },
        Expr::SetProperty(o, _, v) => {
            lemma_plain_expr_records(st, *o);
            let a = resolve_expr(st, *o);
            lemma_plain_expr_records(a, *v);
            lemma_records_append(st.scopes, uses(*o), uses(*v));
            assert(st.locals + records(st.scopes, uses(*o)) + records(st.scopes, uses(*v)) =~= st.locals
                + (records(st.scopes, uses(*o)) + records(st.scopes, uses(*v))));
        },
        Expr::IndexSet(x, i, v) => {
            lemma_plain_expr_records(st, *x);
            let a = resolve_expr(st, *x);
            lemma_plain_expr_records(a, *i);
            let b = resolve_expr(a, *i);
            lemma_plain_expr_records(b, *v);
            lemma_records_append(st.scopes, uses(*x), uses(*i));
            lemma_records_append(st.scopes, uses(*x) + uses(*i), uses(*v));
            assert(st.locals + records(st.scopes, uses(*x)) + records(st.scopes, uses(*i)) + records(st.scopes, uses(*v))
                =~= st.locals + (records(st.scopes, uses(*x)) + records(st.scopes, uses(*i)) + records(st.scopes, uses(*v))));
        },
        Expr::IndexGet(x, i) => {
            lemma_plain_expr_records(st, *x);
            let a = resolve_expr(st, *x);
            lemma_plain_expr_records(a, *i);
            lemma_records_append(st.scopes, uses(*x), uses(*i));
            assert(st.locals + records(st.scopes, uses(*x)) + records(st.scopes, uses(*i)) =~= st.locals
                + (records(st.scopes, uses(*x)) + records(st.scopes, uses(*i))));
        },
        _ => {},
    }
}

/// Resolving plain expressions in turn records, for each variable they
/// read, left to right, how many scopes out it is declared, and changes no
/// scope.
pub proof fn lemma_plain_exprs_records(st: ResolveState, v: Seq<Expr>)
    requires
        forall|i: int| 0 <= i < v.len() ==> plain_expr(#[trigger] v[i]),
    ensures
        resolve_exprs(st, v).locals == st.locals + records(st.scopes, uses_all(v)),
        resolve_exprs(st, v).scopes == st.scopes,
    decreases v, v.len(),
{
    if v.len() == 0 {
        assert(st.locals + records(st.scopes, Seq::<(TokenView, bool)>::empty()) =~= st.locals);
    } else {
        lemma_plain_exprs_records(st, v.drop_last());
        let a = resolve_exprs(st, v.drop_last());
        assert(plain_expr(v[v.len() - 1]));
        lemma_plain_expr_records(a, v.last());
        lemma_records_append(st.scopes, uses_all(v.drop_last()), uses(v.last()));
        assert(st.locals + records(st.scopes, uses_all(v.drop_last())) + records(st.scopes, uses(v.last()))
            =~= st.locals + (records(st.scopes, uses_all(v.drop_last())) + records(
            st.scopes,
            uses(v.last()),
        )));
    }
}

/// A statement that declares nothing: printing, evaluating or returning a
/// plain expression, `break`, `continue`, a `while` loop with a plain
/// condition over such a statement, or a block of such statements.
pub open spec fn plain_stmt(s: Stmt) -> bool
    decreases s,
{
    match s {
        Stmt::Print(_, e) => plain_expr(e),
        Stmt::Expression(e) => plain_expr(e),
        Stmt::Return(_, v) => match v {
            Some(e) => plain_expr(e),
            None => true,
        },
        Stmt::Break(_) => true,
        Stmt::Continue(_) => true,
        Stmt::Block(v) => forall|i: int| 0 <= i < v@.len() ==> plain_stmt(#[trigger] v@[i]),
        Stmt::While(c, b) => plain_expr(c) && plain_stmt(*b),
        _ => false,
    }
}

/// What the variables of a plain statement record with `scopes` open, in
/// the order they are met; inside a block one more scope is open.
pub open spec fn stmt_records(scopes: Seq<Map<Seq<char>, bool>>, s: Stmt) -> Seq<(TokenView, nat)>
    decreases s, 0nat,
{
    match s {
        Stmt::Print(_, e) => records(scopes, uses(e)),
        Stmt::Expression(e) => records(scopes, uses(e)),
        Stmt::Return(_, v) => match v {
            Some(e) => records(scopes, uses(e)),
            None => Seq::empty(),
        },
        Stmt::Block(v) => stmts_records(scopes.push(Map::empty()), v@),
        Stmt::While(c, b) => records(scopes, uses(c)) + stmt_records(scopes, *b),
        _ => Seq::empty(),
    }
}

/// What the variables of plain statements in turn record with `scopes` open.
pub open spec fn stmts_records(scopes: Seq<Map<Seq<char>, bool>>, v: Seq<Stmt>) -> Seq<(TokenView, nat)>
    decreases v, v.len(),
{
    if v.len() == 0 {
        Seq::empty()
    } else {
        stmts_records(scopes, v.drop_last()) + stmt_records(scopes, v.last())
    }
}

/// Inside a block, a variable declared outside it is recorded one scope
/// further out than just outside the block, and a global stays unrecorded.
pub proof fn lemma_block_depth(scopes: Seq<Map<Seq<char>, bool>>, u: (TokenView, bool))
    ensures
        record_of(scopes.push(Map::empty()), u) == match depth_of(scopes, u.0.lexeme) {
            Some(d) => seq![(u.0, d + 1)],
            None => Seq::<(TokenView, nat)>::empty(),
        },
{
    let inner = scopes.push(Map::<Seq<char>, bool>::empty());
    assert(inner.drop_last() =~= scopes);
    assert(!inner.last().dom().contains(u.0.lexeme));
}

/// Resolving a plain statement records what its variables record, in the
/// order they are met, each one scope further out for every block around
/// it, and leaves the scopes as they were.
pub proof fn lemma_plain_stmt_records(st: ResolveState, s: Stmt)
    requires
        plain_stmt(s),
    ensures
        resolve_stmt(st, s).locals == st.locals + stmt_records(st.scopes, s),
        resolve_stmt(st, s).scopes == st.scopes,
    decreases s, 1nat,
{
    match s {
        Stmt::Print(_, e) => lemma_plain_expr_records(st, e),
        Stmt::Expression(e) => lemma_plain_expr_records(st, e),
        Stmt::Return(t, v) => {
            let a = if st.function == FunctionType::NoFunction {
                with_error(st, t@, "Cannot return from top-level code."@)
            } else {
                st
            };
            match v {
                Some(e) => {
                    let b = if st.function == FunctionType::Initializer {
                        with_error(a, t@, "Cannot return a value from an initializer."@)
                    } else {
                        a
                    };
                    lemma_plain_expr_records(b, e);
                },
                None => {
                    assert(st.locals + Seq::<(TokenView, nat)>::empty() =~= st.locals);
                },
            }
        },
        Stmt::Break(_) => {
            assert(st.locals + Seq::<(TokenView, nat)>::empty() =~= st.locals);
        },
        Stmt::Continue(_) => {
            assert(st.locals + Seq::<(TokenView, nat)>::empty() =~= st.locals);
        },
        Stmt::Block(v) => {
            lemma_plain_stmts_records(begin_scope(st), v@);
            assert(begin_scope(st).scopes.drop_last() =~= st.scopes);
        },
        Stmt::While(c, b) => {
            lemma_plain_expr_records(st, c);
            let a = resolve_expr(st, c);
            lemma_plain_stmt_records(with_loop(a, true), *b);
            assert(st.locals + records(st.scopes, uses(c)) + stmt_records(st.scopes, *b) =~= st.locals
                + (records(st.scopes, uses(c)) + stmt_records(st.scopes, *b)));
        },
        _ => {},
    }
}

/// Resolving plain statements in turn records what their variables record,
/// in order, and leaves the scopes as they were.
pub proof fn lemma_plain_stmts_records(st: ResolveState, v: Seq<Stmt>)
    requires
        forall|i: int| 0 <= i < v.len() ==> plain_stmt(#[trigger] v[i]),
    ensures
        resolve_stmts(st, v).locals == st.locals + stmts_records(st.scopes, v),
        resolve_stmts(st, v).scopes == st.scopes,
    decreases v, v.len(),
{
    if v.len() == 0 {
        assert(st.locals + Seq::<(TokenView, nat)>::empty() =~= st.locals);
    } else {
        lemma_plain_stmts_records(st, v.drop_last());
        let a = resolve_stmts(st, v.drop_last());
        assert(plain_stmt(v[v.len() - 1]));
        lemma_plain_stmt_records(a, v.last());
        assert(st.locals + stmts_records(st.scopes, v.drop_last()) + stmt_records(st.scopes, v.last())
            =~= st.locals + (stmts_records(st.scopes, v.drop_last()) + stmt_records(st.scopes, v.last())));
    }
}

/// `let x = e` in an open scope declares `x` in the innermost scope before
/// reading `e`, so a read of `x` in `e` is a read in its own initializer
/// and is not recorded, then defines `x` there; `e`'s other variables are
/// recorded as usual. At the top level nothing is declared and `e`'s
/// variables are all global.
pub proof fn lemma_variable_declaration_records(st: ResolveState, x: Token, e: Expr)
    requires
        plain_expr(e),
    ensures
        ({
            let r = resolve_stmt(st, Stmt::Variable(x, Some(e)));
            let n = x@.lexeme;
            &&& st.scopes.len() > 0 && !st.scopes.last().dom().contains(n) ==> {
                let declared = st.scopes.update(st.scopes.len() - 1, st.scopes.last().insert(n, false));
                &&& r.locals == st.locals + records(declared, uses(e))
                &&& r.scopes == st.scopes.update(st.scopes.len() - 1, st.scopes.last().insert(n, true))
            }
            &&& st.scopes.len() == 0 ==> r.locals == st.locals + records(st.scopes, uses(e)) && r.scopes
                == st.scopes
        }),
{
    let a = declare(st, x@);
    lemma_plain_expr_records(a, e);
    let b = resolve_expr(a, e);
    if st.scopes.len() > 0 && !st.scopes.last().dom().contains(x@.lexeme) {
        let declared = st.scopes.update(st.scopes.len() - 1, st.scopes.last().insert(x@.lexeme, false));
        assert(a.scopes == declared);
        assert(b.scopes == declared);
        assert(declared.last() == st.scopes.last().insert(x@.lexeme, false));
        assert(declared.last().insert(x@.lexeme, true) =~= st.scopes.last().insert(x@.lexeme, true));
        assert(declared.update(declared.len() - 1, declared.last().insert(x@.lexeme, true)) =~= st.scopes.update(
            st.scopes.len() - 1,
            st.scopes.last().insert(x@.lexeme, true),
        ));
    }
}

/// `m` with each of the names of `params` defined.
pub open spec fn with_params(m: Map<Seq<char>, bool>, params: Seq<TokenView>) -> Map<Seq<char>, bool>
    decreases params.len(),
{
    if params.len() == 0 {
        m
    } else {
        with_params(m, params.drop_last()).insert(params.last().lexeme, true)
    }
}

proof fn lemma_declare_params_scopes(s: ResolveState, params: Seq<TokenView>)
    requires
        s.scopes.len() > 0,
    ensures
        declare_params(s, params).scopes == s.scopes.update(
            s.scopes.len() - 1,
            with_params(s.scopes.last(), params),
        ),
        declare_params(s, params).locals == s.locals,
    decreases params.len(),
{
    if params.len() == 0 {
        assert(s.scopes.update(s.scopes.len() - 1, s.scopes.last()) =~= s.scopes);
    } else {
        lemma_declare_params_scopes(s, params.drop_last());
        let a = declare_params(s, params.drop_last());
        let p = params.last();
        let d = declare(a, p);
        assert(d.scopes.len() == a.scopes.len());
        assert(d.scopes.last().insert(p.lexeme, true) =~= a.scopes.last().insert(p.lexeme, true));
        assert(define(d, p).scopes =~= s.scopes.update(
            s.scopes.len() - 1,
            with_params(s.scopes.last(), params),
        ));
    }
}

/// A function declared in an open scope, or at the top level, whose body
/// is a block of plain statements: its name is defined where it is
/// declared, and the body is read in a new scope in which each parameter is
/// defined; what the body's variables record is what they record there,
/// and the scopes outside are left with the name defined.
pub proof fn lemma_function_records(st: ResolveState, name: Token, params: Vec<Token>, v: Vec<Stmt>)
    requires
        forall|i: int| 0 <= i < v@.len() ==> plain_stmt(#[trigger] v@[i]),
    ensures
        ({
            let outer = define(declare(st, name@), name@);
            let inner = outer.scopes.push(with_params(Map::empty(), tokens_of(params@)));
            let r = resolve_stmt(st, Stmt::Function(name, params, Box::new(Stmt::Block(v))));
            &&& r.locals == st.locals + stmts_records(inner, v@)
            &&& r.scopes == outer.scopes
        }),
{
    let outer = define(declare(st, name@), name@);
    let ps = tokens_of(params@);
    let a0 = begin_scope(with_flags(outer, FunctionType::Function, false));
    lemma_declare_params_scopes(a0, ps);
    let a = declare_params(a0, ps);
    assert(a0.scopes.last() == Map::<Seq<char>, bool>::empty());
    assert(a.scopes =~= outer.scopes.push(with_params(Map::empty(), ps)));
    lemma_plain_stmts_records(a, v@);
    let b = resolve_stmts(a, v@);
    assert(b.scopes.drop_last() =~= outer.scopes);
    lemma_small_steps(st, name@, Seq::empty());
    lemma_small_steps(declare(st, name@), name@, Seq::empty());
    assert(outer.locals == st.locals);
    let f = resolve_function(outer, ps, Stmt::Block(v), FunctionType::Function);
    assert(f == with_flags(end_scope(b), outer.function, outer.in_loop));
    assert(resolve_stmt(st, Stmt::Function(name, params, Box::new(Stmt::Block(v)))) == f);
    assert(b.locals == a.locals + stmts_records(a.scopes, v@));
    assert(a.locals == a0.locals);
}

/// `break` and `continue` are reported exactly when they stand outside any
/// loop; as the body of a `while` loop they are accepted, and the loop
/// reports only what its condition reports.
pub proof fn lemma_jumps_need_a_loop(st: ResolveState, j: Stmt, c: Expr, body: Vec<Stmt>)
    requires
        j is Break || j is Continue,
        plain_expr(c),
        body@ == seq![j],
    ensures
        resolve_stmt(st, j).errors.len() == st.errors.len() + if st.in_loop {
            0int
        } else {
            1int
        },
        resolve_stmt(st, Stmt::While(c, Box::new(Stmt::Block(body)))).errors == resolve_expr(st, c).errors,
{
    let a = resolve_expr(st, c);
    let inner = begin_scope(with_loop(a, true));
    assert(body@.drop_last() =~= Seq::<Stmt>::empty());
    assert(body@.last() == j);
    assert(resolve_stmts(inner, body@) == resolve_stmt(resolve_stmts(inner, Seq::<Stmt>::empty()), j));
    assert(resolve_stmt(inner, j).errors == inner.errors);
    assert(resolve_stmt(with_loop(a, true), Stmt::Block(body)) == end_scope(resolve_stmts(inner, body@)));
}

/// An expression adds the same errors whatever was reported before.
proof fn lemma_expr_errors_after(x: ResolveState, e: Expr)
    ensures
        resolve_expr(x, e).errors == x.errors + resolve_expr(fresh(x), e).errors,
{
    assert(x.locals + Seq::<(TokenView, nat)>::empty() =~= x.locals);
    assert(x.errors + Seq::<Seq<char>>::empty() =~= x.errors);
    assert(after(x.locals, x.errors, fresh(x)) == x);
    lemma_expr_frame(x.locals, x.errors, fresh(x), e);
}

/// A `return` is reported at the top level (outside any function), and a
/// `return` of a value is reported in an initializer; anywhere else it is
/// accepted.
pub proof fn lemma_return_placement(st: ResolveState, t: Token, e: Expr)
    requires
        plain_expr(e),
    ensures
        resolve_stmt(st, Stmt::Return(t, None)).errors.len() == st.errors.len() + if st.function
            == FunctionType::NoFunction {
            1int
        } else {
            0int
        },
        resolve_stmt(st, Stmt::Return(t, Some(e))).errors.len() == resolve_expr(st, e).errors.len() + if st.function
            == FunctionType::NoFunction {
            1int
        } else if st.function == FunctionType::Initializer {
            1int
        } else {
            0int
        },
{
    let a = if st.function == FunctionType::NoFunction {
        with_error(st, t@, "Cannot return from top-level code."@)
    } else {
        st
    };
    let b = if st.function == FunctionType::Initializer {
        with_error(a, t@, "Cannot return a value from an initializer."@)
    } else {
        a
    };
    lemma_expr_errors_after(b, e);
    lemma_expr_errors_after(st, e);
    assert(fresh(b) == fresh(st));
}

/// A `for` loop reads its iterable in the enclosing scopes, then its body
/// in a new scope in which the loop variable is defined; with a plain
/// iterable and a body block of plain statements, what they record is what
/// their variables record there, and the scopes are left as they were.
pub proof fn lemma_for_records(st: ResolveState, var: Token, iterable: Expr, v: Vec<Stmt>)
    requires
        plain_expr(iterable),
        forall|i: int| 0 <= i < v@.len() ==> plain_stmt(#[trigger] v@[i]),
    ensures
        ({
            let r = resolve_stmt(st, Stmt::For(var, iterable, Box::new(Stmt::Block(v))));
            let inner = st.scopes.push(Map::<Seq<char>, bool>::empty().insert(var@.lexeme, true));
            &&& r.locals == st.locals + records(st.scopes, uses(iterable)) + stmts_records(inner, v@)
            &&& r.scopes == st.scopes
        }),
{
    lemma_plain_expr_records(st, iterable);
    let a = resolve_expr(st, iterable);
    let b0 = begin_scope(with_loop(a, true));
    let b = define(declare(b0, var@), var@);
    let inner = st.scopes.push(Map::<Seq<char>, bool>::empty().insert(var@.lexeme, true));
    assert(declare(b0, var@).scopes.last().insert(var@.lexeme, true) =~= Map::<Seq<char>, bool>::empty().insert(
        var@.lexeme,
        true,
    ));
    assert(b.scopes =~= inner);
    assert(b.locals == a.locals);
    lemma_plain_stmts_records(b, v@);
    let c = resolve_stmts(b, v@);
    assert(c.scopes.drop_last() =~= st.scopes);
}

/// `self` is reported outside any class, and `super` outside a class that
/// has a superclass; either is resolved like a variable of that name.
pub proof fn lemma_self_and_super_placement(st: ResolveState, t: Token, m: Token)
    ensures
        resolve_expr(st, Expr::SelfExpr(t)).errors.len() == st.errors.len() + if st.class == ClassType::NoClass {
            1int
        } else {
            0int
        },
        resolve_expr(st, Expr::SuperExpr(t, m)).errors.len() == st.errors.len() + if st.class
            == ClassType::Subclass {
            0int
        } else {
            1int
        },
        resolve_expr(st, Expr::SelfExpr(t)).locals == st.locals + match depth_of(st.scopes, t@.lexeme) {
            Some(d) => seq![(t@, d)],
            None => Seq::<(TokenView, nat)>::empty(),
        },
        resolve_expr(st, Expr::SuperExpr(t, m)).locals == st.locals + match depth_of(st.scopes, t@.lexeme) {
            Some(d) => seq![(t@, d)],
            None => Seq::<(TokenView, nat)>::empty(),
        },
{
    match depth_of(st.scopes, t@.lexeme) {
        Some(d) => {},
        None => {
            assert(st.locals + Seq::<(TokenView, nat)>::empty() =~= st.locals);
        },
    }
}

/// Declaring a name that the innermost scope already holds is reported;
/// declaring a new name there, or any name at the top level, is not.
pub proof fn lemma_redeclaration(st: ResolveState, x: Token)
    ensures
        resolve_stmt(st, Stmt::Variable(x, None)).errors.len() == st.errors.len() + if st.scopes.len() > 0
            && st.scopes.last().dom().contains(x@.lexeme) {
            1int
        } else {
            0int
        },
{
}

/// The resolver's errors are only ever added to, and its error flag tells
/// whether any was added since `a`, or was set before.
pub open spec fn tracks(a: ResolveState, a_had: bool, b: ResolveState, b_had: bool) -> bool {
    &&& a.errors.len() <= b.errors.len()
    &&& b_had == (a_had || a.errors.len() < b.errors.len())
}

proof fn lemma_assoc_push(s: Seq<(Seq<char>, bool)>, x: (Seq<char>, bool))
    ensures
        assoc_map(s.push(x)) == assoc_map(s).insert(x.0, x.1),
{
    assert(s.push(x).drop_last() =~= s);
}

proof fn lemma_depth_of_skip(scopes: Seq<Map<Seq<char>, bool>>, name: Seq<char>, i: int)
    requires
        0 <= i <= scopes.len(),
        forall|j: int| i <= j < scopes.len() ==> !(#[trigger] scopes[j]).dom().contains(name),
    ensures
        depth_of(scopes, name) == match depth_of(scopes.subrange(0, i), name) {
            Some(d) => Some((d + (scopes.len() - i)) as nat),
            None => None::<nat>,
        },
    decreases scopes.len() - i,
{
    if i < scopes.len() {
        let s2 = scopes.drop_last();
        assert forall|j: int| i <= j < s2.len() implies !(#[trigger] s2[j]).dom().contains(name) by {
            assert(s2[j] == scopes[j]);
        }
        lemma_depth_of_skip(s2, name, i);
        assert(s2.subrange(0, i) =~= scopes.subrange(0, i));
        assert(scopes.last() == scopes[scopes.len() - 1]);
    } else {
        assert(scopes.subrange(0, i) =~= scopes);
    }
}

/// The value of `name` in a scope, if it has one.
fn scope_get(scope: &Vec<(String, bool)>, name: &String) -> (r: Option<bool>)
    ensures
        r == (if scope_view(scope@).dom().contains(name@) {
            Some(scope_view(scope@)[name@])
        } else {
            None::<bool>
        }),
{
    let ghost v = scope@.map_values(|p: (String, bool)| (p.0@, p.1));
    let mut i = scope.len();
    assert(v.subrange(0, i as int) =~= v);
    while i > 0
        invariant
            i <= scope@.len() == v.len(),
            v == scope@.map_values(|p: (String, bool)| (p.0@, p.1)),
            assoc_map(v).dom().contains(name@) == assoc_map(v.subrange(0, i as int)).dom().contains(
                name@,
            ),
            assoc_map(v).dom().contains(name@) ==> assoc_map(v)[name@] == assoc_map(
                v.subrange(0, i as int),
            )[name@],
        decreases i,
    {
        let ghost pre = v.subrange(0, i as int);
        assert(pre.drop_last() =~= v.subrange(0, i - 1));
        assert(pre.last() == v[i - 1]);
        if scope[i - 1].0 == *name {
            return Some(scope[i - 1].1);
        }
        i = i - 1;
    }
    assert(v.subrange(0, 0) =~= Seq::<(Seq<char>, bool)>::empty());
    None
}

pub struct Resolver {
    scopes: Vec<Vec<(String, bool)>>,
    /// Each resolved local variable with its depth, in the order found.
    pub locals: Vec<(Token, usize)>,
    pub error_handler: CompiletimeErrorHandler,
    current_function: FunctionType,
    current_class: ClassType,
    in_loop: bool,
}

impl Resolver {
    pub closed spec fn state(&self) -> ResolveState {
        ResolveState {
            scopes: scopes_view(self.scopes@),
            locals: locals_view(self.locals@),
            errors: strings_view(self.error_handler.messages@),
            function: self.current_function,
            class: self.current_class,
            in_loop: self.in_loop,
        }
    }

    pub closed spec fn had_error(&self) -> bool {
        self.error_handler.had_error
    }

    /// The resolutions found and the error handler, taken out of the
    /// resolver.
    pub fn into_parts(self) -> (r: (Vec<(Token, usize)>, CompiletimeErrorHandler))
        ensures
            locals_view(r.0@) == self.state().locals,
            strings_view(r.1.messages@) == self.state().errors,
            r.1.had_error == self.had_error(),
    {
        (self.locals, self.error_handler)
    }

    pub fn new() -> (r: Resolver)
        ensures
            r.state() == (ResolveState {
                scopes: Seq::empty(),
                locals: Seq::empty(),
                errors: Seq::empty(),
                function: FunctionType::NoFunction,
                class: ClassType::NoClass,
                in_loop: false,
            }),
            !r.had_error(),
    {
        let r = Resolver {
            scopes: Vec::new(),
            locals: Vec::new(),
            error_handler: CompiletimeErrorHandler::new(),
            current_function: FunctionType::NoFunction,
            current_class: ClassType::NoClass,
            in_loop: false,
        };
        assert(r.state().scopes =~= Seq::<Map<Seq<char>, bool>>::empty());
        assert(r.state().locals =~= Seq::<(TokenView, nat)>::empty());
        assert(r.state().errors =~= Seq::<Seq<char>>::empty());
        r
    }

    /// Resolves the statements of a program (or of a block, in the current
    /// scope), in order.
    pub fn resolve(&mut self, statements: &Vec<Stmt>)
        requires
            resolvable_stmts(statements@),
        ensures
            final(self).state() == resolve_stmts(old(self).state(), statements@),
            tracks(old(self).state(), old(self).had_error(), final(self).state(), final(self).had_error()),
        decreases statements,
    {
        let mut i: usize = 0;
        while i < statements.len()
            invariant
                i <= statements@.len(),
                resolvable_stmts(statements@),
                self.state() == resolve_stmts(old(self).state(), statements@.take(i as int)),
                tracks(old(self).state(), old(self).had_error(), self.state(), self.had_error()),
            decreases statements@.len() - i,
        {
            assert(statements@.take(i + 1).drop_last() =~= statements@.take(i as int));
            assert(resolvable_stmt(statements@[i as int]));
            self.visit_stmt(&statements[i]);
            i = i + 1;
        }
        assert(statements@.take(statements@.len() as int) =~= statements@);
    }

    fn report(&mut self, token: &Token, message: &str)
        ensures
            final(self).state() == with_error(old(self).state(), token@, message@),
            tracks(old(self).state(), old(self).had_error(), final(self).state(), final(self).had_error()),
    {
        let t = token.duplicate();
        self.error_handler.token_error(t, string_of(message));
    }

    fn begin_scope(&mut self)
        ensures
            final(self).state() == begin_scope(old(self).state()),
            final(self).error_handler == old(self).error_handler,
    {
        self.scopes.push(Vec::new());
        assert(scope_view(Seq::<(String, bool)>::empty()) =~= Map::<Seq<char>, bool>::empty()) by {
            assert(Seq::<(String, bool)>::empty().map_values(|p: (String, bool)| (p.0@, p.1))
                =~= Seq::<(Seq<char>, bool)>::empty());
        }
        assert(self.state().scopes =~= old(self).state().scopes.push(Map::empty()));
    }

    fn end_scope(&mut self)
        ensures
            final(self).state() == end_scope(old(self).state()),
            final(self).error_handler == old(self).error_handler,
    {
        if self.scopes.len() > 0 {
            self.scopes.pop();
            assert(self.state().scopes =~= old(self).state().scopes.drop_last());
        }
    }

    /// Adds `name` to the innermost scope, if there is one.
    fn bind(&mut self, name: String, defined: bool)
        ensures
            final(self).state() == bind(old(self).state(), name@, defined),
            final(self).error_handler == old(self).error_handler,
    {
        if self.scopes.len() > 0 {
            let ghost before = self.scopes@;
            let mut s = self.scopes.pop().unwrap();
            let ghost sv = s@;
            s.push((name, defined));
            proof {
                let m = sv.map_values(|p: (String, bool)| (p.0@, p.1));
                assert(s@.map_values(|p: (String, bool)| (p.0@, p.1)) =~= m.push((name@, defined)));
                lemma_assoc_push(m, (name@, defined));
            }
            self.scopes.push(s);
            assert(self.state().scopes =~= old(self).state().scopes.update(
                old(self).state().scopes.len() - 1,
                old(self).state().scopes.last().insert(name@, defined),
            ));
        }
    }

    /// The value of `name` in the innermost scope, if there is one and it
    /// holds `name`.
    fn get_innermost(&self, name: &String) -> (r: Option<bool>)
        ensures
            r == (if self.state().scopes.len() > 0 && self.state().scopes.last().dom().contains(
                name@,
            ) {
                Some(self.state().scopes.last()[name@])
            } else {
                None::<bool>
            }),
    {
        let n = self.scopes.len();
        if n == 0 {
            None
        } else {
            scope_get(&self.scopes[n - 1], name)
        }
    }

    fn declare(&mut self, token: &Token)
        ensures
            final(self).state() == declare(old(self).state(), token@),
            tracks(old(self).state(), old(self).had_error(), final(self).state(), final(self).had_error()),
    {
        if self.scopes.len() > 0 {
            if self.get_innermost(&token.lexeme).is_some() {
                self.report(token, "Variable with this name already declared in this scope.");
            } else {
                self.bind(token.lexeme.clone(), false);
            }
        }
    }

    fn define(&mut self, token: &Token)
        ensures
            final(self).state() == define(old(self).state(), token@),
            final(self).error_handler == old(self).error_handler,
    {
        self.bind(token.lexeme.clone(), true);
    }

    /// Records the depth of `token`'s name, if some scope declares it.
    fn resolve_local(&mut self, token: &Token)
        ensures
            final(self).state() == resolve_local(old(self).state(), token@),
            final(self).error_handler == old(self).error_handler,
    {
        let ghost scopes = self.state().scopes;
        let n = self.scopes.len();
        let mut i = n;
        let mut depth: usize = 0;
        proof {
            lemma_depth_of_skip(scopes, token.lexeme@, n as int);
            assert(scopes.subrange(0, n as int) =~= scopes);
        }
        while i > 0
            invariant
                i <= n == self.scopes@.len() == scopes.len(),
                scopes == self.state().scopes,
                self.state() == old(self).state(),
                self.error_handler == old(self).error_handler,
                depth == n - i,
                forall|j: int|
                    i <= j < scopes.len() ==> !(#[trigger] scopes[j]).dom().contains(token.lexeme@),
            decreases i,
        {
            i = i - 1;
            assert(scopes[i as int] == scope_view(self.scopes@[i as int]@));
            if scope_get(&self.scopes[i], &token.lexeme).is_some() {
                proof {
                    lemma_depth_of_skip(scopes, token.lexeme@, i + 1);
                    let pre = scopes.subrange(0, i + 1);
                    assert(pre.last() == scopes[i as int]);
                }
                let ghost before = self.locals@;
                self.locals.push((token.duplicate(), depth));
                assert(self.state().locals =~= old(self).state().locals.push((token@, depth as nat)));
                return ;
            }
            depth = depth + 1;
        }
        proof {
            lemma_depth_of_skip(scopes, token.lexeme@, 0);
        }
    }
}

impl Resolver {
    fn visit_stmt(&mut self, stmt: &Stmt)
        requires
            resolvable_stmt(*stmt),
        ensures
            final(self).state() == resolve_stmt(old(self).state(), *stmt),
            tracks(old(self).state(), old(self).had_error(), final(self).state(), final(self).had_error()),
        decreases stmt, 1nat,
    {
        match stmt {
            Stmt::Block(statements) => {
                self.begin_scope();
                self.resolve(statements);
                self.end_scope();
            },
            Stmt::Break(token) => {
                if !self.in_loop {
                    self.report(token, "Break statements can only be used inside loops.");
                }
            },
            Stmt::Class(_, _, _) => {
                self.visit_class(stmt);
            },
            Stmt::Continue(token) => {
                if !self.in_loop {
                    self.report(token, "Continue statements can only be used inside loops.");
                }
            },
            Stmt::Expression(expr) => {
                self.visit_expr(expr);
            },
            Stmt::For(_, _, _) => {
                self.visit_for(stmt);
            },
            Stmt::Function(name, params, body) => {
                self.declare(name);
                self.define(name);
                self.visit_function(params, body, FunctionType::Function);
            },
            Stmt::Print(_, expr) => {
                self.visit_expr(expr);
            },
            Stmt::Return(_, _) => {
                self.visit_return(stmt);
            },
            Stmt::Variable(variable, initializer) => {
                self.declare(variable);
                if let Some(expr) = initializer {
                    self.visit_expr(expr);
                }
                self.define(variable);
            },
            Stmt::While(condition, block) => {
                self.visit_expr(condition);
                let prev_in_loop = self.in_loop;
                self.in_loop = true;
                self.visit_stmt(block);
                self.in_loop = prev_in_loop;
            },
        }
    }

    fn visit_class(&mut self, stmt: &Stmt)
        requires
            resolvable_stmt(*stmt),
            *stmt is Class,
        ensures
            final(self).state() == resolve_stmt(old(self).state(), *stmt),
            tracks(old(self).state(), old(self).had_error(), final(self).state(), final(self).had_error()),
        decreases stmt, 0nat,
    {
        match stmt {
            Stmt::Class(name, superclass, methods) => {
                self.declare(name);
                self.define(name);
                if let Some(superclass) = superclass {
                    self.resolve_local(superclass);
                    if superclass.lexeme == name.lexeme {
                        self.report(superclass, "A class cannot inherit from itself.");
                    }
                    // Begin scope to bind super
                    self.begin_scope();
                    self.bind(string_of("super"), true);
                }
                self.begin_scope();
                self.bind(string_of("self"), true);
                // Set class type
                let prev_class = self.current_class;
                self.current_class = if superclass.is_some() {
                    ClassType::Subclass
                } else {
                    ClassType::Class
                };
                self.resolve_methods(methods);
                if superclass.is_some() {
                    // End scope that binds super
                    self.end_scope();
                }
                self.current_class = prev_class;
                self.end_scope();
            },
            _ => {},
        }
    }

    fn visit_for(&mut self, stmt: &Stmt)
        requires
            resolvable_stmt(*stmt),
            *stmt is For,
        ensures
            final(self).state() == resolve_stmt(old(self).state(), *stmt),
            tracks(old(self).state(), old(self).had_error(), final(self).state(), final(self).had_error()),
        decreases stmt, 0nat,
    {
        match stmt {
            Stmt::For(variable, expr, block) => {
                self.visit_expr(expr);
                let prev_in_loop = self.in_loop;
                self.in_loop = true;
                self.begin_scope();
                self.declare(variable);
                self.define(variable);
                assert(resolvable_stmt(**block));
                match &**block {
                    Stmt::Block(statements) => {
                        assert(resolvable_stmts(statements@));
                        self.resolve(statements);
                    },
                    _ => {},
                }
                self.end_scope();
                self.in_loop = prev_in_loop;
            },
            _ => {},
        }
    }

    fn visit_return(&mut self, stmt: &Stmt)
        requires
            resolvable_stmt(*stmt),
            *stmt is Return,
        ensures
            final(self).state() == resolve_stmt(old(self).state(), *stmt),
            tracks(old(self).state(), old(self).had_error(), final(self).state(), final(self).had_error()),
        decreases stmt, 0nat,
    {
        match stmt {
            Stmt::Return(token, expr) => {
                if self.current_function == FunctionType::NoFunction {
                    self.report(token, "Cannot return from top-level code.");
                }
                if let Some(expr) = expr {
                    if self.current_function == FunctionType::Initializer {
                        self.report(token, "Cannot return a value from an initializer.");
                    }
                    self.visit_expr(expr);
                }
            },
            _ => {},
        }
    }

    fn visit_expr(&mut self, expr: &Expr)
        requires
            resolvable_expr(*expr),
        ensures
            final(self).state() == resolve_expr(old(self).state(), *expr),
            tracks(old(self).state(), old(self).had_error(), final(self).state(), final(self).had_error()),
        decreases expr, 0nat,
    {
        match expr {
            Expr::Array(exprs) => {
                self.resolve_exprs(exprs);
            },
            Expr::Assign(variable, _, value) => {
                self.visit_expr(value);
                self.resolve_local(variable);
            },
            Expr::Binary(expr1, _, expr2) => {
                self.visit_expr(expr1);
                self.visit_expr(expr2);
            },
            Expr::Call(callee, _, args) => {
                self.visit_expr(callee);
                self.resolve_exprs(args);
            },
            Expr::Dictionary(pairs) => {
                self.resolve_pairs(pairs);
            },
            Expr::Get(obj, _) => {
                self.visit_expr(obj);
            },
            Expr::Grouping(inner) => {
                self.visit_expr(inner);
            },
            Expr::IfExpr(condition, then_branch, else_branch) => {
                self.visit_expr(condition);
                self.visit_stmt(then_branch);
                self.visit_stmt(else_branch);
            },
            Expr::IndexGet(target, index) => {
                self.visit_expr(target);
                self.visit_expr(index);
            },
            Expr::IndexSet(target, index, value) => {
                self.visit_expr(target);
                self.visit_expr(index);
                self.visit_expr(value);
            },
            Expr::Lambda(params, body) => {
                self.visit_function(params, body, FunctionType::Function);
            },
            Expr::Literal(_) => {},
            Expr::SelfExpr(token) => {
                if self.current_class == ClassType::NoClass {
                    self.report(token, "Cannot use 'self' outside of a class.");
                }
                self.resolve_local(token);
            },
            Expr::SetProperty(obj, _, value) => {
                self.visit_expr(obj);
                self.visit_expr(value);
            },
            Expr::SuperExpr(token, _) => {
                if self.current_class == ClassType::NoClass {
                    self.report(token, "Cannot use 'super' outside of a class.");
                } else if self.current_class == ClassType::Class {
                    self.report(token, "Cannot use 'super' inside a class with no superclass.");
                }
                self.resolve_local(token);
            },
            Expr::Tuple(exprs) => {
                self.resolve_exprs(exprs);
            },
            Expr::Unary(_, inner) => {
                self.visit_expr(inner);
            },
            Expr::Variable(variable) => {
                if self.get_innermost(&variable.lexeme) == Some(false) {
                    // Since declared but not defined, must be in variable initializer
                    self.report(variable, "Cannot use a variable in its own initializer.");
                } else {
                    self.resolve_local(variable);
                }
            },
        }
    }

    fn visit_function(&mut self, params: &Vec<Token>, body: &Stmt, function_type: FunctionType)
        requires
            resolvable_stmt(*body),
        ensures
            final(self).state() == resolve_function(
                old(self).state(),
                tokens_of(params@),
                *body,
                function_type,
            ),
            tracks(old(self).state(), old(self).had_error(), final(self).state(), final(self).had_error()),
        decreases body, 0nat,
    {
        let enclosing_function = self.current_function;
        self.current_function = function_type;
        // Set in loop to false to disallow top level break/continue in functions
        let prev_in_loop = self.in_loop;
        self.in_loop = false;
        self.begin_scope();
        let ghost base = self.state();
        let ghost ps = tokens_of(params@);
        let mut i: usize = 0;
        while i < params.len()
            invariant
                i <= params@.len(),
                ps == tokens_of(params@),
                self.state() == declare_params(base, ps.take(i as int)),
                tracks(old(self).state(), old(self).had_error(), self.state(), self.had_error()),
            decreases params@.len() - i,
        {
            assert(ps.take(i + 1).drop_last() =~= ps.take(i as int));
            assert(ps.take(i + 1).last() == params@[i as int]@);
            self.declare(&params[i]);
            self.define(&params[i]);
            i = i + 1;
        }
        assert(ps.take(params@.len() as int) =~= ps);
        // The block's statements share the scope of the parameters
        match body {
            Stmt::Block(statements) => {
                assert(resolvable_stmts(statements@));
                self.resolve(statements);
            },
            _ => {},
        }
        self.end_scope();
        self.in_loop = prev_in_loop;
        self.current_function = enclosing_function;
    }

    fn resolve_exprs(&mut self, exprs: &Vec<Expr>)
        requires
            forall|i: int| 0 <= i < exprs@.len() ==> resolvable_expr(#[trigger] exprs@[i]),
        ensures
            final(self).state() == resolve_exprs(old(self).state(), exprs@),
            tracks(old(self).state(), old(self).had_error(), final(self).state(), final(self).had_error()),
        decreases exprs, 0nat,
    {
        let mut i: usize = 0;
        while i < exprs.len()
            invariant
                i <= exprs@.len(),
                forall|j: int| 0 <= j < exprs@.len() ==> resolvable_expr(#[trigger] exprs@[j]),
                self.state() == resolve_exprs(old(self).state(), exprs@.take(i as int)),
                tracks(old(self).state(), old(self).had_error(), self.state(), self.had_error()),
            decreases exprs@.len() - i,
        {
            assert(exprs@.take(i + 1).drop_last() =~= exprs@.take(i as int));
            assert(resolvable_expr(exprs@[i as int]));
            self.visit_expr(&exprs[i]);
            i = i + 1;
        }
        assert(exprs@.take(exprs@.len() as int) =~= exprs@);
    }

    fn resolve_pairs(&mut self, pairs: &Vec<(Expr, Expr)>)
        requires
            forall|i: int|
                0 <= i < pairs@.len() ==> resolvable_expr((#[trigger] pairs@[i]).0) && resolvable_expr(pairs@[i].1),
        ensures
            final(self).state() == resolve_pairs(old(self).state(), pairs@),
            tracks(old(self).state(), old(self).had_error(), final(self).state(), final(self).had_error()),
        decreases pairs, 0nat,
    {
        let mut i: usize = 0;
        while i < pairs.len()
            invariant
                i <= pairs@.len(),
                forall|j: int|
                    0 <= j < pairs@.len() ==> resolvable_expr((#[trigger] pairs@[j]).0) && resolvable_expr(
                        pairs@[j].1,
                    ),
                self.state() == resolve_pairs(old(self).state(), pairs@.take(i as int)),
                tracks(old(self).state(), old(self).had_error(), self.state(), self.had_error()),
            decreases pairs@.len() - i,
        {
            assert(pairs@.take(i + 1).drop_last() =~= pairs@.take(i as int));
            assert(resolvable_expr(pairs@[i as int].0));
            self.visit_expr(&pairs[i].0);
            self.visit_expr(&pairs[i].1);
            i = i + 1;
        }
        assert(pairs@.take(pairs@.len() as int) =~= pairs@);
    }

    fn resolve_methods(&mut self, methods: &Vec<Stmt>)
        requires
            forall|i: int| 0 <= i < methods@.len() ==> resolvable_stmt(#[trigger] methods@[i]),
        ensures
            final(self).state() == resolve_methods(old(self).state(), methods@),
            tracks(old(self).state(), old(self).had_error(), final(self).state(), final(self).had_error()),
        decreases methods, 0nat,
    {
        let mut i: usize = 0;
        while i < methods.len()
            invariant
                i <= methods@.len(),
                forall|j: int| 0 <= j < methods@.len() ==> resolvable_stmt(#[trigger] methods@[j]),
                self.state() == resolve_methods(old(self).state(), methods@.take(i as int)),
                tracks(old(self).state(), old(self).had_error(), self.state(), self.had_error()),
            decreases methods@.len() - i,
        {
            assert(methods@.take(i + 1).drop_last() =~= methods@.take(i as int));
            assert(resolvable_stmt(methods@[i as int]));
            match &methods[i] {
                Stmt::Function(name, params, body) => {
                    let function_type = if name.lexeme == string_of("init") {
                        FunctionType::Initializer
                    } else {
                        FunctionType::Method
                    };
                    self.visit_function(params, body, function_type);
                },
                _ => {},
            }
            i = i + 1;
        }
        assert(methods@.take(methods@.len() as int) =~= methods@);
    }
}

} // verus!

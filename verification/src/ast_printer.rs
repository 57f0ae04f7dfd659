//! A printer that renders expressions in a parenthesized prefix form, for
//! looking at what the parser built.
use vstd::prelude::*;
use vstd::string::*;
use crate::ast::Expr;
use crate::error_handler::strings_view;

verus! {

/// Renders expressions as text.
pub struct AstPrinter;

/// `(name` followed by each part, each after a space.
pub open spec fn open_group(name: Seq<char>, parts: Seq<Seq<char>>) -> Seq<char>
    decreases parts.len(),
{
    if parts.len() == 0 {
        seq!['('] + name
    } else {
        open_group(name, parts.drop_last()) + seq![' '] + parts.last()
    }
}

/// `(name part1 part2 ... )`.
pub open spec fn parenthesized(name: Seq<char>, parts: Seq<Seq<char>>) -> Seq<char> {
    open_group(name, parts) + seq![' ', ')']
}

/// What a literal prints as.
pub open spec fn literal_text() -> Seq<char> {
    "TODO maybe\n"@
}

/// What an expression of a kind the printer does not render prints as.
pub open spec fn unrendered_text() -> Seq<char> {
    "not implemented (ExprVisitor for AstPrinter)"@
}

/// The text the printer gives for an expression.
pub open spec fn printed(e: Expr) -> Seq<char>
    decreases e,
{
    match e {
        Expr::Assign(var, _, value) => var.lexeme@ + seq![' ', '=', ' '] + printed(*value),
        Expr::Binary(l, op, r) => parenthesized(op.lexeme@, seq![printed(*l), printed(*r)]),
        Expr::Grouping(x) => parenthesized("group"@, seq![printed(*x)]),
        Expr::Literal(_) => literal_text(),
        Expr::Unary(op, x) => parenthesized(op.lexeme@, seq![printed(*x)]),
        Expr::Variable(t) => t.lexeme@,
        _ => unrendered_text(),
    }
}

fn parenthesize(name: &str, parts: &Vec<String>) -> (r: String)
    ensures
        r@ == parenthesized(name@, strings_view(parts@)),
{
    let mut r = String::from_str("(");
    r.append(name);
    proof {
        reveal_strlit("(");
        assert(strings_view(parts@.subrange(0, 0)) =~= Seq::empty());
        assert(r@ =~= open_group(name@, Seq::empty()));
    }
    let mut i: usize = 0;
    while i < parts.len()
        invariant
            i <= parts@.len(),
            r@ == open_group(name@, strings_view(parts@.subrange(0, i as int))),
        decreases parts@.len() - i,
    {
        r.append(" ");
        r.append(parts[i].as_str());
        proof {
            let pre = parts@.subrange(0, i as int);
            let next = parts@.subrange(0, i + 1);
            assert(next.drop_last() =~= pre);
            assert(strings_view(next).drop_last() =~= strings_view(pre));
            reveal_strlit(" ");
            assert(r@ =~= open_group(name@, strings_view(next)));
        }
        i = i + 1;
    }
    assert(parts@.subrange(0, parts@.len() as int) =~= parts@);
    r.append(" )");
    proof {
        reveal_strlit(" )");
        assert(r@ =~= parenthesized(name@, strings_view(parts@)));
    }
    r
}

impl AstPrinter {
    /// The text of `expr`: assignments as `name = value`, binary, unary and
    /// grouping expressions parenthesized with their operator (or `group`)
    /// first, variables by name; literals and every other kind of expression
    /// as fixed text.
    pub fn print(&mut self, expr: &Expr) -> (r: String)
        ensures
            r@ == printed(*expr),
        decreases expr,
    {
        match expr {
            Expr::Assign(var, _, value) => {
                let mut r = var.lexeme.clone();
                r.append(" = ");
                let v = self.print(value);
                r.append(v.as_str());
                proof {
                    reveal_strlit(" = ");
                    assert(r@ =~= var.lexeme@ + seq![' ', '=', ' '] + printed(**value));
                }
                assert(r@ == printed(*expr));
                r
            },
            Expr::Binary(l, op, right) => {
                let a = self.print(l);
                let b = self.print(right);
                let parts = vec![a, b];
                assert(strings_view(parts@) =~= seq![printed(**l), printed(**right)]);
                let r = parenthesize(op.lexeme.as_str(), &parts);
                assert(r@ == printed(*expr));
                r
            },
            Expr::Grouping(x) => {
                let a = self.print(x);
                let parts = vec![a];
                assert(strings_view(parts@) =~= seq![printed(**x)]);
                let r = parenthesize("group", &parts);
                assert(r@ == printed(*expr));
                r
            },
            Expr::Literal(_) => {
                let r = String::from_str("TODO maybe\n");
                assert(r@ == printed(*expr));
                r
            },
            Expr::Unary(op, x) => {
                let a = self.print(x);
                let parts = vec![a];
                assert(strings_view(parts@) =~= seq![printed(**x)]);
                let r = parenthesize(op.lexeme.as_str(), &parts);
                assert(r@ == printed(*expr));
                r
            },
            Expr::Variable(t) => {
                let r = t.lexeme.clone();
                assert(r@ == printed(*expr));
                r
            },
            _ => {
                let r = String::from_str("not implemented (ExprVisitor for AstPrinter)");
                assert(r@ == printed(*expr));
                r
            },
        }
    }
}

} // verus!

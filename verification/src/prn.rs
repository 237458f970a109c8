//! The text of a named expression.

use vstd::prelude::*;
use vstd::string::StringExecFns;
use crate::expr::{Expr, ExprView};

verus! {

impl ExprView {
    /// The text of the expression: a variable is its name, an invocation is
    /// `(left right)`, a function is `(\name.body)`.
    pub open spec fn rendered(self) -> Seq<char>
        decreases self,
    {
        match self {
            ExprView::Var(name) => name,
            ExprView::Inv(l, r) => seq!['('] + l.rendered() + seq![' '] + r.rendered() + seq![')'],
            ExprView::Fun(name, body) => seq!['(', '\\'] + name + seq!['.'] + body.rendered()
                + seq![')'],
        }
    }
}

impl Expr {
    /// Appends the text of the expression to `out`.
    pub fn render_into(&self, out: &mut String)
        ensures
            final(out)@ == old(out)@ + self@.rendered(),
        decreases self,
    {
        proof {
            reveal_strlit("(");
            reveal_strlit(" ");
            reveal_strlit(")");
            reveal_strlit("(\\");
            reveal_strlit(".");
        }
        match self {
            Expr::Var(name) => {
                out.append(name.as_str());
            },
            Expr::Inv(left, right) => {
                out.append("(");
                left.render_into(out);
                out.append(" ");
                right.render_into(out);
                out.append(")");
                assert(out@ =~= old(out)@ + self@.rendered());
            },
            Expr::Fun(name, body) => {
                out.append("(\\");
                out.append(name.as_str());
                out.append(".");
                body.render_into(out);
                out.append(")");
                assert(out@ =~= old(out)@ + self@.rendered());
            },
        }
    }

    /// The text of the expression.
    pub fn to_string(&self) -> (r: String)
        ensures
            r@ == self@.rendered(),
    {
        let mut out = String::new();
        self.render_into(&mut out);
        assert(out@ =~= self@.rendered());
        out
    }
}

} // verus!

//! Evaluation of an expression: to a term, through the driver, and back to an
//! expression.

use vstd::prelude::*;
use crate::expr::{to_expr, try_to_term, BExpr, ExprView};
use crate::ident::Name;
use crate::reduce::{normal_form_ref, Strategy, Verdict};
use crate::scope::lemma_reduct_has_names;
use crate::term::{BTerm, Ident};

verus! {

/// The stages of an evaluation.
#[derive(Debug, PartialEq, Eq)]
pub struct Evaluation {
    /// The term of the expression.
    pub term: BTerm,
    /// The free names of the expression, in the order in which they are first met.
    pub free: Vec<Ident>,
    /// How the run of the driver ended.
    pub verdict: Verdict,
    /// The term that the run ended on: the normal form where it converged.
    pub reduced: BTerm,
    /// The expression of the term that the run ended on.
    pub expr: BExpr,
}

/// Evaluates `expr`: converts it to a term, reduces that by steps of `strategy`, at
/// most `limit` of them, and converts what the run ends on back to an expression.
/// Gives `None` where the term of `expr` needs an index that `i32` cannot hold.
///
/// The conversion back cannot fail: every index of a term that comes from an
/// expression has a name, and reduction keeps it so.
pub fn evaluate(strategy: Strategy, limit: usize, expr: &BExpr) -> (r: Option<Evaluation>)
    ensures
        r is Some <==> expr@.to_term().0.in_range(),
        r matches Some(done) ==> {
            &&& (done.term@, done.free.deep_view()) == expr@.to_term()
            &&& (done.verdict, done.reduced@) == done.term@.run(strategy, limit as nat)
            &&& done.reduced@.to_expr(done.free.deep_view()) == Ok::<ExprView, (int, Seq<Name>)>(
                done.expr@,
            )
        },
{
    match try_to_term(expr) {
        None => None,
        Some((term, free)) => {
            let mut reduced = Box::new((&*term).clone());
            let verdict = normal_form_ref(strategy, limit, &mut *reduced);
            let names = free.clone();
            proof {
                term.lemma_view_in_range();
                assert(names.deep_view() =~= free.deep_view());
                lemma_reduct_has_names(expr@, strategy, limit as nat);
            }
            let named = to_expr(names, &reduced);
            Some(Evaluation { term, free, verdict, reduced, expr: named })
        },
    }
}

} // verus!

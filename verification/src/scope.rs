//! Scoping: terms in which every index has a binder or a free slot to answer it.
//! Conversion from expressions gives such terms, reduction keeps them so, and
//! conversion back succeeds on exactly these.

use vstd::prelude::*;
use crate::calculus::{lemma_shift_additive, lemma_upward_stays_outside};
use crate::expr::{lemma_indexed_extends, ExprView};
use crate::ident::{fresh_name, lemma_position_from_end, lemma_position_from_start, Name};
use crate::reduce::Strategy;
use crate::term::TermView;

verus! {

impl TermView {
    /// Every index is answered where there are `slots` free slots: none is negative,
    /// and each is below `slots` plus the number of abstractions around it.
    pub open spec fn scoped(self, slots: nat) -> bool
        decreases self,
    {
        match self {
            TermView::Idx(i) => 0 <= i < slots,
            TermView::App(l, r) => l.scoped(slots) && r.scoped(slots),
            TermView::Lmb(_, b) => b.scoped(slots + 1),
        }
    }
}

/// A term that is scoped with some slots is scoped with more.
pub proof fn lemma_scoped_widens(t: TermView, slots: nat, more: nat)
    requires
        t.scoped(slots),
        slots <= more,
    ensures
        t.scoped(more),
    decreases t,
{
    match t {
        TermView::Idx(_) => {},
        TermView::App(l, r) => {
            lemma_scoped_widens(*l, slots, more);
            lemma_scoped_widens(*r, slots, more);
        },
        TermView::Lmb(_, b) => {
            lemma_scoped_widens(*b, slots + 1, more + 1);
        },
    }
}

/// A shift upward by `v` makes room for `v` more slots and needs no more than that.
pub proof fn lemma_shift_scoped(t: TermView, v: nat, depth: int, slots: nat)
    requires
        t.scoped(slots),
    ensures
        t.shifted(v as int, depth).scoped(slots + v),
    decreases t,
{
    match t {
        TermView::Idx(_) => {},
        TermView::App(l, r) => {
            lemma_shift_scoped(*l, v, depth, slots);
            lemma_shift_scoped(*r, v, depth, slots);
        },
        TermView::Lmb(_, b) => {
            lemma_shift_scoped(*b, v, depth + 1, slots + 1);
        },
    }
}

/// Substitution keeps a term scoped: below `depth` binders, a replacement that is
/// scoped outside them goes into a term that is scoped inside them.
pub proof fn lemma_subst_scoped(t: TermView, j: int, depth: nat, s: TermView, slots: nat)
    requires
        t.scoped(slots + depth),
        s.scoped(slots),
    ensures
        t.substituted(j, depth as int, s).scoped(slots + depth),
    decreases t,
{
    match t {
        TermView::Idx(_) => {
            lemma_shift_scoped(s, depth, 0, slots);
        },
        TermView::App(l, r) => {
            lemma_subst_scoped(*l, j, depth, s, slots);
            lemma_subst_scoped(*r, j, depth, s, slots);
        },
        TermView::Lmb(_, b) => {
            lemma_subst_scoped(*b, j, depth + 1, s, slots);
        },
    }
}

/// After a shift upward by more than `d`, no index from `depth` on addresses the
/// slot `d` levels above `depth`.
proof fn lemma_shift_clears(s: TermView, v: int, depth: int, d: int)
    requires
        0 <= d < v,
    ensures
        !s.shifted(v, depth).occurs(0, depth + d),
    decreases s,
{
    match s {
        TermView::Idx(_) => {},
        TermView::App(l, r) => {
            lemma_shift_clears(*l, v, depth, d);
            lemma_shift_clears(*r, v, depth, d);
        },
        TermView::Lmb(_, b) => {
            lemma_shift_clears(*b, v, depth + 1, d);
        },
    }
}

/// Once an argument shifted up by one stands in place of the bound variable, nothing
/// addresses that variable any more.
proof fn lemma_fill_clears(t: TermView, depth: nat, arg: TermView)
    ensures
        !t.substituted(0, depth as int, arg.shifted(1, 0)).occurs(0, depth as int),
    decreases t,
{
    match t {
        TermView::Idx(_) => {
            lemma_upward_stays_outside(arg, 1, 0);
            lemma_shift_additive(arg, depth as int, 1, 0);
            lemma_shift_clears(arg, depth as int + 1, 0, depth as int);
        },
        TermView::App(l, r) => {
            lemma_fill_clears(*l, depth, arg);
            lemma_fill_clears(*r, depth, arg);
        },
        TermView::Lmb(_, b) => {
            lemma_fill_clears(*b, depth + 1, arg);
        },
    }
}

/// Taking out a binder that nothing addresses leaves a term scoped with one slot
/// less.
proof fn lemma_lowered_scoped(t: TermView, depth: nat, slots: nat)
    requires
        t.scoped(slots),
        !t.occurs(0, depth as int),
        depth < slots,
    ensures
        t.shifted(-1, depth as int).scoped((slots - 1) as nat),
    decreases t,
{
    match t {
        TermView::Idx(_) => {},
        TermView::App(l, r) => {
            lemma_lowered_scoped(*l, depth, slots);
            lemma_lowered_scoped(*r, depth, slots);
        },
        TermView::Lmb(_, b) => {
            lemma_lowered_scoped(*b, depth + 1, slots + 1);
        },
    }
}

/// The beta rule keeps a term scoped.
pub proof fn lemma_contraction_scoped(t: TermView, slots: nat)
    requires
        t.scoped(slots),
    ensures
        t.contracted().scoped(slots),
{
    if t.is_redex() {
        let body = *t->App_0->Lmb_1;
        let arg = *t->App_1;
        assert(t->App_0.scoped(slots));
        assert(body.scoped(slots + 1));
        lemma_shift_scoped(arg, 1, 0, slots);
        lemma_subst_scoped(body, 0, 0, t.lifted_argument(), slots + 1);
        lemma_fill_clears(body, 0, arg);
        lemma_lowered_scoped(t.filled_body(), 0, slots + 1);
    }
}

/// A step of either strategy keeps a term scoped.
pub proof fn lemma_step_scoped(t: TermView, strategy: Strategy, slots: nat)
    requires
        t.scoped(slots),
    ensures
        t.step(strategy) matches Some(next) ==> next.scoped(slots),
    decreases t,
{
    lemma_contraction_scoped(t, slots);
    match t {
        TermView::Idx(_) => {},
        TermView::App(f, a) => {
            lemma_step_scoped(*f, strategy, slots);
            lemma_step_scoped(*a, strategy, slots);
        },
        TermView::Lmb(_, b) => {
            lemma_step_scoped(*b, strategy, slots + 1);
        },
    }
}

/// However a run ends, it ends on a scoped term if it began on one.
pub proof fn lemma_run_scoped(t: TermView, strategy: Strategy, limit: nat, slots: nat)
    requires
        t.scoped(slots),
    ensures
        t.run(strategy, limit).1.scoped(slots),
    decreases limit,
{
    lemma_step_scoped(t, strategy, slots);
    match t.step(strategy) {
        Some(next) => {
            if limit > 0 && t.step_fits(strategy) {
                lemma_run_scoped(next, strategy, (limit - 1) as nat, slots);
            }
        },
        None => {},
    }
}

/// The term of an expression is scoped with the free names it was given and those it
/// added.
pub proof fn lemma_indexed_scoped(e: ExprView, free: Seq<Name>, bound: Seq<Name>)
    ensures
        e.indexed(free, bound).0.scoped(bound.len() + e.indexed(free, bound).1.len()),
    decreases e,
{
    match e {
        ExprView::Var(v) => {
            lemma_position_from_end(bound, v);
            lemma_position_from_start(free, v);
        },
        ExprView::Fun(v, body) => {
            lemma_indexed_scoped(*body, free, bound.push(v));
        },
        ExprView::Inv(l, r) => {
            let (lt, f1) = l.indexed(free, bound);
            let (rt, f2) = r.indexed(f1, bound);
            lemma_indexed_scoped(*l, free, bound);
            lemma_indexed_scoped(*r, f1, bound);
            lemma_indexed_extends(*r, f1, bound);
            lemma_scoped_widens(lt, bound.len() + f1.len(), bound.len() + f2.len());
        },
    }
}

/// Names are found for exactly the terms that are scoped with as many slots as the
/// context has names.
pub proof fn lemma_named_iff_scoped(t: TermView, ctx: Seq<Name>)
    ensures
        t.named(ctx) is Ok <==> t.scoped(ctx.len()),
    decreases t,
{
    match t {
        TermView::Idx(_) => {},
        TermView::App(l, r) => {
            lemma_named_iff_scoped(*l, ctx);
            lemma_named_iff_scoped(*r, ctx);
        },
        TermView::Lmb(label, b) => {
            lemma_named_iff_scoped(*b, ctx.push(fresh_name(ctx, label)));
        },
    }
}

/// Conversion back succeeds on exactly the terms that are scoped with as many slots
/// as there are free names.
pub proof fn lemma_to_expr_iff_scoped(t: TermView, free: Seq<Name>)
    ensures
        t.to_expr(free) is Ok <==> t.scoped(free.len()),
{
    lemma_named_iff_scoped(t, free.reverse());
}

/// What an expression reduces to can always be converted back: whatever the
/// expression, the strategy and the ceiling, the term that the run ends on has a
/// name for every index.
pub proof fn lemma_reduct_has_names(e: ExprView, strategy: Strategy, limit: nat)
    ensures
        e.to_term().0.run(strategy, limit).1.to_expr(e.to_term().1) is Ok,
{
    let (t, free) = e.to_term();
    lemma_indexed_scoped(e, Seq::empty(), Seq::empty());
    lemma_run_scoped(t, strategy, limit, free.len());
    lemma_to_expr_iff_scoped(t.run(strategy, limit).1, free);
}

} // verus!

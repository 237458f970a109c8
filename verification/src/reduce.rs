//! Reduction: two strategies that each contract one redex per step, and the driver
//! that repeats a strategy up to a ceiling.

use vstd::prelude::*;
use crate::calculus::{beta_rule_ref, is_redex, lemma_contraction_ignores_labels,
    lemma_fits_ignores_labels, lemma_shift_additive, lemma_shift_out_of_reach,
    lemma_slot_out_of_reach, lemma_subst_absent, lemma_upward_stays_outside, REACH};
use crate::term::{BTerm, Term, TermView};

verus! {

/// Which redex a step contracts.
#[derive(Clone, Copy, Debug, PartialEq, Eq, Structural)]
pub enum Strategy {
    /// Leftmost-outermost: a redex is contracted before its operand is looked at.
    NormalOrder,
    /// The operand of a redex is reduced until it has no redex left; only then is the
    /// redex itself contracted.
    ValueFirst,
}

/// How a run of the driver ended.
#[derive(Clone, Copy, Debug, PartialEq, Eq, Structural)]
pub enum Verdict {
    /// The term has no redex left.
    Converged,
    /// The ceiling was reached and the term still has a redex.
    StepLimitReached,
    /// The next contraction needs an index that `i32` cannot hold.
    IndexOverflow,
}

/// The term that a run of the driver ended on, tagged with how it ended.
#[derive(Debug, PartialEq, Eq)]
pub enum Outcome {
    /// A normal form.
    Converged(BTerm),
    /// The term after as many steps as the ceiling allows; it still has a redex.
    StepLimitReached(BTerm),
    /// The term before the step whose contraction needs an index that `i32` cannot
    /// hold.
    IndexOverflow(BTerm),
}

impl TermView {
    /// Some subterm is a redex.
    pub open spec fn has_redex(self) -> bool
        decreases self,
    {
        match self {
            TermView::Idx(_) => false,
            TermView::App(l, r) => self.is_redex() || l.has_redex() || r.has_redex(),
            TermView::Lmb(_, b) => b.has_redex(),
        }
    }

    /// One step of `strategy`: the term with the selected redex contracted, or `None`
    /// when the term has no redex.
    pub open spec fn step(self, strategy: Strategy) -> Option<TermView>
        decreases self,
    {
        match self {
            TermView::Idx(_) => None,
            TermView::Lmb(n, b) => match b.step(strategy) {
                Some(b2) => Some(TermView::Lmb(n, Box::new(b2))),
                None => None,
            },
            TermView::App(f, a) => if self.is_redex() {
                match strategy {
                    Strategy::NormalOrder => Some(self.contracted()),
                    Strategy::ValueFirst => match a.step(strategy) {
                        Some(a2) => Some(TermView::App(f, Box::new(a2))),
                        None => Some(self.contracted()),
                    },
                }
            } else {
                match f.step(strategy) {
                    Some(f2) => Some(TermView::App(Box::new(f2), a)),
                    None => match a.step(strategy) {
                        Some(a2) => Some(TermView::App(f, Box::new(a2))),
                        None => None,
                    },
                }
            },
        }
    }

    /// The contraction that one step of `strategy` performs stays within `i32`. True
    /// of a term without a redex.
    pub open spec fn step_fits(self, strategy: Strategy) -> bool
        decreases self,
    {
        match self {
            TermView::Idx(_) => true,
            TermView::Lmb(_, b) => b.step_fits(strategy),
            TermView::App(f, a) => if self.is_redex() {
                match strategy {
                    Strategy::NormalOrder => self.contraction_fits(),
                    Strategy::ValueFirst => a.step_fits(strategy) && (a.step(strategy) is None
                        ==> self.contraction_fits()),
                }
            } else {
                f.step_fits(strategy) && (f.step(strategy) is None ==> a.step_fits(strategy))
            },
        }
    }

    /// The driver: steps of `strategy` until no redex is left, the ceiling `limit` is
    /// reached, or a contraction does not fit.
    pub open spec fn run(self, strategy: Strategy, limit: nat) -> (Verdict, TermView)
        decreases limit,
    {
        match self.step(strategy) {
            None => (Verdict::Converged, self),
            Some(next) => if limit == 0 {
                (Verdict::StepLimitReached, self)
            } else if !self.step_fits(strategy) {
                (Verdict::IndexOverflow, self)
            } else {
                next.run(strategy, (limit - 1) as nat)
            },
        }
    }
}

/// Either strategy finds a step exactly in the terms that have a redex.
pub proof fn lemma_step_iff_redex(t: TermView, strategy: Strategy)
    ensures
        t.step(strategy) is Some <==> t.has_redex(),
    decreases t,
{
    match t {
        TermView::Idx(_) => {},
        TermView::App(l, r) => {
            lemma_step_iff_redex(*l, strategy);
            lemma_step_iff_redex(*r, strategy);
        },
        TermView::Lmb(_, b) => {
            lemma_step_iff_redex(*b, strategy);
        },
    }
}

/// Labels do not matter to reduction: terms of one shape have a step together, and
/// step to terms of one shape.
pub proof fn lemma_step_ignores_labels(a: TermView, b: TermView, strategy: Strategy)
    requires
        a.shape() == b.shape(),
    ensures
        a.step(strategy) is Some <==> b.step(strategy) is Some,
        a.step(strategy) matches Some(a2) ==> a2.shape() == b.step(strategy).unwrap().shape(),
    decreases a,
{
    lemma_contraction_ignores_labels(a, b);
    match (a, b) {
        (TermView::App(af, aa), TermView::App(bf, ba)) => {
            lemma_step_ignores_labels(*af, *bf, strategy);
            lemma_step_ignores_labels(*aa, *ba, strategy);
        },
        (TermView::Lmb(_, ab), TermView::Lmb(_, bb)) => {
            lemma_step_ignores_labels(*ab, *bb, strategy);
        },
        _ => {},
    }
}

/// Labels do not matter to whether a step stays within `i32`.
pub proof fn lemma_step_fits_ignores_labels(a: TermView, b: TermView, strategy: Strategy)
    requires
        a.shape() == b.shape(),
    ensures
        a.step_fits(strategy) == b.step_fits(strategy),
    decreases a,
{
    lemma_contraction_ignores_labels(a, b);
    lemma_fits_ignores_labels(a, b);
    match (a, b) {
        (TermView::App(af, aa), TermView::App(bf, ba)) => {
            lemma_step_ignores_labels(*af, *bf, strategy);
            lemma_step_ignores_labels(*aa, *ba, strategy);
            lemma_step_fits_ignores_labels(*af, *bf, strategy);
            lemma_step_fits_ignores_labels(*aa, *ba, strategy);
        },
        (TermView::Lmb(_, ab), TermView::Lmb(_, bb)) => {
            lemma_step_fits_ignores_labels(*ab, *bb, strategy);
        },
        _ => {},
    }
}

/// Labels do not matter to a run: terms of one shape end in the same way, on terms
/// of one shape.
pub proof fn lemma_run_ignores_labels(a: TermView, b: TermView, strategy: Strategy, limit: nat)
    requires
        a.shape() == b.shape(),
    ensures
        a.run(strategy, limit).0 == b.run(strategy, limit).0,
        a.run(strategy, limit).1.shape() == b.run(strategy, limit).1.shape(),
    decreases limit,
{
    lemma_step_ignores_labels(a, b, strategy);
    lemma_step_fits_ignores_labels(a, b, strategy);
    match (a.step(strategy), b.step(strategy)) {
        (Some(a2), Some(b2)) => {
            if limit > 0 && a.step_fits(strategy) {
                lemma_run_ignores_labels(a2, b2, strategy, (limit - 1) as nat);
            }
        },
        _ => {},
    }
}

/// A run that converged ends on a term without a redex; a run that met the ceiling
/// ends on a term that has one.
pub proof fn lemma_run_verdict(t: TermView, strategy: Strategy, limit: nat)
    ensures
        t.run(strategy, limit).0 == Verdict::Converged ==> !t.run(strategy, limit).1.has_redex(),
        t.run(strategy, limit).0 != Verdict::Converged ==> t.run(strategy, limit).1.has_redex(),
    decreases limit,
{
    lemma_step_iff_redex(t, strategy);
    match t.step(strategy) {
        Some(next) => {
            if limit > 0 && t.step_fits(strategy) {
                lemma_run_verdict(next, strategy, (limit - 1) as nat);
            }
        },
        None => {},
    }
}

/// A higher ceiling changes nothing for a run that ended before the ceiling: one
/// that converged, or one that stopped in front of a contraction out of range.
pub proof fn lemma_run_settled(t: TermView, strategy: Strategy, limit: nat, more: nat)
    requires
        t.run(strategy, limit).0 != Verdict::StepLimitReached,
        limit <= more,
    ensures
        t.run(strategy, more) == t.run(strategy, limit),
    decreases limit,
{
    match t.step(strategy) {
        Some(next) => {
            if limit > 0 && t.step_fits(strategy) {
                lemma_run_settled(next, strategy, (limit - 1) as nat, (more - 1) as nat);
            }
        },
        None => {},
    }
}

impl Outcome {
    /// How the run ended.
    pub open spec fn spec_verdict(&self) -> Verdict {
        match self {
            Outcome::Converged(_) => Verdict::Converged,
            Outcome::StepLimitReached(_) => Verdict::StepLimitReached,
            Outcome::IndexOverflow(_) => Verdict::IndexOverflow,
        }
    }

    /// The term that the run ended on.
    pub open spec fn spec_term(&self) -> Term {
        match self {
            Outcome::Converged(t) => **t,
            Outcome::StepLimitReached(t) => **t,
            Outcome::IndexOverflow(t) => **t,
        }
    }

    /// How the run ended.
    #[verifier::when_used_as_spec(spec_verdict)]
    pub fn verdict(&self) -> (r: Verdict)
        ensures
            r == self.spec_verdict(),
    {
        match self {
            Outcome::Converged(_) => Verdict::Converged,
            Outcome::StepLimitReached(_) => Verdict::StepLimitReached,
            Outcome::IndexOverflow(_) => Verdict::IndexOverflow,
        }
    }

    /// The term that the run ended on.
    pub fn term(&self) -> (r: &Term)
        ensures
            *r == self.spec_term(),
    {
        match self {
            Outcome::Converged(t) => &**t,
            Outcome::StepLimitReached(t) => &**t,
            Outcome::IndexOverflow(t) => &**t,
        }
    }

    /// Gives up the tag and hands out the term.
    pub fn into_term(self) -> (r: BTerm)
        ensures
            *r == self.spec_term(),
    {
        match self {
            Outcome::Converged(t) => t,
            Outcome::StepLimitReached(t) => t,
            Outcome::IndexOverflow(t) => t,
        }
    }
}

/// Tells whether `t`, shifted by `v` at `depth`, stays within `i32`.
fn shift_fits(v: i64, depth: i64, t: &Term) -> (r: bool)
    requires
        -2 * REACH <= v <= 2 * REACH,
        0 <= depth <= REACH,
    ensures
        r == t@.shifted(v as int, depth as int).in_range(),
    decreases t,
{
    match t {
        Term::Idx(i) => {
            if *i as i64 >= depth {
                let moved: i64 = *i as i64 + v;
                -0x8000_0000 <= moved && moved <= 0x7fff_ffff
            } else {
                true
            }
        },
        Term::App(t1, t2) => shift_fits(v, depth, t1) && shift_fits(v, depth, t2),
        Term::Lmb(_, t1) => {
            if depth < REACH {
                shift_fits(v, depth + 1, t1)
            } else {
                proof {
                    t1.lemma_view_in_range();
                    lemma_shift_out_of_reach(t1@, v as int, depth + 1);
                }
                true
            }
        },
    }
}

/// Tells whether `body`, with `arg` shifted up by one in place of the variable bound
/// `depth` binders up, stays within `i32`.
fn fill_fits(depth: i64, body: &Term, arg: &Term) -> (r: bool)
    requires
        0 <= depth <= REACH,
    ensures
        r == body@.substituted(0, depth as int, arg@.shifted(1, 0)).in_range(),
    decreases body,
{
    match body {
        Term::Idx(i) => {
            if *i as i64 == depth {
                proof {
                    lemma_upward_stays_outside(arg@, 1, 0);
                    lemma_shift_additive(arg@, depth as int, 1, 0);
                }
                shift_fits(depth + 1, 0, arg)
            } else {
                true
            }
        },
        Term::App(t1, t2) => fill_fits(depth, t1, arg) && fill_fits(depth, t2, arg),
        Term::Lmb(_, t1) => {
            if depth < REACH {
                fill_fits(depth + 1, t1, arg)
            } else {
                proof {
                    t1.lemma_view_in_range();
                    lemma_slot_out_of_reach(t1@, 0, depth + 1);
                    lemma_subst_absent(t1@, 0, depth + 1, arg@.shifted(1, 0));
                }
                true
            }
        },
    }
}

/// Tells whether the beta rule can be applied at the root of `t` within `i32`.
pub fn contraction_fits(t: &Term) -> (r: bool)
    ensures
        r == t@.contraction_fits(),
{
    proof {
        reveal_with_fuel(Term::model, 2);
    }
    match t {
        Term::App(t1, t2) => match &**t1 {
            Term::Lmb(_, t3) => shift_fits(1, 0, t2) && fill_fits(0, t3, t2),
            _ => true,
        },
        _ => true,
    }
}

/// Looks for the step that `strategy` would take on `t`, without taking it: `None`
/// when `t` has no redex, else whether the contraction stays within `i32`.
pub fn probe(strategy: Strategy, t: &Term) -> (r: Option<bool>)
    ensures
        r is Some <==> t@.step(strategy) is Some,
        r matches Some(fits) ==> fits == t@.step_fits(strategy),
        r is None ==> t@.step_fits(strategy),
    decreases t,
{
    if is_redex(t) {
        match strategy {
            Strategy::NormalOrder => Some(contraction_fits(t)),
            Strategy::ValueFirst => match t {
                Term::App(_, t2) => match probe(strategy, t2) {
                    Some(fits) => Some(fits),
                    None => Some(contraction_fits(t)),
                },
                _ => None,
            },
        }
    } else {
        match t {
            Term::Idx(_) => None,
            Term::Lmb(_, t1) => probe(strategy, t1),
            Term::App(t1, t2) => match probe(strategy, t1) {
                Some(fits) => Some(fits),
                None => probe(strategy, t2),
            },
        }
    }
}

/// One step in normal order, in place: at an application of an abstraction, the beta
/// rule; at another application, a step in the operator or else in the operand; at
/// an abstraction, a step in its body. Returns whether a redex was found.
pub fn step_norm(t: &mut Term) -> (r: bool)
    requires
        old(t)@.step_fits(Strategy::NormalOrder),
    ensures
        r == old(t)@.step(Strategy::NormalOrder) is Some,
        final(t)@ == match old(t)@.step(Strategy::NormalOrder) {
            Some(next) => next,
            None => old(t)@,
        },
    decreases *old(t),
{
    if is_redex(t) {
        return beta_rule_ref(t);
    }
    match t {
        Term::Idx(_) => false,
        Term::Lmb(_, t1) => step_norm(t1),
        Term::App(t1, t2) => {
            if step_norm(t1) {
                true
            } else {
                step_norm(t2)
            }
        },
    }
}

/// One step that reduces operands first, in place: at an application of an
/// abstraction, a step in the operand, and the beta rule only when the operand has
/// no redex; elsewhere as in normal order. Returns whether a redex was found.
pub fn step_appl(t: &mut Term) -> (r: bool)
    requires
        old(t)@.step_fits(Strategy::ValueFirst),
    ensures
        r == old(t)@.step(Strategy::ValueFirst) is Some,
        final(t)@ == match old(t)@.step(Strategy::ValueFirst) {
            Some(next) => next,
            None => old(t)@,
        },
    decreases *old(t),
{
    let redex = is_redex(t);
    match t {
        Term::Idx(_) => false,
        Term::Lmb(_, t1) => step_appl(t1),
        Term::App(t1, t2) => {
            if redex {
                if step_appl(t2) {
                    true
                } else {
                    beta_rule_ref(t)
                }
            } else if step_appl(t1) {
                true
            } else {
                step_appl(t2)
            }
        },
    }
}

/// One step of `strategy`, in place.
pub fn step(strategy: Strategy, t: &mut Term) -> (r: bool)
    requires
        old(t)@.step_fits(strategy),
    ensures
        r == old(t)@.step(strategy) is Some,
        final(t)@ == match old(t)@.step(strategy) {
            Some(next) => next,
            None => old(t)@,
        },
{
    match strategy {
        Strategy::NormalOrder => step_norm(t),
        Strategy::ValueFirst => step_appl(t),
    }
}

/// One turn of the driver, in place, with `left` steps still allowed. Where the run
/// ends here, returns how and leaves `t` and `left` as they are; else takes one step
/// of `strategy`, counts it off `left` and returns `None`. A caller that wants to see
/// every intermediate term calls this in a loop and looks at `t` between the turns.
pub fn advance(strategy: Strategy, left: &mut usize, t: &mut Term) -> (r: Option<Verdict>)
    ensures
        r is None <==> *old(left) > 0 && old(t)@.step(strategy) is Some && old(t)@.step_fits(
            strategy,
        ),
        match r {
            Some(verdict) => {
                &&& (verdict, final(t)@) == old(t)@.run(strategy, *old(left) as nat)
                &&& final(t)@ == old(t)@
                &&& *final(left) == *old(left)
            },
            None => {
                &&& old(t)@.step(strategy) == Some(final(t)@)
                &&& *final(left) == *old(left) - 1
            },
        },
{
    match probe(strategy, t) {
        None => Some(Verdict::Converged),
        Some(fits) => {
            if *left == 0 {
                Some(Verdict::StepLimitReached)
            } else if !fits {
                Some(Verdict::IndexOverflow)
            } else {
                step(strategy, t);
                *left = *left - 1;
                None
            }
        },
    }
}

/// Reduces `t` in place by steps of `strategy`, at most `limit` of them, and tells
/// how the run ended. Before a step, its contraction is tested against the range of
/// `i32`; the run stops in front of one that does not fit.
pub fn normal_form_ref(strategy: Strategy, limit: usize, t: &mut Term) -> (r: Verdict)
    ensures
        (r, final(t)@) == old(t)@.run(strategy, limit as nat),
{
    let mut left: usize = limit;
    loop
        invariant
            t@.run(strategy, left as nat) == old(t)@.run(strategy, limit as nat),
        decreases left,
    {
        match advance(strategy, &mut left, t) {
            Some(verdict) => {
                return verdict;
            },
            None => {},
        }
    }
}

/// Reduces `t` by steps of `strategy`, at most `limit` of them. The result is
/// `Converged` with the normal form when no redex is left after `limit` steps or
/// fewer, `StepLimitReached` with the term after `limit` steps when that term still
/// has a redex, and `IndexOverflow` with the term reached when its next contraction
/// needs an index that `i32` cannot hold.
pub fn normal_form(strategy: Strategy, limit: usize, t: BTerm) -> (r: Outcome)
    ensures
        (r.verdict(), r.spec_term()@) == t@.run(strategy, limit as nat),
{
    let mut t = t;
    match normal_form_ref(strategy, limit, &mut *t) {
        Verdict::Converged => Outcome::Converged(t),
        Verdict::StepLimitReached => Outcome::StepLimitReached(t),
        Verdict::IndexOverflow => Outcome::IndexOverflow(t),
    }
}

} // verus!

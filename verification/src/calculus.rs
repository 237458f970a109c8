//! Shifting, substitution and the beta rule on nameless terms.

use vstd::prelude::*;
use crate::term::{BTerm, Term, TermView};

verus! {

/// No index of a stored term can address a binder this many levels up, nor can a
/// stored slot number lie this far from a stored index.
pub const REACH: i64 = 0x1_0000_0000;

impl TermView {
    /// Adds `v` to every index that points past `depth` enclosing binders. Each
    /// abstraction that is entered raises `depth` by one.
    pub open spec fn shifted(self, v: int, depth: int) -> TermView
        decreases self,
    {
        match self {
            TermView::Idx(i) => if i >= depth {
                TermView::Idx(i + v)
            } else {
                self
            },
            TermView::App(l, r) => TermView::App(
                Box::new(l.shifted(v, depth)),
                Box::new(r.shifted(v, depth)),
            ),
            TermView::Lmb(n, b) => TermView::Lmb(n, Box::new(b.shifted(v, depth + 1))),
        }
    }

    /// Replaces every index that addresses slot `j`, seen from `depth` binders down,
    /// by `s` with its outward references pushed past the binders crossed.
    pub open spec fn substituted(self, j: int, depth: int, s: TermView) -> TermView
        decreases self,
    {
        match self {
            TermView::Idx(i) => if i - depth == j {
                s.shifted(depth, 0)
            } else {
                self
            },
            TermView::App(l, r) => TermView::App(
                Box::new(l.substituted(j, depth, s)),
                Box::new(r.substituted(j, depth, s)),
            ),
            TermView::Lmb(n, b) => TermView::Lmb(n, Box::new(b.substituted(j, depth + 1, s))),
        }
    }

    /// Some index addresses slot `j`, seen from `depth` binders down.
    pub open spec fn occurs(self, j: int, depth: int) -> bool
        decreases self,
    {
        match self {
            TermView::Idx(i) => i - depth == j,
            TermView::App(l, r) => l.occurs(j, depth) || r.occurs(j, depth),
            TermView::Lmb(_, b) => b.occurs(j, depth + 1),
        }
    }

    /// Every index that a shift by `v` at `depth` moves still points past its
    /// binders afterwards.
    pub open spec fn stays_outside(self, v: int, depth: int) -> bool
        decreases self,
    {
        match self {
            TermView::Idx(i) => i >= depth ==> i + v >= depth,
            TermView::App(l, r) => l.stays_outside(v, depth) && r.stays_outside(v, depth),
            TermView::Lmb(_, b) => b.stays_outside(v, depth + 1),
        }
    }

    /// An application whose operator is an abstraction.
    pub open spec fn is_redex(self) -> bool {
        self matches TermView::App(f, _) && *f is Lmb
    }

    /// The argument of a redex, made ready to go under the binder it is applied to.
    pub open spec fn lifted_argument(self) -> TermView
        recommends
            self.is_redex(),
    {
        self->App_1.shifted(1, 0)
    }

    /// The body of a redex with the argument in place of the bound variable, before
    /// the eliminated binder is taken out of the remaining indices.
    pub open spec fn filled_body(self) -> TermView
        recommends
            self.is_redex(),
    {
        self->App_0->Lmb_1.substituted(0, 0, self.lifted_argument())
    }

    /// The beta rule at the root: a redex becomes its body with the argument
    /// substituted; any other term stays as it is.
    pub open spec fn contracted(self) -> TermView {
        if self.is_redex() {
            self.filled_body().shifted(-1, 0)
        } else {
            self
        }
    }

    /// The three passes of the beta rule at the root stay within `i32`.
    pub open spec fn contraction_fits(self) -> bool {
        self.is_redex() ==> self.lifted_argument().in_range() && self.filled_body().in_range()
    }
}

/// Shifting by zero changes nothing.
pub proof fn lemma_shift_zero(t: TermView, depth: int)
    ensures
        t.shifted(0, depth) == t,
    decreases t,
{
    match t {
        TermView::Idx(_) => {},
        TermView::App(l, r) => {
            lemma_shift_zero(*l, depth);
            lemma_shift_zero(*r, depth);
        },
        TermView::Lmb(_, b) => {
            lemma_shift_zero(*b, depth + 1);
        },
    }
}

/// Two shifts at the same depth add up, provided the first one leaves every index it
/// moves outside its binders (as every shift by a non-negative amount does), or the
/// second one is by zero.
pub proof fn lemma_shift_additive(t: TermView, a: int, b: int, depth: int)
    requires
        a == 0 || t.stays_outside(b, depth),
    ensures
        t.shifted(b, depth).shifted(a, depth) == t.shifted(a + b, depth),
    decreases t,
{
    if a == 0 {
        lemma_shift_zero(t.shifted(b, depth), depth);
    } else {
        match t {
            TermView::Idx(_) => {},
            TermView::App(l, r) => {
                lemma_shift_additive(*l, a, b, depth);
                lemma_shift_additive(*r, a, b, depth);
            },
            TermView::Lmb(_, body) => {
                lemma_shift_additive(*body, a, b, depth + 1);
            },
        }
    }
}

/// In no other case do two shifts at the same depth add up: where the first one
/// takes an index below its binders, the second one passes that index by.
pub proof fn lemma_shift_additive_only(t: TermView, a: int, b: int, depth: int)
    requires
        a != 0,
        !t.stays_outside(b, depth),
    ensures
        t.shifted(b, depth).shifted(a, depth) != t.shifted(a + b, depth),
    decreases t,
{
    match t {
        TermView::Idx(_) => {},
        TermView::App(l, r) => {
            if !l.stays_outside(b, depth) {
                lemma_shift_additive_only(*l, a, b, depth);
            } else {
                lemma_shift_additive_only(*r, a, b, depth);
            }
        },
        TermView::Lmb(_, body) => {
            lemma_shift_additive_only(*body, a, b, depth + 1);
        },
    }
}

/// A shift by a non-negative amount leaves every index it moves outside its binders.
pub proof fn lemma_upward_stays_outside(t: TermView, v: int, depth: int)
    requires
        v >= 0,
    ensures
        t.stays_outside(v, depth),
    decreases t,
{
    match t {
        TermView::Idx(_) => {},
        TermView::App(l, r) => {
            lemma_upward_stays_outside(*l, v, depth);
            lemma_upward_stays_outside(*r, v, depth);
        },
        TermView::Lmb(_, b) => {
            lemma_upward_stays_outside(*b, v, depth + 1);
        },
    }
}

/// Substituting for a slot that the term does not address changes nothing.
pub proof fn lemma_subst_absent(t: TermView, j: int, depth: int, s: TermView)
    requires
        !t.occurs(j, depth),
    ensures
        t.substituted(j, depth, s) == t,
    decreases t,
{
    match t {
        TermView::Idx(_) => {},
        TermView::App(l, r) => {
            lemma_subst_absent(*l, j, depth, s);
            lemma_subst_absent(*r, j, depth, s);
        },
        TermView::Lmb(_, b) => {
            lemma_subst_absent(*b, j, depth + 1, s);
        },
    }
}

/// Labels do not matter to shifting: terms of one shape stay of one shape.
pub proof fn lemma_shift_ignores_labels(a: TermView, b: TermView, v: int, depth: int)
    requires
        a.shape() == b.shape(),
    ensures
        a.shifted(v, depth).shape() == b.shifted(v, depth).shape(),
    decreases a,
{
    match (a, b) {
        (TermView::App(al, ar), TermView::App(bl, br)) => {
            lemma_shift_ignores_labels(*al, *bl, v, depth);
            lemma_shift_ignores_labels(*ar, *br, v, depth);
        },
        (TermView::Lmb(_, ab), TermView::Lmb(_, bb)) => {
            lemma_shift_ignores_labels(*ab, *bb, v, depth + 1);
        },
        _ => {},
    }
}

/// Labels do not matter to substitution: terms of one shape, with replacements of
/// one shape, stay of one shape.
pub proof fn lemma_subst_ignores_labels(
    a: TermView,
    b: TermView,
    j: int,
    depth: int,
    sa: TermView,
    sb: TermView,
)
    requires
        a.shape() == b.shape(),
        sa.shape() == sb.shape(),
    ensures
        a.substituted(j, depth, sa).shape() == b.substituted(j, depth, sb).shape(),
    decreases a,
{
    match (a, b) {
        (TermView::Idx(_), TermView::Idx(_)) => {
            lemma_shift_ignores_labels(sa, sb, depth, 0);
        },
        (TermView::App(al, ar), TermView::App(bl, br)) => {
            lemma_subst_ignores_labels(*al, *bl, j, depth, sa, sb);
            lemma_subst_ignores_labels(*ar, *br, j, depth, sa, sb);
        },
        (TermView::Lmb(_, ab), TermView::Lmb(_, bb)) => {
            lemma_subst_ignores_labels(*ab, *bb, j, depth + 1, sa, sb);
        },
        _ => {},
    }
}

/// Labels do not matter to the beta rule: terms of one shape are redexes together
/// and contract to terms of one shape.
pub proof fn lemma_contraction_ignores_labels(a: TermView, b: TermView)
    requires
        a.shape() == b.shape(),
    ensures
        a.is_redex() == b.is_redex(),
        a.contracted().shape() == b.contracted().shape(),
{
    reveal_with_fuel(TermView::shape, 3);
    match (a, b) {
        (TermView::App(af, aa), TermView::App(bf, ba)) => {
            match (*af, *bf) {
                (TermView::Lmb(_, ab), TermView::Lmb(_, bb)) => {
                    lemma_shift_ignores_labels(*aa, *ba, 1, 0);
                    lemma_subst_ignores_labels(
                        *ab,
                        *bb,
                        0,
                        0,
                        aa.shifted(1, 0),
                        ba.shifted(1, 0),
                    );
                    lemma_shift_ignores_labels(a.filled_body(), b.filled_body(), -1, 0);
                },
                _ => {},
            }
        },
        _ => {},
    }
}

/// Labels do not matter to the range of the indices.
pub proof fn lemma_range_ignores_labels(a: TermView, b: TermView)
    requires
        a.shape() == b.shape(),
    ensures
        a.in_range() == b.in_range(),
    decreases a,
{
    match (a, b) {
        (TermView::App(al, ar), TermView::App(bl, br)) => {
            lemma_range_ignores_labels(*al, *bl);
            lemma_range_ignores_labels(*ar, *br);
        },
        (TermView::Lmb(_, ab), TermView::Lmb(_, bb)) => {
            lemma_range_ignores_labels(*ab, *bb);
        },
        _ => {},
    }
}

/// Labels do not matter to whether the beta rule stays within `i32`.
pub proof fn lemma_fits_ignores_labels(a: TermView, b: TermView)
    requires
        a.shape() == b.shape(),
    ensures
        a.contraction_fits() == b.contraction_fits(),
{
    reveal_with_fuel(TermView::shape, 3);
    match (a, b) {
        (TermView::App(af, aa), TermView::App(bf, ba)) => {
            match (*af, *bf) {
                (TermView::Lmb(_, ab), TermView::Lmb(_, bb)) => {
                    lemma_shift_ignores_labels(*aa, *ba, 1, 0);
                    lemma_subst_ignores_labels(
                        *ab,
                        *bb,
                        0,
                        0,
                        aa.shifted(1, 0),
                        ba.shifted(1, 0),
                    );
                    lemma_range_ignores_labels(a.lifted_argument(), b.lifted_argument());
                    lemma_range_ignores_labels(a.filled_body(), b.filled_body());
                },
                _ => {},
            }
        },
        _ => {},
    }
}

/// Below more binders than an `i32` can count, a shift moves nothing.
pub proof fn lemma_shift_out_of_reach(t: TermView, v: int, depth: int)
    requires
        t.in_range(),
        depth > i32::MAX,
    ensures
        t.shifted(v, depth) == t,
    decreases t,
{
    match t {
        TermView::Idx(_) => {},
        TermView::App(l, r) => {
            lemma_shift_out_of_reach(*l, v, depth);
            lemma_shift_out_of_reach(*r, v, depth);
        },
        TermView::Lmb(_, b) => {
            lemma_shift_out_of_reach(*b, v, depth + 1);
        },
    }
}

/// Below `REACH` binders no stored index addresses a stored slot.
pub proof fn lemma_slot_out_of_reach(t: TermView, j: int, depth: int)
    requires
        t.in_range(),
        i32::MIN <= j,
        depth >= REACH,
    ensures
        !t.occurs(j, depth),
    decreases t,
{
    match t {
        TermView::Idx(_) => {},
        TermView::App(l, r) => {
            lemma_slot_out_of_reach(*l, j, depth);
            lemma_slot_out_of_reach(*r, j, depth);
        },
        TermView::Lmb(_, b) => {
            lemma_slot_out_of_reach(*b, j, depth + 1);
        },
    }
}

/// A shift by minus one at depth zero or deeper keeps a term within `i32`.
proof fn lemma_lowered_in_range(t: TermView, depth: int)
    requires
        t.in_range(),
        depth >= 0,
    ensures
        t.shifted(-1, depth).in_range(),
    decreases t,
{
    match t {
        TermView::Idx(_) => {},
        TermView::App(l, r) => {
            lemma_lowered_in_range(*l, depth);
            lemma_lowered_in_range(*r, depth);
        },
        TermView::Lmb(_, b) => {
            lemma_lowered_in_range(*b, depth + 1);
        },
    }
}

/// Shifts `t`, which stands below `depth` binders, in place.
fn shift_go(v: i64, depth: i64, t: &mut Term)
    requires
        -2 * REACH <= v <= 2 * REACH,
        0 <= depth <= REACH,
        old(t)@.shifted(v as int, depth as int).in_range(),
    ensures
        final(t)@ == old(t)@.shifted(v as int, depth as int),
    decreases *old(t),
{
    match t {
        Term::Idx(i) => {
            if *i as i64 >= depth {
                *i = (*i as i64 + v) as i32;
            }
        },
        Term::App(t1, t2) => {
            shift_go(v, depth, t1);
            shift_go(v, depth, t2);
        },
        Term::Lmb(_, t1) => {
            if depth < REACH {
                shift_go(v, depth + 1, t1);
            } else {
                proof {
                    t1.lemma_view_in_range();
                    lemma_shift_out_of_reach(t1@, v as int, depth + 1);
                }
            }
        },
    }
}

/// Shifts `t` in place: adds `v` to every index that points outside `t`.
pub fn shift_ref(v: i32, t: &mut Term)
    requires
        old(t)@.shifted(v as int, 0).in_range(),
    ensures
        final(t)@ == old(t)@.shifted(v as int, 0),
{
    shift_go(v as i64, 0, t);
}

/// Shifts `t`: adds `v` to every index that points outside `t`.
pub fn shift(v: i32, t: BTerm) -> (r: BTerm)
    requires
        t@.shifted(v as int, 0).in_range(),
    ensures
        r@ == t@.shifted(v as int, 0),
{
    let mut t = t;
    shift_ref(v, &mut *t);
    t
}

/// Substitutes `s` for slot `j` in `t`, which stands below `depth` binders, in place.
fn subst_go(j: i32, depth: i64, t: &mut Term, s: &Term)
    requires
        0 <= depth <= REACH,
        old(t)@.substituted(j as int, depth as int, s@).in_range(),
    ensures
        final(t)@ == old(t)@.substituted(j as int, depth as int, s@),
    decreases *old(t),
{
    match t {
        Term::Idx(i) => {
            if *i as i64 - depth == j as i64 {
                let mut r = s.clone();
                shift_go(depth, 0, &mut r);
                *t = r;
            }
        },
        Term::App(t1, t2) => {
            subst_go(j, depth, t1, s);
            subst_go(j, depth, t2, s);
        },
        Term::Lmb(_, t1) => {
            if depth < REACH {
                subst_go(j, depth + 1, t1, s);
            } else {
                proof {
                    t1.lemma_view_in_range();
                    lemma_slot_out_of_reach(t1@, j as int, depth + 1);
                    lemma_subst_absent(t1@, j as int, depth + 1, s@);
                }
            }
        },
    }
}

/// Substitutes `s` for slot `j` of `t`, in place.
pub fn subst_ref(j: i32, t: &mut Term, s: &BTerm)
    requires
        old(t)@.substituted(j as int, 0, s@).in_range(),
    ensures
        final(t)@ == old(t)@.substituted(j as int, 0, s@),
{
    subst_go(j, 0, t, s);
}

/// Substitutes `s` for slot `j` of `t`.
pub fn subst(j: i32, t: BTerm, s: &BTerm) -> (r: BTerm)
    requires
        t@.substituted(j as int, 0, s@).in_range(),
    ensures
        r@ == t@.substituted(j as int, 0, s@),
{
    let mut t = t;
    subst_ref(j, &mut *t, s);
    t
}

/// Tells whether `t` is an application of an abstraction.
pub fn is_redex(t: &Term) -> (r: bool)
    ensures
        r == t@.is_redex(),
{
    proof {
        reveal_with_fuel(Term::model, 2);
    }
    match t {
        Term::App(t1, _) => match &**t1 {
            Term::Lmb(_, _) => true,
            _ => false,
        },
        _ => false,
    }
}

/// Applies the beta rule at the root of `t`, in place: shifts the argument up by one,
/// puts it in place of the bound variable, and shifts the body down by one. Returns
/// whether `t` was a redex; any other term is left as it is.
pub fn beta_rule_ref(t: &mut Term) -> (r: bool)
    requires
        old(t)@.contraction_fits(),
    ensures
        r == old(t)@.is_redex(),
        final(t)@ == old(t)@.contracted(),
{
    if !is_redex(t) {
        return false;
    }
    proof {
        reveal_with_fuel(Term::model, 2);
    }
    match t {
        Term::App(t1, t2) => {
            match &mut **t1 {
                Term::Lmb(_, t3) => {
                    shift_ref(1, t2);
                    subst_ref(0, t3, t2);
                    proof {
                        lemma_lowered_in_range(t3@, 0);
                    }
                    shift_ref(-1, t3);
                    let mut body = Term::Idx(0);
                    core::mem::swap(&mut body, &mut **t3);
                    *t = body;
                },
                _ => {},
            }
        },
        _ => {},
    }
    true
}

/// Applies the beta rule at the root of `t`.
pub fn beta_rule(t: BTerm) -> (r: BTerm)
    requires
        t@.contraction_fits(),
    ensures
        r@ == t@.contracted(),
{
    let mut t = t;
    beta_rule_ref(&mut *t);
    t
}

} // verus!

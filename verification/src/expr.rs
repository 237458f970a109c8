//! Named lambda expressions, and their conversion to nameless terms and back.

use vstd::prelude::*;
use crate::ident::{fresh_name, ident_from_end, idx_from_end, idx_from_start, lemma_fresh_name,
    lemma_fresh_name_of_absent, lemma_position_from_end, lemma_position_from_start, make_fresh,
    name_from_end, position_from_end, position_from_start, Name};
use crate::term::{BTerm, Ident, Term, TermView};

verus! {

/// A lambda expression in which variables and binders have names.
#[derive(Debug, Eq)]
pub enum Expr {
    Var(Ident),
    Inv(Box<Expr>, Box<Expr>),
    Fun(Ident, Box<Expr>),
}

pub type BExpr = Box<Expr>;

/// The mathematical expression that an [`Expr`] stands for.
pub enum ExprView {
    Var(Name),
    Inv(Box<ExprView>, Box<ExprView>),
    Fun(Name, Box<ExprView>),
}

/// An index that no entry of the context answers to.
#[derive(Debug, PartialEq, Eq)]
pub struct Unresolved {
    /// The index.
    pub index: i32,
    /// The names in scope where the index stands, outermost first.
    pub context: Vec<Ident>,
}

impl Expr {
    /// Recursive definition of the view.
    pub open spec fn model(&self) -> ExprView
        decreases self,
    {
        match self {
            Expr::Var(n) => ExprView::Var(n@),
            Expr::Inv(l, r) => ExprView::Inv(Box::new(l.model()), Box::new(r.model())),
            Expr::Fun(n, b) => ExprView::Fun(n@, Box::new(b.model())),
        }
    }

    /// Structural comparison, names included.
    pub fn same(&self, other: &Expr) -> (r: bool)
        ensures
            r == (self@ == other@),
        decreases self,
    {
        match self {
            Expr::Var(n) => match other {
                Expr::Var(on) => *n == *on,
                _ => false,
            },
            Expr::Inv(l, r) => match other {
                Expr::Inv(ol, or) => l.same(ol) && r.same(or),
                _ => false,
            },
            Expr::Fun(n, b) => match other {
                Expr::Fun(on, ob) => *n == *on && b.same(ob),
                _ => false,
            },
        }
    }
}

impl View for Expr {
    type V = ExprView;

    open spec fn view(&self) -> ExprView {
        self.model()
    }
}

impl Clone for Expr {
    /// A deep copy.
    fn clone(&self) -> (res: Self)
        ensures
            res@ == self@,
        decreases self,
    {
        match self {
            Expr::Var(n) => Expr::Var(n.clone()),
            Expr::Inv(l, r) => Expr::Inv(Box::new((&**l).clone()), Box::new((&**r).clone())),
            Expr::Fun(n, b) => Expr::Fun(n.clone(), Box::new((&**b).clone())),
        }
    }
}

impl PartialEq for Expr {
    /// Two expressions are equal when they have the same structure and the same names.
    fn eq(&self, other: &Expr) -> (r: bool) {
        self.same(other)
    }
}

impl vstd::std_specs::cmp::PartialEqSpecImpl for Expr {
    open spec fn obeys_eq_spec() -> bool {
        true
    }

    open spec fn eq_spec(&self, other: &Expr) -> bool {
        self@ == other@
    }
}

/// The variable named `i`.
#[allow(non_snake_case)]
pub fn Var(i: &str) -> (r: BExpr)
    ensures
        r@ == ExprView::Var(i@),
{
    Box::new(Expr::Var(i.to_owned()))
}

/// The invocation of `t1` on `t2`.
#[allow(non_snake_case)]
pub fn Inv(t1: BExpr, t2: BExpr) -> (r: BExpr)
    ensures
        r@ == ExprView::Inv(Box::new(t1@), Box::new(t2@)),
{
    Box::new(Expr::Inv(t1, t2))
}

/// The function of the parameter `n` with the body `t`.
#[allow(non_snake_case)]
pub fn Fun(n: &str, t: BExpr) -> (r: BExpr)
    ensures
        r@ == ExprView::Fun(n@, Box::new(t@)),
{
    Box::new(Expr::Fun(n.to_owned(), t))
}

impl ExprView {
    /// Assigns indices, walking the expression depth first and from left to right.
    /// `bound` holds the names in scope, innermost last; `free` the names met so far
    /// that were not in scope, in the order in which they were first met. Gives the
    /// term and the list `free` has grown into.
    ///
    /// A name in scope gets the distance to its innermost binder. Any other name
    /// gets its place in `free`, where it is appended if it is new, counted from the
    /// start and raised by the number of binders in scope.
    pub open spec fn indexed(self, free: Seq<Name>, bound: Seq<Name>) -> (TermView, Seq<Name>)
        decreases self,
    {
        match self {
            ExprView::Var(v) => match position_from_end(bound, v) {
                Some(k) => (TermView::Idx(k as int), free),
                None => match position_from_start(free, v) {
                    Some(k) => (TermView::Idx((bound.len() + k) as int), free),
                    None => (TermView::Idx((bound.len() + free.len()) as int), free.push(v)),
                },
            },
            ExprView::Fun(v, body) => {
                let (b, f) = body.indexed(free, bound.push(v));
                (TermView::Lmb(v, Box::new(b)), f)
            },
            ExprView::Inv(l, r) => {
                let (lt, f1) = l.indexed(free, bound);
                let (rt, f2) = r.indexed(f1, bound);
                (TermView::App(Box::new(lt), Box::new(rt)), f2)
            },
        }
    }

    /// The term of a whole expression, with the free names in the order in which
    /// they are first met.
    pub open spec fn to_term(self) -> (TermView, Seq<Name>) {
        self.indexed(Seq::empty(), Seq::empty())
    }
}

impl TermView {
    /// Recovers names. `ctx` holds the names in scope, innermost last, above the
    /// free names. An index is answered by the entry at that distance from the end of
    /// `ctx`; an abstraction brings the fresh name that its label gives in `ctx`. The
    /// first index, from the left, without an entry is handed back with the context
    /// it stands in.
    pub open spec fn named(self, ctx: Seq<Name>) -> Result<ExprView, (int, Seq<Name>)>
        decreases self,
    {
        match self {
            TermView::Idx(i) => match name_from_end(ctx, i) {
                Some(name) => Ok(ExprView::Var(name)),
                None => Err((i, ctx)),
            },
            TermView::Lmb(label, body) => {
                let fresh = fresh_name(ctx, label);
                match body.named(ctx.push(fresh)) {
                    Ok(b) => Ok(ExprView::Fun(fresh, Box::new(b))),
                    Err(e) => Err(e),
                }
            },
            TermView::App(l, r) => match l.named(ctx) {
                Ok(le) => match r.named(ctx) {
                    Ok(re) => Ok(ExprView::Inv(Box::new(le), Box::new(re))),
                    Err(e) => Err(e),
                },
                Err(e) => Err(e),
            },
        }
    }

    /// The expression of a whole term whose free slots bear the names `free`, the
    /// first slot first.
    pub open spec fn to_expr(self, free: Seq<Name>) -> Result<ExprView, (int, Seq<Name>)> {
        self.named(free.reverse())
    }
}

impl ExprView {
    /// No binder of the expression reuses a name that is in scope where it stands:
    /// neither that of a binder around it, `bound` being those around the whole
    /// expression, nor one of `free`.
    pub open spec fn binds_apart(self, bound: Seq<Name>, free: Seq<Name>) -> bool
        decreases self,
    {
        match self {
            ExprView::Var(_) => true,
            ExprView::Inv(l, r) => l.binds_apart(bound, free) && r.binds_apart(bound, free),
            ExprView::Fun(v, body) => !bound.contains(v) && !free.contains(v) && body.binds_apart(
                bound.push(v),
                free,
            ),
        }
    }

    /// No name is shadowed: no binder has the name of a binder around it or of a free
    /// variable of the expression.
    pub open spec fn unshadowed(self) -> bool {
        self.binds_apart(Seq::empty(), self.to_term().1)
    }
}

/// Index assignment only ever appends to the free names.
pub proof fn lemma_indexed_extends(e: ExprView, free: Seq<Name>, bound: Seq<Name>)
    ensures
        free.is_prefix_of(e.indexed(free, bound).1),
    decreases e,
{
    match e {
        ExprView::Var(v) => {},
        ExprView::Fun(v, body) => {
            lemma_indexed_extends(*body, free, bound.push(v));
        },
        ExprView::Inv(l, r) => {
            lemma_indexed_extends(*l, free, bound);
            lemma_indexed_extends(*r, l.indexed(free, bound).1, bound);
        },
    }
}

/// The round trip inside an expression: with the binders `bound` around it and the
/// free names `all` of the whole, a part whose binders are apart from both gets its
/// own names back.
proof fn lemma_round_trip_within(e: ExprView, free: Seq<Name>, bound: Seq<Name>, all: Seq<Name>)
    requires
        e.binds_apart(bound, all),
        e.indexed(free, bound).1.is_prefix_of(all),
    ensures
        e.indexed(free, bound).0.named(all.reverse() + bound) == Ok::<ExprView, (int, Seq<Name>)>(
            e,
        ),
    decreases e,
{
    let ctx = all.reverse() + bound;
    let (t, grown) = e.indexed(free, bound);
    lemma_indexed_extends(e, free, bound);
    match e {
        ExprView::Var(v) => {
            lemma_position_from_end(bound, v);
            lemma_position_from_start(free, v);
            match position_from_end(bound, v) {
                Some(k) => {
                    assert(ctx[ctx.len() - 1 - k] == bound[bound.len() - 1 - k]);
                },
                None => {
                    let k = match position_from_start(free, v) {
                        Some(k) => k,
                        None => free.len(),
                    };
                    assert(grown[k as int] == v);
                    assert(all[k as int] == grown[k as int]);
                    assert(ctx[ctx.len() - 1 - (bound.len() + k)] == all[k as int]);
                },
            }
        },
        ExprView::Fun(v, body) => {
            assert(!ctx.contains(v)) by {
                if ctx.contains(v) {
                    let i = choose|i: int| 0 <= i < ctx.len() && ctx[i] == v;
                    if i < all.len() {
                        assert(all[all.len() - 1 - i] == v);
                    } else {
                        assert(bound[i - all.len()] == v);
                    }
                }
            }
            lemma_fresh_name_of_absent(ctx, v);
            assert(ctx.push(v) =~= all.reverse() + bound.push(v));
            lemma_round_trip_within(*body, free, bound.push(v), all);
        },
        ExprView::Inv(l, r) => {
            let (lt, f1) = l.indexed(free, bound);
            lemma_indexed_extends(*r, f1, bound);
            lemma_round_trip_within(*l, free, bound, all);
            lemma_round_trip_within(*r, f1, bound, all);
        },
    }
}

/// Converting an expression without shadowing to a term and back gives the
/// expression again.
pub proof fn lemma_round_trip(e: ExprView)
    requires
        e.unshadowed(),
    ensures
        e.to_term().0.to_expr(e.to_term().1) == Ok::<ExprView, (int, Seq<Name>)>(e),
{
    let all = e.to_term().1;
    lemma_round_trip_within(e, Seq::empty(), Seq::empty(), all);
    assert(all.reverse() + Seq::<Name>::empty() =~= all.reverse());
}

/// The round trip fails inside an expression as soon as one binder is not apart from
/// the names in scope around it.
proof fn lemma_round_trip_breaks(e: ExprView, free: Seq<Name>, bound: Seq<Name>, all: Seq<Name>)
    requires
        !e.binds_apart(bound, all),
    ensures
        e.indexed(free, bound).0.named(all.reverse() + bound) != Ok::<ExprView, (int, Seq<Name>)>(
            e,
        ),
    decreases e,
{
    let ctx = all.reverse() + bound;
    match e {
        ExprView::Var(_) => {},
        ExprView::Fun(v, body) => {
            if bound.contains(v) {
                let i = choose|i: int| 0 <= i < bound.len() && bound[i] == v;
                assert(ctx[all.len() + i] == v);
                lemma_fresh_name(ctx, v);
            } else if all.contains(v) {
                let i = choose|i: int| 0 <= i < all.len() && all[i] == v;
                assert(ctx[all.len() - 1 - i] == v);
                lemma_fresh_name(ctx, v);
            } else {
                assert(!ctx.contains(v)) by {
                    if ctx.contains(v) {
                        let i = choose|i: int| 0 <= i < ctx.len() && ctx[i] == v;
                        if i < all.len() {
                            assert(all[all.len() - 1 - i] == v);
                        } else {
                            assert(bound[i - all.len()] == v);
                        }
                    }
                }
                lemma_fresh_name_of_absent(ctx, v);
                assert(ctx.push(v) =~= all.reverse() + bound.push(v));
                lemma_round_trip_breaks(*body, free, bound.push(v), all);
            }
        },
        ExprView::Inv(l, r) => {
            if !l.binds_apart(bound, all) {
                lemma_round_trip_breaks(*l, free, bound, all);
            } else {
                lemma_round_trip_breaks(*r, l.indexed(free, bound).1, bound, all);
            }
        },
    }
}

/// Only an expression without shadowing comes back: where a binder has the name of a
/// binder around it or of a free variable, conversion back gives that binder another
/// name.
pub proof fn lemma_round_trip_only(e: ExprView)
    requires
        !e.unshadowed(),
    ensures
        e.to_term().0.to_expr(e.to_term().1) != Ok::<ExprView, (int, Seq<Name>)>(e),
{
    let all = e.to_term().1;
    lemma_round_trip_breaks(e, Seq::empty(), Seq::empty(), all);
    assert(all.reverse() + Seq::<Name>::empty() =~= all.reverse());
}

/// An expression whose binders are apart from the names of `free` has them apart from
/// any names that are all among those of `free`.
proof fn lemma_binds_apart_of_fewer(
    e: ExprView,
    bound: Seq<Name>,
    free: Seq<Name>,
    fewer: Seq<Name>,
)
    requires
        e.binds_apart(bound, free),
        forall|x: Name| fewer.contains(x) ==> free.contains(x),
    ensures
        e.binds_apart(bound, fewer),
    decreases e,
{
    match e {
        ExprView::Var(_) => {},
        ExprView::Inv(l, r) => {
            lemma_binds_apart_of_fewer(*l, bound, free, fewer);
            lemma_binds_apart_of_fewer(*r, bound, free, fewer);
        },
        ExprView::Fun(v, body) => {
            lemma_binds_apart_of_fewer(*body, bound.push(v), free, fewer);
        },
    }
}

/// Name recovery gives every binder a name apart from the names in scope around it.
proof fn lemma_named_binds_apart(t: TermView, all: Seq<Name>, bound: Seq<Name>)
    ensures
        t.named(all.reverse() + bound) matches Ok(e) ==> e.binds_apart(bound, all),
    decreases t,
{
    let ctx = all.reverse() + bound;
    match t {
        TermView::Idx(_) => {},
        TermView::App(l, r) => {
            lemma_named_binds_apart(*l, all, bound);
            lemma_named_binds_apart(*r, all, bound);
        },
        TermView::Lmb(label, body) => {
            let fresh = fresh_name(ctx, label);
            lemma_fresh_name(ctx, label);
            assert(ctx.push(fresh) =~= all.reverse() + bound.push(fresh));
            lemma_named_binds_apart(*body, all, bound.push(fresh));
            assert(!bound.contains(fresh)) by {
                if bound.contains(fresh) {
                    let i = choose|i: int| 0 <= i < bound.len() && bound[i] == fresh;
                    assert(ctx[all.len() + i] == fresh);
                }
            }
            assert(!all.contains(fresh)) by {
                if all.contains(fresh) {
                    let i = choose|i: int| 0 <= i < all.len() && all[i] == fresh;
                    assert(ctx[all.len() - 1 - i] == fresh);
                }
            }
        },
    }
}

/// The free names of an expression that name recovery gave are among the names that
/// it was given: index assignment adds no others to `free`.
proof fn lemma_named_free_names(t: TermView, all: Seq<Name>, bound: Seq<Name>, free: Seq<Name>)
    requires
        forall|x: Name| free.contains(x) ==> all.contains(x),
    ensures
        t.named(all.reverse() + bound) matches Ok(e) ==> forall|x: Name|
            e.indexed(free, bound).1.contains(x) ==> all.contains(x),
    decreases t,
{
    let ctx = all.reverse() + bound;
    match t {
        TermView::Idx(i) => {
            if 0 <= i < ctx.len() {
                let at = ctx.len() - 1 - i;
                let name = ctx[at];
                lemma_position_from_end(bound, name);
                if position_from_end(bound, name) is None {
                    if at >= all.len() {
                        assert(bound[at - all.len()] == name);
                    }
                    assert(all[all.len() - 1 - at] == name);
                    let grown = free.push(name);
                    assert forall|x: Name| grown.contains(x) implies all.contains(x) by {
                        let k = choose|k: int| 0 <= k < grown.len() && grown[k] == x;
                        if k < free.len() {
                            assert(free[k] == x);
                        }
                    }
                }
            }
        },
        TermView::App(l, r) => {
            lemma_named_free_names(*l, all, bound, free);
            match l.named(ctx) {
                Ok(le) => {
                    lemma_named_free_names(*r, all, bound, le.indexed(free, bound).1);
                },
                Err(_) => {},
            }
        },
        TermView::Lmb(label, body) => {
            let fresh = fresh_name(ctx, label);
            assert(ctx.push(fresh) =~= all.reverse() + bound.push(fresh));
            lemma_named_free_names(*body, all, bound.push(fresh), free);
        },
    }
}

/// Conversion back never shadows: in the expression it gives, no binder has the name
/// of a binder around it or of a free variable.
pub proof fn lemma_to_expr_unshadowed(t: TermView, free: Seq<Name>)
    ensures
        t.to_expr(free) matches Ok(e) ==> e.unshadowed(),
{
    assert(free.reverse() + Seq::<Name>::empty() =~= free.reverse());
    lemma_named_binds_apart(t, free, Seq::empty());
    lemma_named_free_names(t, free, Seq::empty(), Seq::empty());
    match t.to_expr(free) {
        Ok(e) => {
            lemma_binds_apart_of_fewer(e, Seq::empty(), free, e.to_term().1);
        },
        Err(_) => {},
    }
}

/// An expression that conversion back gave is the same after a conversion to a term
/// and back again.
pub proof fn lemma_to_expr_settles(t: TermView, free: Seq<Name>)
    ensures
        t.to_expr(free) matches Ok(e) ==> e.to_term().0.to_expr(e.to_term().1) == Ok::<
            ExprView,
            (int, Seq<Name>),
        >(e),
{
    lemma_to_expr_unshadowed(t, free);
    match t.to_expr(free) {
        Ok(e) => {
            lemma_round_trip(e);
        },
        Err(_) => {},
    }
}

/// The index of slot `slot` seen from below `depth` binders, if `i32` holds it.
fn index_at(depth: usize, slot: usize) -> (r: Option<i32>)
    ensures
        match r {
            Some(i) => i == depth + slot,
            None => depth + slot > i32::MAX,
        },
{
    if depth > 0x7fff_ffff || slot > 0x7fff_ffff - depth {
        None
    } else {
        Some((depth + slot) as i32)
    }
}

/// Index assignment on a part of an expression, with the names in scope in `bounded`
/// and the free names met so far in `free`. Gives `None` as soon as an index does not
/// fit in `i32`.
fn to_term_go(free: &mut Vec<Ident>, bounded: &mut Vec<Ident>, expr: &Expr) -> (r: Option<BTerm>)
    ensures
        match r {
            Some(t) => {
                &&& (t@, final(free).deep_view()) == expr@.indexed(
                    old(free).deep_view(),
                    old(bounded).deep_view(),
                )
                &&& final(bounded).deep_view() == old(bounded).deep_view()
            },
            None => !expr@.indexed(old(free).deep_view(), old(bounded).deep_view()).0.in_range(),
        },
    decreases expr,
{
    match expr {
        Expr::Fun(v, body) => {
            bounded.push(v.clone());
            assert(bounded.deep_view() =~= old(bounded).deep_view().push(v@));
            match to_term_go(free, bounded, body) {
                Some(bterm) => {
                    let ghost inner = bounded.deep_view();
                    let label = bounded.pop().unwrap();
                    assert(label@ == inner.last());
                    assert(bounded.deep_view() =~= inner.drop_last());
                    Some(Box::new(Term::Lmb(label, bterm)))
                },
                None => None,
            }
        },
        Expr::Var(v) => {
            let place = match idx_from_end(bounded, v) {
                Some(idx) => index_at(0, idx),
                None => match idx_from_start(free, v) {
                    Some(idx) => index_at(bounded.len(), idx),
                    None => {
                        let idx = free.len();
                        free.push(v.clone());
                        assert(free.deep_view() =~= old(free).deep_view().push(v@));
                        index_at(bounded.len(), idx)
                    },
                },
            };
            match place {
                Some(i) => Some(Box::new(Term::Idx(i))),
                None => None,
            }
        },
        Expr::Inv(left, right) => {
            match to_term_go(free, bounded, left) {
                Some(lt) => match to_term_go(free, bounded, right) {
                    Some(rt) => Some(Box::new(Term::App(lt, rt))),
                    None => None,
                },
                None => None,
            }
        },
    }
}

/// Converts `expr` to a nameless term, when every index fits in `i32`: gives the
/// term and the free names in the order in which they are first met, or `None` when
/// some index would not fit.
pub fn try_to_term(expr: &BExpr) -> (r: Option<(BTerm, Vec<Ident>)>)
    ensures
        match r {
            Some((term, free)) => (term@, free.deep_view()) == expr@.to_term(),
            None => !expr@.to_term().0.in_range(),
        },
{
    let mut free: Vec<Ident> = Vec::new();
    let mut bounded: Vec<Ident> = Vec::new();
    assert(free.deep_view() =~= Seq::<Name>::empty());
    assert(bounded.deep_view() =~= Seq::<Name>::empty());
    match to_term_go(&mut free, &mut bounded, expr) {
        Some(term) => Some((term, free)),
        None => None,
    }
}

/// Converts `expr` to a nameless term: gives the term and the free names in the
/// order in which they are first met. A bound variable becomes the distance to its
/// binder; a free one its place among the free names, raised by the number of
/// binders that enclose it.
pub fn to_term(expr: &BExpr) -> (r: (BTerm, Vec<Ident>))
    requires
        expr@.to_term().0.in_range(),
    ensures
        (r.0@, r.1.deep_view()) == expr@.to_term(),
{
    try_to_term(expr).unwrap()
}

/// Name recovery on a part of a term, with the names in scope in `ctx`, which is the
/// same afterwards.
fn to_expr_go(ctx: &mut Vec<Ident>, term: &Term) -> (r: Result<BExpr, Unresolved>)
    ensures
        final(ctx).deep_view() == old(ctx).deep_view(),
        match r {
            Ok(e) => term@.named(old(ctx).deep_view()) == Ok::<ExprView, (int, Seq<Name>)>(e@),
            Err(u) => term@.named(old(ctx).deep_view()) == Err::<ExprView, (int, Seq<Name>)>(
                (u.index as int, u.context.deep_view()),
            ),
        },
    decreases term,
{
    match term {
        Term::Lmb(ident, body) => {
            let fresh_ident = make_fresh(ctx, ident);
            ctx.push(fresh_ident);
            assert(ctx.deep_view() =~= old(ctx).deep_view().push(fresh_ident@));
            let ghost inner = ctx.deep_view();
            let body = to_expr_go(ctx, body);
            let name = ctx.pop().unwrap();
            assert(name@ == inner.last());
            assert(ctx.deep_view() =~= inner.drop_last());
            match body {
                Ok(b) => Ok(Box::new(Expr::Fun(name, b))),
                Err(u) => Err(u),
            }
        },
        Term::Idx(idx) => match ident_from_end(ctx, *idx) {
            Some(ident) => Ok(Box::new(Expr::Var(ident))),
            None => {
                let context = ctx.clone();
                assert(context.deep_view() =~= ctx.deep_view());
                Err(Unresolved { index: *idx, context })
            },
        },
        Term::App(left, right) => match to_expr_go(ctx, left) {
            Ok(l) => match to_expr_go(ctx, right) {
                Ok(r) => Ok(Box::new(Expr::Inv(l, r))),
                Err(u) => Err(u),
            },
            Err(u) => Err(u),
        },
    }
}

/// Converts `term` to a named expression. `free` names the free slots of `term`, the
/// first slot first. Each abstraction gets its label, or the fresh name derived from
/// it where the label is already in scope. The first index, from the left, that
/// neither a binder nor a free name answers to is an error, returned with the names
/// that were in scope around it.
pub fn try_to_expr(free: Vec<Ident>, term: &BTerm) -> (r: Result<BExpr, Unresolved>)
    ensures
        match r {
            Ok(e) => term@.to_expr(free.deep_view()) == Ok::<ExprView, (int, Seq<Name>)>(e@),
            Err(u) => term@.to_expr(free.deep_view()) == Err::<ExprView, (int, Seq<Name>)>(
                (u.index as int, u.context.deep_view()),
            ),
        },
{
    let ghost names = free.deep_view();
    let mut free = free;
    let mut ctx: Vec<Ident> = Vec::new();
    loop
        invariant
            free.deep_view() == names.subrange(0, free.len() as int),
            free.len() + ctx.len() == names.len(),
            forall|i: int|
                0 <= i < ctx.len() ==> #[trigger] ctx.deep_view()[i] == names[names.len() - 1 - i],
        ensures
            free.len() == 0,
        decreases free.len(),
    {
        let ghost rest = free.deep_view();
        let ghost turned = ctx.deep_view();
        match free.pop() {
            Some(name) => {
                ctx.push(name);
                proof {
                    assert(free.deep_view() =~= rest.drop_last());
                    assert(free.deep_view() =~= names.subrange(0, free.len() as int));
                    assert(name@ == rest.last());
                    assert(ctx.deep_view() =~= turned.push(name@));
                    assert forall|i: int| 0 <= i < ctx.len() implies #[trigger] ctx.deep_view()[i]
                        == names[names.len() - 1 - i] by {
                        if i < turned.len() {
                            assert(turned[i] == names[names.len() - 1 - i]);
                        }
                    }
                }
            },
            None => {
                break;
            },
        }
    }
    assert(ctx.deep_view() =~= names.reverse());
    to_expr_go(&mut ctx, term)
}

/// Converts `term` to a named expression. `free` names the free slots of `term`, the
/// first slot first. Each abstraction gets its label, or the fresh name derived from
/// it where the label is already in scope.
pub fn to_expr(free: Vec<Ident>, term: &BTerm) -> (r: BExpr)
    requires
        term@.to_expr(free.deep_view()) is Ok,
    ensures
        term@.to_expr(free.deep_view()) == Ok::<ExprView, (int, Seq<Name>)>(r@),
{
    try_to_expr(free, term).unwrap()
}

} // verus!

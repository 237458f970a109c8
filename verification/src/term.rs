//! Nameless lambda terms: binders are counted, not named.

use vstd::prelude::*;

verus! {

/// Name of a variable or of a binder.
pub type Ident = String;

/// A lambda term with de Bruijn indices.
///
/// `Idx(n)` refers to the binder found by crossing `n` enclosing abstractions; when
/// fewer than `n + 1` abstractions enclose it, it addresses a free slot. The name
/// carried by `Lmb` is a hint for printing and has no meaning of its own.
#[derive(Debug, Eq)]
pub enum Term {
    Idx(i32),
    App(Box<Term>, Box<Term>),
    Lmb(Ident, Box<Term>),
}

pub type BTerm = Box<Term>;

/// The mathematical term that a [`Term`] stands for: unbounded indices, labels as
/// sequences of characters.
pub enum TermView {
    Idx(int),
    App(Box<TermView>, Box<TermView>),
    Lmb(Seq<char>, Box<TermView>),
}

/// A term with its labels taken away: what equality, shifting, substitution and
/// reduction depend on.
pub enum Shape {
    Idx(int),
    App(Box<Shape>, Box<Shape>),
    Lmb(Box<Shape>),
}

impl TermView {
    /// The term without its labels.
    pub open spec fn shape(self) -> Shape
        decreases self,
    {
        match self {
            TermView::Idx(i) => Shape::Idx(i),
            TermView::App(l, r) => Shape::App(Box::new(l.shape()), Box::new(r.shape())),
            TermView::Lmb(_, b) => Shape::Lmb(Box::new(b.shape())),
        }
    }

    /// Every index is a value of `i32`.
    pub open spec fn in_range(self) -> bool
        decreases self,
    {
        match self {
            TermView::Idx(i) => i32::MIN <= i <= i32::MAX,
            TermView::App(l, r) => l.in_range() && r.in_range(),
            TermView::Lmb(_, b) => b.in_range(),
        }
    }
}

impl Term {
    /// Recursive definition of the view.
    pub open spec fn model(&self) -> TermView
        decreases self,
    {
        match self {
            Term::Idx(i) => TermView::Idx(*i as int),
            Term::App(l, r) => TermView::App(Box::new(l.model()), Box::new(r.model())),
            Term::Lmb(n, b) => TermView::Lmb(n@, Box::new(b.model())),
        }
    }

    /// The view of a stored term has every index in the range of `i32`.
    pub proof fn lemma_view_in_range(&self)
        ensures
            self@.in_range(),
        decreases self,
    {
        match self {
            Term::Idx(_) => {},
            Term::App(l, r) => {
                l.lemma_view_in_range();
                r.lemma_view_in_range();
            },
            Term::Lmb(_, b) => {
                b.lemma_view_in_range();
            },
        }
    }

    /// Structural comparison that skips the labels.
    pub fn same_shape(&self, other: &Term) -> (r: bool)
        ensures
            r == (self@.shape() == other@.shape()),
        decreases self,
    {
        match self {
            Term::Idx(i) => match other {
                Term::Idx(j) => *i == *j,
                _ => false,
            },
            Term::App(l, r) => match other {
                Term::App(ol, or) => l.same_shape(ol) && r.same_shape(or),
                _ => false,
            },
            Term::Lmb(_, b) => match other {
                Term::Lmb(_, ob) => b.same_shape(ob),
                _ => false,
            },
        }
    }
}

impl View for Term {
    type V = TermView;

    open spec fn view(&self) -> TermView {
        self.model()
    }
}

impl Clone for Term {
    /// A deep copy, labels included.
    fn clone(&self) -> (res: Self)
        ensures
            res@ == self@,
        decreases self,
    {
        match self {
            Term::Idx(i) => Term::Idx(*i),
            Term::App(l, r) => Term::App(Box::new((&**l).clone()), Box::new((&**r).clone())),
            Term::Lmb(n, b) => Term::Lmb(n.clone(), Box::new((&**b).clone())),
        }
    }
}

impl PartialEq for Term {
    /// Two terms are equal when they have the same shape: labels do not count.
    fn eq(&self, other: &Term) -> (r: bool) {
        self.same_shape(other)
    }
}

impl vstd::std_specs::cmp::PartialEqSpecImpl for Term {
    open spec fn obeys_eq_spec() -> bool {
        true
    }

    open spec fn eq_spec(&self, other: &Term) -> bool {
        self@.shape() == other@.shape()
    }
}

/// The variable with index `i`.
#[allow(non_snake_case)]
pub fn Idx(i: i32) -> (r: BTerm)
    ensures
        r@ == TermView::Idx(i as int),
{
    Box::new(Term::Idx(i))
}

/// The application of `t1` to `t2`.
#[allow(non_snake_case)]
pub fn App(t1: BTerm, t2: BTerm) -> (r: BTerm)
    ensures
        r@ == TermView::App(Box::new(t1@), Box::new(t2@)),
{
    Box::new(Term::App(t1, t2))
}

/// The abstraction of `t`, labelled `n`.
#[allow(non_snake_case)]
pub fn Lmb(n: &str, t: BTerm) -> (r: BTerm)
    ensures
        r@ == TermView::Lmb(n@, Box::new(t@)),
{
    Box::new(Term::Lmb(n.to_owned(), t))
}

} // verus!

use lambda_calc::calculus::{beta_rule, beta_rule_ref, is_redex, shift, shift_ref, subst, subst_ref};
use lambda_calc::term::{App, Idx, Lmb, Term};

#[test]
fn shift_by_zero_changes_nothing() {
    let t = Lmb("x", App(App(Idx(2), Idx(0)), Lmb("y", Idx(7))));
    assert_eq!(shift(0, t.clone()), t);
}

#[test]
fn shifts_add_up() {
    let t = Lmb("x", App(App(Idx(2), Idx(0)), Lmb("y", Idx(7))));
    let twice = shift(2, shift(3, t.clone()));
    assert_eq!(twice, shift(5, t.clone()));
    assert_eq!(twice, Lmb("x", App(App(Idx(7), Idx(0)), Lmb("y", Idx(12)))));
    assert_eq!(shift(-3, shift(3, t.clone())), t);
}

#[test]
fn a_shift_below_the_binders_is_not_taken_back() {
    assert_eq!(shift(-1, Idx(0)), Idx(-1));
    assert_eq!(shift(1, shift(-1, Idx(0))), Idx(-1));
    assert_eq!(shift(0, Idx(0)), Idx(0));
}

#[test]
fn shift_leaves_bound_indices_and_labels() {
    let mut t = Term::Lmb("keep".to_string(), Idx(0));
    shift_ref(9, &mut t);
    match t {
        Term::Lmb(label, body) => {
            assert_eq!(label, "keep");
            assert_eq!(body, Idx(0));
        }
        _ => panic!("an abstraction stays an abstraction"),
    }
}

#[test]
fn substitution_for_an_absent_slot_changes_nothing() {
    let t = Lmb("x", App(App(Idx(2), Idx(0)), Idx(1)));
    assert_eq!(subst(5, t.clone(), &Idx(40)), t);
    assert_eq!(subst(2, t.clone(), &Lmb("y", Idx(0))), t);
}

#[test]
fn substitution_pushes_the_replacement_past_binders() {
    let t = Lmb("x", Lmb("y", App(Idx(2), Idx(3))));
    let s = App(Idx(0), Lmb("z", Idx(1)));
    assert_eq!(
        subst(0, t, &s),
        Lmb("x", Lmb("y", App(App(Idx(2), Lmb("z", Idx(3))), Idx(3))))
    );
    let mut u = Term::Idx(4);
    subst_ref(4, &mut u, &Idx(9));
    assert_eq!(u, Term::Idx(9));
}

#[test]
fn beta_rule_leaves_other_terms() {
    assert_eq!(beta_rule(Idx(3)), Idx(3));
    assert_eq!(beta_rule(Lmb("x", App(Lmb("y", Idx(0)), Idx(0)))), Lmb("x", App(Lmb("y", Idx(0)), Idx(0))));
    assert_eq!(beta_rule(App(Idx(0), Lmb("x", Idx(0)))), App(Idx(0), Lmb("x", Idx(0))));
    let mut t = Term::App(Idx(1), Idx(2));
    assert!(!beta_rule_ref(&mut t));
    assert_eq!(t, Term::App(Idx(1), Idx(2)));
}

#[test]
fn beta_rule_contracts_a_redex() {
    let mut t = Term::App(Lmb("x", App(Idx(0), Idx(1))), Lmb("y", Idx(1)));
    assert!(is_redex(&t));
    assert!(beta_rule_ref(&mut t));
    assert_eq!(t, Term::App(Lmb("y", Idx(1)), Idx(0)));
    assert!(is_redex(&t));
    assert!(!is_redex(&Term::Idx(0)));
}

#[test]
fn equality_passes_over_labels() {
    assert_eq!(Lmb("x", Idx(0)), Lmb("y", Idx(0)));
    assert_ne!(Lmb("x", Idx(0)), Lmb("x", Idx(1)));
    assert_ne!(Lmb("x", Idx(0)), Idx(0));
    assert_ne!(App(Idx(0), Idx(1)), App(Idx(1), Idx(0)));
}

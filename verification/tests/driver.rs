use lambda_calc::reduce::{advance, contraction_fits, normal_form, normal_form_ref, probe, step,
    step_appl, step_norm, Outcome, Strategy, Verdict};
use lambda_calc::term::{App, BTerm, Idx, Lmb};

fn identity() -> BTerm {
    Lmb("x", Idx(0))
}

fn omega() -> BTerm {
    let half = Lmb("x", App(Idx(0), Idx(0)));
    App(half.clone(), half)
}

#[test]
fn normal_order_passes_by_a_diverging_operand() {
    let k = Lmb("x", Lmb("y", Idx(1)));
    let t = App(App(k, identity()), omega());
    assert_eq!(
        normal_form(Strategy::NormalOrder, 12, t.clone()),
        Outcome::Converged(identity())
    );
    match normal_form(Strategy::ValueFirst, 12, t) {
        Outcome::StepLimitReached(_) => {}
        other => panic!("the operand diverges, got {:?}", other),
    }
}

#[test]
fn the_ceiling_is_told_apart_from_convergence() {
    assert_eq!(
        normal_form(Strategy::NormalOrder, 3, omega()),
        Outcome::StepLimitReached(omega())
    );
    let t = App(identity(), Idx(5));
    assert_eq!(
        normal_form(Strategy::NormalOrder, 0, t.clone()),
        Outcome::StepLimitReached(t.clone())
    );
    assert_eq!(normal_form(Strategy::NormalOrder, 1, t), Outcome::Converged(Idx(5)));
    assert_eq!(normal_form(Strategy::ValueFirst, 0, Idx(5)), Outcome::Converged(Idx(5)));
}

#[test]
fn a_contraction_out_of_range_stops_the_run() {
    let t = App(Lmb("x", Lmb("y", Idx(1))), Idx(i32::MAX));
    assert!(!contraction_fits(&t));
    assert_eq!(probe(Strategy::NormalOrder, &t), Some(false));
    let out = normal_form(Strategy::NormalOrder, 12, t.clone());
    assert_eq!(out, Outcome::IndexOverflow(t.clone()));
    assert_eq!(out.verdict(), Verdict::IndexOverflow);
    assert_eq!(*out.term(), *t);
    assert_eq!(out.into_term(), t);
    let fine = App(Lmb("x", Lmb("y", Idx(1))), Idx(i32::MAX - 2));
    assert!(contraction_fits(&fine));
    assert_eq!(
        normal_form(Strategy::NormalOrder, 12, fine),
        Outcome::Converged(Lmb("y", Idx(i32::MAX - 1)))
    );
}

#[test]
fn value_first_reduces_the_operand_before_the_redex() {
    let mut t = App(identity(), App(Lmb("y", Idx(0)), Idx(5)));
    assert!(step_appl(&mut t));
    assert_eq!(t, App(identity(), Idx(5)));
    assert!(step_appl(&mut t));
    assert_eq!(t, Idx(5));
    assert!(!step_appl(&mut t));
    assert_eq!(t, Idx(5));
}

#[test]
fn normal_order_contracts_the_outer_redex_first() {
    let mut t = App(identity(), App(Lmb("y", Idx(0)), Idx(5)));
    assert!(step_norm(&mut t));
    assert_eq!(t, App(Lmb("y", Idx(0)), Idx(5)));
    assert!(step(Strategy::NormalOrder, &mut t));
    assert_eq!(t, Idx(5));
    assert!(!step(Strategy::NormalOrder, &mut t));
}

#[test]
fn steps_reach_under_binders_and_into_operands() {
    let mut t = Lmb("z", App(Idx(0), App(identity(), Idx(1))));
    assert_eq!(probe(Strategy::NormalOrder, &t), Some(true));
    assert!(step_norm(&mut t));
    assert_eq!(t, Lmb("z", App(Idx(0), Idx(1))));
    assert_eq!(probe(Strategy::NormalOrder, &t), None);
    assert_eq!(probe(Strategy::ValueFirst, &t), None);
    assert!(!step_norm(&mut t));
}

#[test]
fn the_run_can_be_watched_turn_by_turn() {
    let mut t = App(App(Lmb("x", Lmb("y", Idx(1))), Idx(7)), Idx(8));
    let mut left: usize = 5;
    let mut seen = vec![t.clone()];
    let verdict = loop {
        match advance(Strategy::NormalOrder, &mut left, &mut t) {
            Some(verdict) => break verdict,
            None => seen.push(t.clone()),
        }
    };
    assert_eq!(verdict, Verdict::Converged);
    assert_eq!(left, 3);
    assert_eq!(seen, vec![
        App(App(Lmb("x", Lmb("y", Idx(1))), Idx(7)), Idx(8)),
        App(Lmb("y", Idx(8)), Idx(8)),
        Idx(7),
    ]);
    let mut again = *omega();
    assert_eq!(normal_form_ref(Strategy::ValueFirst, 4, &mut again), Verdict::StepLimitReached);
    assert_eq!(again, *omega());
}

#[test]
fn a_higher_ceiling_changes_nothing_once_converged() {
    let t = App(App(Lmb("x", Lmb("y", Idx(1))), Idx(7)), Idx(8));
    assert_eq!(normal_form(Strategy::NormalOrder, 1, t.clone()), Outcome::StepLimitReached(App(Lmb("y", Idx(8)), Idx(8))));
    assert_eq!(normal_form(Strategy::NormalOrder, 2, t.clone()), Outcome::Converged(Idx(7)));
    assert_eq!(normal_form(Strategy::NormalOrder, 3, t.clone()), Outcome::Converged(Idx(7)));
    assert_eq!(normal_form(Strategy::NormalOrder, usize::MAX, t), Outcome::Converged(Idx(7)));
}

#[test]
fn labels_do_not_steer_a_run() {
    let plain = App(Lmb("x", App(Idx(0), Lmb("y", Idx(1)))), Lmb("z", Idx(0)));
    let other = App(Lmb("p", App(Idx(0), Lmb("p", Idx(1)))), Lmb("p", Idx(0)));
    for strategy in [Strategy::NormalOrder, Strategy::ValueFirst] {
        for limit in 0..4 {
            let a = normal_form(strategy, limit, plain.clone());
            let b = normal_form(strategy, limit, other.clone());
            assert_eq!(a.verdict(), b.verdict());
            assert_eq!(a.term(), b.term());
        }
    }
    assert_eq!(
        normal_form(Strategy::NormalOrder, 4, plain),
        Outcome::Converged(Lmb("y", Lmb("z", Idx(0))))
    );
}

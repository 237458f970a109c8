use lambda_calc::calculus::{beta_rule, shift, subst};
use lambda_calc::reduce::{normal_form, step_appl, step_norm, Outcome, Strategy};
use lambda_calc::term::{App, Idx, Lmb};

#[test]
fn test_shift() {
    let test = Lmb("x", Lmb("y", Lmb("z", App(App(Idx(2), Idx(3)), Idx(1)))));
    assert_eq!(shift(4, test), Lmb("x", Lmb("y", Lmb("z", App(App(Idx(2), Idx(7)), Idx(1))))))
}

#[test]
fn test_subst() {
    let test = Lmb("x", App(App(Idx(2), Idx(0)), Idx(1)));
    assert_eq!(subst(0, test.clone(), &Idx(0)), Lmb("x", App(App(Idx(2), Idx(0)), Idx(1))));
    assert_eq!(subst(0, test.clone(), &Idx(1)), Lmb("x", App(App(Idx(2), Idx(0)), Idx(2))));
    assert_eq!(subst(0, test.clone(), &Idx(2)), Lmb("x", App(App(Idx(2), Idx(0)), Idx(3))));
}

#[test]
fn test_beta_rule() {
    assert_eq!(beta_rule(App(Lmb("x", Lmb("y", Idx(0))), Idx(41))), Lmb("y", Idx(0)));
    assert_eq!(beta_rule(App(Lmb("x", Lmb("y", Idx(1))), Idx(41))), Lmb("y", Idx(42)));
    assert_eq!(beta_rule(App(Lmb("x", Idx(0)), Idx(42))), Idx(42));
}

#[test]
fn test_step_norm() {
    let i = Lmb("x", Idx(0));
    let omega = Lmb("x", App(Idx(0), Idx(0)));
    let big_omega = App(omega.clone(), omega);
    let mut test = App(i, big_omega.clone());
    assert_eq!(true, step_norm(&mut test));
    assert_eq!(big_omega, test);
}

#[test]
fn test_step_appl() {
    let i = Lmb("x", Idx(0));
    let omega = Lmb("x", App(Idx(0), Idx(0)));
    let big_omega = App(omega.clone(), omega);
    let mut test = App(i, big_omega.clone());
    let test_before = test.clone();
    assert_eq!(true, step_appl(&mut test));
    assert_eq!(test_before, test);
}

#[allow(non_snake_case)]
#[test]
fn test_normal_form() {
    let I = Lmb("x", Idx(0));
    let K = Lmb("x", Lmb("y", Idx(1)));
    let omega = Lmb("x", App(Idx(0), Idx(0)));
    let Omega = App(omega.clone(), omega.clone());
    let t = App(App(K.clone(), I.clone()), Omega.clone());
    assert_eq!(
        Outcome::Converged(Lmb("x", Idx(0))),
        normal_form(Strategy::NormalOrder, 12, t)
    );
}

use lambda_calc::expr::{to_expr, to_term, Fun, Inv, Var};
use lambda_calc::term::{App, Idx, Lmb};

#[test]
fn test_to_term() {
    let expr1 = Fun("s", Fun("z", Inv(Var("s"), Var("z"))));
    let term1 = Lmb("s", Lmb("z", App(Idx(1), Idx(0))));
    assert_eq!((term1, vec![]), to_term(&expr1));
    let expr2 = Fun("x", Inv(Var("w"), Inv(Inv(Var("x"), Var("y")), Var("w"))));
    let term2 = Lmb("x", App(Idx(1), App(App(Idx(0), Idx(2)), Idx(1))));
    assert_eq!((term2, vec!["w".to_string(), "y".to_string()]), to_term(&expr2));
}

#[test]
fn test_to_expr() {
    let expr1 = Fun("s", Fun("z", Inv(Var("s"), Var("z"))));
    let term1 = Lmb("s", Lmb("z", App(Idx(1), Idx(0))));
    assert_eq!(expr1, to_expr(vec![], &term1));
    let expr2 = Fun("x", Inv(Var("w"), Inv(Inv(Var("x"), Var("y")), Var("w"))));
    let term2 = Lmb("x", App(Idx(1), App(App(Idx(0), Idx(2)), Idx(1))));
    assert_eq!(expr2, to_expr(vec!["w".to_string(), "y".to_string()], &term2))
}

#[test]
fn test_freshnes() {
    let t = Lmb("z", Lmb("z", Lmb("z", App(Idx(0), App(Idx(1), Idx(2))))));
    let e = Fun("z", Fun("z_1", Fun("z_2", Inv(Var("z_2"), Inv(Var("z_1"), Var("z"))))));
    assert_eq!(e, to_expr(vec![], &t));
}

use lambda_calc::expr::{to_expr, to_term, try_to_expr, try_to_term, Expr, Fun, Inv, Unresolved, Var};
use lambda_calc::ident::{holds, ident_from_end, idx_from_end, idx_from_start, make_fresh, next_ident};
use lambda_calc::term::{App, Idx, Lmb, Term};

fn names(list: &[&str]) -> Vec<String> {
    list.iter().map(|s| s.to_string()).collect()
}

#[test]
fn names_are_found_from_either_end() {
    let ctx = names(&["a", "b", "a", "c"]);
    assert_eq!(idx_from_start(&ctx, &"a".to_string()), Some(0));
    assert_eq!(idx_from_end(&ctx, &"a".to_string()), Some(1));
    assert_eq!(idx_from_start(&ctx, &"c".to_string()), Some(3));
    assert_eq!(idx_from_end(&ctx, &"c".to_string()), Some(0));
    assert_eq!(idx_from_start(&ctx, &"d".to_string()), None);
    assert_eq!(idx_from_end(&ctx, &"d".to_string()), None);
    assert_eq!(ident_from_end(&ctx, 0), Some("c".to_string()));
    assert_eq!(ident_from_end(&ctx, 3), Some("a".to_string()));
    assert_eq!(ident_from_end(&ctx, 4), None);
    assert_eq!(ident_from_end(&ctx, -1), None);
    assert!(holds(&ctx, &"b".to_string()));
    assert!(!holds(&ctx, &"ab".to_string()));
}

#[test]
fn the_next_name_counts_up() {
    assert_eq!(next_ident(&"z".to_string()), "z_1");
    assert_eq!(next_ident(&"z_1".to_string()), "z_2");
    assert_eq!(next_ident(&"z_9".to_string()), "z_10");
    assert_eq!(next_ident(&"z_99".to_string()), "z_100");
    assert_eq!(next_ident(&"z_007".to_string()), "z_8");
    assert_eq!(next_ident(&"z_0".to_string()), "z_1");
    assert_eq!(next_ident(&"z_000".to_string()), "z_1");
    assert_eq!(next_ident(&"a_b".to_string()), "a_b_1");
    assert_eq!(next_ident(&"a_b_3".to_string()), "a_b_4");
    assert_eq!(next_ident(&"z_".to_string()), "z__1");
    assert_eq!(next_ident(&"z_-3".to_string()), "z_-3_1");
    assert_eq!(next_ident(&"_5".to_string()), "_6");
    assert_eq!(next_ident(&"5".to_string()), "5_1");
    assert_eq!(next_ident(&"".to_string()), "_1");
    assert_eq!(next_ident(&"z_2147483647".to_string()), "z_2147483648");
    assert_eq!(
        next_ident(&"z_99999999999999999999999".to_string()),
        "z_100000000000000000000000"
    );
}

#[test]
fn a_fresh_name_is_one_the_context_lacks() {
    assert_eq!(make_fresh(&names(&[]), &"z".to_string()), "z");
    assert_eq!(make_fresh(&names(&["y"]), &"z".to_string()), "z");
    assert_eq!(make_fresh(&names(&["z"]), &"z".to_string()), "z_1");
    assert_eq!(make_fresh(&names(&["z_1", "z"]), &"z".to_string()), "z_2");
    assert_eq!(make_fresh(&names(&["z", "z_2"]), &"z".to_string()), "z_1");
    assert_eq!(make_fresh(&names(&["z_3", "z_4", "z_4"]), &"z_3".to_string()), "z_5");
    assert_eq!(make_fresh(&names(&["a_b", "a_b_1"]), &"a_b".to_string()), "a_b_2");
    assert_eq!(make_fresh(&names(&["z_09"]), &"z_09".to_string()), "z_10");
}

#[test]
fn an_index_without_a_name_is_an_error() {
    assert_eq!(
        try_to_expr(names(&[]), &Idx(0)),
        Err(Unresolved { index: 0, context: names(&[]) })
    );
    assert_eq!(
        try_to_expr(names(&["a"]), &Lmb("x", Idx(3))),
        Err(Unresolved { index: 3, context: names(&["a", "x"]) })
    );
    assert_eq!(
        try_to_expr(names(&["a", "b"]), &App(Idx(1), App(Idx(-1), Idx(9)))),
        Err(Unresolved { index: -1, context: names(&["b", "a"]) })
    );
    assert_eq!(try_to_expr(names(&["a", "b"]), &Lmb("x", Idx(2))), Ok(Fun("x", Var("b"))));
    assert_eq!(try_to_expr(names(&["a", "b"]), &Lmb("x", Idx(1))), Ok(Fun("x", Var("a"))));
}

#[test]
fn binders_are_renamed_only_where_they_collide() {
    let t = Lmb("a", App(Idx(0), Lmb("a", App(Idx(1), Idx(2)))));
    assert_eq!(
        to_expr(names(&["a"]), &t),
        Fun("a_1", Inv(Var("a_1"), Fun("a_2", Inv(Var("a_1"), Var("a")))))
    );
    let u = App(Lmb("x", Idx(0)), Lmb("x", Idx(0)));
    assert_eq!(to_expr(names(&[]), &u), Inv(Fun("x", Var("x")), Fun("x", Var("x"))));
}

#[test]
fn conversion_there_and_back_gives_the_expression() {
    let e = Fun("x", Inv(Var("w"), Inv(Inv(Var("x"), Fun("y", Inv(Var("y"), Var("v")))), Var("w"))));
    let (term, free) = to_term(&e);
    assert_eq!(free, names(&["w", "v"]));
    assert_eq!(term, Lmb("x", App(Idx(1), App(App(Idx(0), Lmb("y", App(Idx(0), Idx(3)))), Idx(1)))));
    assert_eq!(to_expr(free, &term), e);
    let siblings = Inv(Fun("x", Var("x")), Fun("x", Var("x")));
    let (term, free) = to_term(&siblings);
    assert_eq!(to_expr(free, &term), siblings);
}

#[test]
fn shadowing_does_not_come_back() {
    let e = Fun("x", Fun("x", Var("x")));
    let (term, free) = to_term(&e);
    assert_eq!(term, Lmb("x", Lmb("x", Idx(0))));
    assert_eq!(to_expr(free, &term), Fun("x", Fun("x_1", Var("x_1"))));
    let f = Inv(Var("x"), Fun("x", Var("x")));
    let (term, free) = to_term(&f);
    assert_eq!(free, names(&["x"]));
    assert_eq!(to_expr(free, &term), Inv(Var("x"), Fun("x_1", Var("x_1"))));
}

#[test]
fn labels_come_from_the_parameters() {
    let (term, free) = try_to_term(&Fun("first", Fun("second", Var("first")))).unwrap();
    assert!(free.is_empty());
    match *term {
        Term::Lmb(ref outer, ref body) => {
            assert_eq!(outer, "first");
            match **body {
                Term::Lmb(ref inner, ref leaf) => {
                    assert_eq!(inner, "second");
                    assert_eq!(*leaf, Idx(1));
                }
                _ => panic!("the body is an abstraction"),
            }
        }
        _ => panic!("the term is an abstraction"),
    }
}

#[test]
fn expressions_compare_by_structure_and_names() {
    assert_eq!(Fun("x", Var("x")), Fun("x", Var("x")));
    assert_ne!(Fun("x", Var("x")), Fun("y", Var("y")));
    assert_ne!(Var("x"), Fun("x", Var("x")));
    let e = Inv(Var("f"), Var("a"));
    assert_eq!(e.clone(), e);
    assert_eq!(*e, Expr::Inv(Var("f"), Var("a")));
}

#[test]
fn what_conversion_gave_comes_back_unchanged() {
    let t = Lmb("a", App(Idx(0), Lmb("a", App(Idx(1), App(Idx(2), Lmb("b", Idx(4)))))));
    let e = to_expr(names(&["a", "b"]), &t);
    assert_eq!(
        e,
        Fun("a_1", Inv(Var("a_1"), Fun("a_2", Inv(Var("a_1"), Inv(Var("a"), Fun("b_1", Var("b")))))))
    );
    let (term, free) = to_term(&e);
    assert_eq!(free, names(&["a", "b"]));
    assert_eq!(term, t);
    assert_eq!(to_expr(free, &term), e);
}

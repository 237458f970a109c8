use lambda_calc::eval::evaluate;
use lambda_calc::expr::{try_to_expr, try_to_term, Fun, Inv, Var};
use lambda_calc::pars::parse;
use lambda_calc::reduce::{normal_form, Outcome, Strategy, Verdict};
use lambda_calc::term::{App, Idx, Lmb};

/// Reads `text`, reduces it with `strategy` in at most `limit` steps and writes the
/// normal form; `None` where the run does not converge.
fn reduce_text(strategy: Strategy, limit: usize, text: &str) -> Option<String> {
    let expr = parse(text).expect("the text is an expression");
    let (term, free) = try_to_term(&expr).expect("the indices fit");
    match normal_form(strategy, limit, term) {
        Outcome::Converged(normal) => {
            let named = try_to_expr(free, &normal).expect("every index has a name");
            Some(named.to_string())
        }
        _ => None,
    }
}

fn normal(text: &str) -> String {
    reduce_text(Strategy::NormalOrder, 1000, text).expect("the expression has a normal form")
}

#[test]
fn free_names_survive_reduction() {
    assert_eq!(normal("x"), "x");
    assert_eq!(normal("(f a)"), "(f a)");
    assert_eq!(normal("(([x] x) a)"), "a");
    assert_eq!(normal("(([x y] x) a b)"), "a");
    assert_eq!(normal("(([x y] y) a b)"), "b");
    assert_eq!(normal("(([x] (x x)) a)"), "(a a)");
    assert_eq!(normal("(c (([x] x) a) (([x] x) b))"), "((c a) b)");
}

#[test]
fn an_argument_is_not_captured() {
    assert_eq!(normal("(([x y] (x y)) y)"), "(\\y_1.(y y_1))");
    assert_eq!(normal("(([x y] (y x)) (y z))"), "(\\y_1.(y_1 (y z)))");
    assert_eq!(normal("([y] (([x y] x) y))"), "(\\y.(\\y_1.y))");
}

#[test]
fn numerals_add_and_multiply() {
    let two = "([s z] (s (s z)))";
    let three = "([s z] (s (s (s z))))";
    let plus = "([m n s z] (m s (n s z)))";
    let times = "([m n s] (m (n s)))";
    assert_eq!(
        normal(&format!("({} {} {})", plus, two, three)),
        "(\\s.(\\z.(s (s (s (s (s z)))))))"
    );
    assert_eq!(
        normal(&format!("({} {} {} f x)", times, two, three)),
        "(f (f (f (f (f (f x))))))"
    );
}

#[test]
fn the_strategies_agree_where_both_converge() {
    let text = "(([f x] (f (f x))) ([y] (g y)) (([z] z) a))";
    assert_eq!(
        reduce_text(Strategy::NormalOrder, 100, text),
        Some("(g (g a))".to_string())
    );
    assert_eq!(
        reduce_text(Strategy::ValueFirst, 100, text),
        Some("(g (g a))".to_string())
    );
}

#[test]
fn only_normal_order_discards_a_diverging_argument() {
    let text = "(([x y] y) (([x] (x x)) ([x] (x x))) a)";
    assert_eq!(reduce_text(Strategy::NormalOrder, 100, text), Some("a".to_string()));
    assert_eq!(reduce_text(Strategy::ValueFirst, 100, text), None);
}

#[test]
fn a_run_without_end_is_cut_off() {
    let text = "(([x] (x x)) ([x] (x x)))";
    assert_eq!(reduce_text(Strategy::NormalOrder, 50, text), None);
    let growing = "(([x] (x x x)) ([x] (x x x)))";
    assert_eq!(reduce_text(Strategy::NormalOrder, 8, growing), None);
}

#[test]
fn whatever_a_run_ends_on_has_names() {
    let texts = [
        "(([x] (x x)) ([x] (x x)))",
        "(([x] (x x x)) ([x] (x x x)))",
        "(([x y] (x y)) y)",
        "(([f] (f (f a))) ([u v] (v u b)))",
        "([p] (p (([x] (x q)) p)))",
    ];
    for text in texts {
        let expr = parse(text).unwrap();
        for strategy in [Strategy::NormalOrder, Strategy::ValueFirst] {
            for limit in 0..6 {
                let (term, free) = try_to_term(&expr).unwrap();
                let reached = normal_form(strategy, limit, term).into_term();
                assert!(try_to_expr(free, &reached).is_ok(), "{:?} after {} steps", text, limit);
            }
        }
    }
}

#[test]
fn an_evaluation_shows_its_stages() {
    let expr = parse("(([x y] (x y)) y)").unwrap();
    let done = evaluate(Strategy::NormalOrder, 10, &expr).unwrap();
    assert_eq!(done.term, App(Lmb("x", Lmb("y", App(Idx(1), Idx(0)))), Idx(0)));
    assert_eq!(done.free, vec!["y".to_string()]);
    assert_eq!(done.verdict, Verdict::Converged);
    assert_eq!(done.reduced, Lmb("y", App(Idx(1), Idx(0))));
    assert_eq!(done.expr, Fun("y_1", Inv(Var("y"), Var("y_1"))));
}

#[test]
fn an_evaluation_cut_off_still_has_an_expression() {
    let expr = parse("(([x] (x x x)) ([x] (x x x)))").unwrap();
    let done = evaluate(Strategy::NormalOrder, 1, &expr).unwrap();
    assert_eq!(done.verdict, Verdict::StepLimitReached);
    assert_eq!(
        done.expr.to_string(),
        "(((\\x.((x x) x)) (\\x.((x x) x))) (\\x.((x x) x)))"
    );
    let still = evaluate(Strategy::ValueFirst, 0, &expr).unwrap();
    assert_eq!(still.verdict, Verdict::StepLimitReached);
    assert_eq!(still.reduced, still.term);
    assert_eq!(still.expr, Inv(
        Fun("x", Inv(Inv(Var("x"), Var("x")), Var("x"))),
        Fun("x", Inv(Inv(Var("x"), Var("x")), Var("x")))
    ));
}

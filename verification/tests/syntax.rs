use lambda_calc::expr::{Fun, Inv, Var};
use lambda_calc::pars::{expression, function, invocation, parse, parse_expression, variable,
    variable_name, ParseError};

#[test]
fn test_parser() {
    assert_eq!(Ok(("", Var("foo"))), variable("foo"));
    assert_eq!(Ok(("", Fun("x", Var("x")))), function("([x] x)"));
    assert_eq!(
        Some(Fun("x", Inv(Var("x"), Var("x")))),
        parse_expression("([x] (x x))")
    )
}

#[test]
fn test_display() {
    assert_eq!(Var("foo").to_string(), "foo");
    assert_eq!(Fun("x", Var("x")).to_string(), "(\\x.x)");
    assert_eq!(Fun("x", Inv(Var("x"), Var("x"))).to_string(), "(\\x.(x x))");
}

#[test]
fn names_are_runs_of_letters() {
    assert_eq!(Ok(("1c", "aB")), variable_name("aB1c"));
    assert_eq!(Err(ParseError { position: 0 }), variable_name("1c"));
    assert_eq!(Err(ParseError { position: 0 }), variable_name(""));
    assert_eq!(Ok((" bar", Var("foo"))), variable("foo bar"));
}

#[test]
fn several_parameters_nest() {
    assert_eq!(
        Some(Fun("x", Fun("y", Fun("z", Var("b"))))),
        parse_expression("([x y z] b)")
    );
    assert_eq!(Some(Fun("x", Var("x"))), parse_expression("([x]x)"));
    assert_eq!(Some(Fun("x", Var("x"))), parse_expression("([x]\t\n x)"));
}

#[test]
fn several_arguments_associate_to_the_left() {
    assert_eq!(
        Some(Inv(Inv(Var("f"), Var("a")), Var("b"))),
        parse_expression("(f a b)")
    );
    assert_eq!(Some(Inv(Var("f"), Var("a"))), parse_expression("(  f \r\n a)"));
    assert_eq!(
        Ok(("", Inv(Fun("x", Var("x")), Inv(Var("g"), Var("y"))))),
        invocation("(([x] x) (g y))")
    );
}

#[test]
fn texts_outside_the_grammar_are_refused() {
    assert_eq!(None, parse_expression(""));
    assert_eq!(None, parse_expression("(f)"));
    assert_eq!(None, parse_expression("(f a )"));
    assert_eq!(None, parse_expression("([] x)"));
    assert_eq!(None, parse_expression("([x ] x)"));
    assert_eq!(None, parse_expression("([ x] x)"));
    assert_eq!(None, parse_expression("x y"));
    assert_eq!(None, parse_expression("(\u{3bb} a)"));
    assert_eq!(None, parse_expression("x1"));
}

#[test]
fn errors_name_the_place() {
    assert_eq!(Err(ParseError { position: 1 }), parse("x y"));
    assert_eq!(Err(ParseError { position: 0 }), parse("1"));
    assert_eq!(Err(ParseError { position: 2 }), parse("(f)"));
    assert_eq!(Err(ParseError { position: 4 }), parse("(f a )"));
    assert_eq!(Err(ParseError { position: 5 }), parse("([x] )"));
    assert_eq!(Err(ParseError { position: 1 }), parse("x\u{e9}"));
    assert_eq!(Err(ParseError { position: 1 }), parse("(\u{e9} x"));
    assert_eq!(Ok((")", Var("x"))), expression("x)"));
}

#[test]
fn text_of_expressions() {
    let e = Inv(Fun("s", Fun("z", Inv(Var("s"), Var("z")))), Var("w"));
    assert_eq!(e.to_string(), "((\\s.(\\z.(s z))) w)");
}

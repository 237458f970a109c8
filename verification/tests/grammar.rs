//! The grammar once more, written down with parser combinators. The library's
//! parser has to accept the same texts and read the same expressions from them.

use lambda_calc::expr::{BExpr, Fun, Inv, Var};
use lambda_calc::pars::{expression, function, invocation, parse_expression, variable};
use nom::branch::alt;
use nom::character::complete::{alpha1, char, multispace0, multispace1};
use nom::combinator::{all_consuming, flat_map};
use nom::multi::{fold_many1, separated_list1};
use nom::sequence::{delimited, preceded, tuple};
use nom::{IResult, Parser};

fn combined_name(input: &str) -> IResult<&str, &str> {
    alpha1.parse(input)
}

fn combined_variable(input: &str) -> IResult<&str, BExpr> {
    combined_name.map(|name| Var(name)).parse(input)
}

fn combined_invocation(input: &str) -> IResult<&str, BExpr> {
    let body = flat_map(preceded(multispace0, combined_expression), |operator| {
        fold_many1(
            preceded(multispace1, combined_expression),
            move || operator.clone(),
            |operator, argument| Inv(operator, argument),
        )
    });
    delimited(char('('), body, char(')')).parse(input)
}

fn combined_function(input: &str) -> IResult<&str, BExpr> {
    let parameters = delimited(char('['), separated_list1(multispace1, combined_name), char(']'));
    delimited(
        char('('),
        tuple((parameters, preceded(multispace0, combined_expression))),
        char(')'),
    )
    .map(|(names, body)| names.iter().rfold(body, |body, name| Fun(name, body)))
    .parse(input)
}

fn combined_expression(input: &str) -> IResult<&str, BExpr> {
    alt((combined_function, combined_variable, combined_invocation)).parse(input)
}

fn combined_whole(input: &str) -> Option<BExpr> {
    all_consuming(combined_expression).parse(input).ok().map(|(_, e)| e)
}

/// Holds every entry point of the parser against the combinators on one text.
fn agree_on(text: &str) {
    assert_eq!(combined_whole(text), parse_expression(text), "whole text {:?}", text);
    assert_eq!(combined_expression(text).ok(), expression(text).ok(), "expression {:?}", text);
    assert_eq!(combined_function(text).ok(), function(text).ok(), "function {:?}", text);
    assert_eq!(combined_invocation(text).ok(), invocation(text).ok(), "invocation {:?}", text);
    assert_eq!(combined_variable(text).ok(), variable(text).ok(), "variable {:?}", text);
}

/// Every text of `length` characters taken from `alphabet`.
fn texts(alphabet: &[char], length: usize) -> Vec<String> {
    let mut all = vec![String::new()];
    for _ in 0..length {
        let mut longer = Vec::with_capacity(all.len() * alphabet.len());
        for text in &all {
            for c in alphabet {
                let mut next = text.clone();
                next.push(*c);
                longer.push(next);
            }
        }
        all = longer;
    }
    all
}

const SAMPLES: [&str; 12] = [
    "foo",
    "([x] x)",
    "([x] (x x))",
    "([x y] (y x))",
    "(f a b c)",
    "(([x] x) z)",
    "([s z] (s (s z)))",
    "(  f\t(g \n a)\r\n([q]q))",
    "(([x] (x x)) ([x] (x x)))",
    "([f] (([x] (f (x x))) ([x] (f (x x)))))",
    "((([a b c] (a c (b c))) ([u v] u)) ([u v] u))",
    "([x]([y]([z] (x  y   z))))",
];

#[test]
fn the_parser_reads_what_the_combinators_read() {
    for text in SAMPLES {
        assert!(combined_whole(text).is_some(), "{:?}", text);
        agree_on(text);
    }
}

#[test]
fn the_parser_agrees_on_every_short_text() {
    let alphabet = ['(', ')', '[', ']', 'a', ' ', '1'];
    for length in 0..=5 {
        for text in texts(&alphabet, length) {
            agree_on(&text);
        }
    }
}

#[test]
fn the_parser_agrees_on_short_texts_of_brackets_and_letters() {
    let alphabet = ['(', ')', '[', ']', 'x', ' '];
    for text in texts(&alphabet, 6) {
        assert_eq!(combined_whole(&text), parse_expression(&text), "{:?}", text);
    }
    for text in texts(&['(', ')', 'x', ' '], 8) {
        assert_eq!(combined_whole(&text), parse_expression(&text), "{:?}", text);
    }
}

#[test]
fn the_parser_agrees_on_texts_with_one_slip() {
    let alphabet = ['(', ')', '[', ']', 'a', 'Z', ' ', '\n', '\t', '\r', '0', '_', '\u{e9}', '\u{3bb}'];
    for sample in SAMPLES {
        let chars: Vec<char> = sample.chars().collect();
        for at in 0..=chars.len() {
            if at < chars.len() {
                let mut dropped = chars.clone();
                dropped.remove(at);
                agree_on(&dropped.iter().collect::<String>());
            }
            for c in alphabet {
                let mut added = chars.clone();
                added.insert(at, c);
                agree_on(&added.iter().collect::<String>());
                if at < chars.len() {
                    let mut put = chars.clone();
                    put[at] = c;
                    agree_on(&put.iter().collect::<String>());
                }
            }
        }
    }
}

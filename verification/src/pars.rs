//! The surface syntax of expressions.
//!
//! ```text
//! expression = function | variable | invocation
//! variable   = letter+
//! function   = "(" "[" name (space+ name)* "]" space* expression ")"
//! invocation = "(" space* expression (space+ expression)+ ")"
//! ```
//!
//! A letter is one of `a`-`z` and `A`-`Z`; a space is a blank, a tab, a carriage
//! return or a line feed. Names and runs of spaces are taken as long as they go. A
//! function of several parameters is a function of the first whose body is a
//! function of the others; an invocation with several arguments applies the
//! operator to the first, the result to the second, and so on.

use vstd::prelude::*;
use vstd::string::StrSliceExecFns;
use crate::expr::{BExpr, Expr, ExprView};
use crate::ident::Name;
use crate::term::Ident;

verus! {

/// What a parser makes of a text from a position on: the value and the position
/// behind it, or the position at which the text stopped matching.
pub type Parsed<T> = Result<(T, int), int>;

/// Where in a text the grammar stopped matching, counted in characters.
#[derive(Clone, Copy, Debug, PartialEq, Eq)]
pub struct ParseError {
    pub position: usize,
}

/// `c` is a letter of the grammar.
pub open spec fn is_alpha(c: char) -> bool {
    ('a' <= c && c <= 'z') || ('A' <= c && c <= 'Z')
}

/// `c` is a space of the grammar.
pub open spec fn is_space(c: char) -> bool {
    c == ' ' || c == '\t' || c == '\r' || c == '\n'
}

/// The end of the run of letters that starts at `pos`.
pub open spec fn word_end(s: Seq<char>, pos: int) -> int
    decreases s.len() - pos,
{
    if pos < s.len() && is_alpha(s[pos]) {
        word_end(s, pos + 1)
    } else {
        pos
    }
}

/// The end of the run of spaces that starts at `pos`.
pub open spec fn space_end(s: Seq<char>, pos: int) -> int
    decreases s.len() - pos,
{
    if pos < s.len() && is_space(s[pos]) {
        space_end(s, pos + 1)
    } else {
        pos
    }
}

/// A run of letters lies between its start and the end of the text.
pub proof fn lemma_word_end(s: Seq<char>, pos: int)
    ensures
        pos <= word_end(s, pos),
        pos <= s.len() ==> word_end(s, pos) <= s.len(),
        forall|i: int| pos <= i < word_end(s, pos) ==> is_alpha(s[i]),
        word_end(s, pos) < s.len() ==> !is_alpha(s[word_end(s, pos)]),
    decreases s.len() - pos,
{
    if pos < s.len() && is_alpha(s[pos]) {
        lemma_word_end(s, pos + 1);
    }
}

/// A run of spaces lies between its start and the end of the text.
pub proof fn lemma_space_end(s: Seq<char>, pos: int)
    ensures
        pos <= space_end(s, pos),
        pos <= s.len() ==> space_end(s, pos) <= s.len(),
        forall|i: int| pos <= i < space_end(s, pos) ==> is_space(s[i]),
        space_end(s, pos) < s.len() ==> !is_space(s[space_end(s, pos)]),
    decreases s.len() - pos,
{
    if pos < s.len() && is_space(s[pos]) {
        lemma_space_end(s, pos + 1);
    }
}

/// A name: one or more letters.
pub open spec fn variable_name_at(s: Seq<char>, pos: int) -> Parsed<Name> {
    let end = word_end(s, pos);
    if pos < end <= s.len() {
        Ok((s.subrange(pos, end), end))
    } else {
        Err(pos)
    }
}

/// A variable: a name.
pub open spec fn variable_at(s: Seq<char>, pos: int) -> Parsed<ExprView> {
    match variable_name_at(s, pos) {
        Ok((name, end)) => Ok((ExprView::Var(name), end)),
        Err(at) => Err(at),
    }
}

/// The parameters behind the first, each after one or more spaces, added to `acc`,
/// and the position behind the last of them.
pub open spec fn more_parameters(s: Seq<char>, pos: int, acc: Seq<Name>) -> (Seq<Name>, int)
    decreases s.len() - pos,
{
    let q = space_end(s, pos);
    if pos < q {
        match variable_name_at(s, q) {
            Ok((name, end)) => more_parameters(s, end, acc.push(name)),
            Err(_) => (acc, pos),
        }
    } else {
        (acc, pos)
    }
}

/// The parameters end at or behind the position they start at, within the text.
pub proof fn lemma_more_parameters(s: Seq<char>, pos: int, acc: Seq<Name>)
    requires
        0 <= pos <= s.len(),
    ensures
        pos <= more_parameters(s, pos, acc).1 <= s.len(),
        acc.len() <= more_parameters(s, pos, acc).0.len(),
    decreases s.len() - pos,
{
    let q = space_end(s, pos);
    lemma_space_end(s, pos);
    if pos < q {
        lemma_word_end(s, q);
        match variable_name_at(s, q) {
            Ok((name, end)) => {
                lemma_more_parameters(s, end, acc.push(name));
            },
            Err(_) => {},
        }
    }
}

/// The function of the parameters `params`, one inside the other, around `body`.
pub open spec fn abstraction(params: Seq<Name>, body: ExprView) -> ExprView
    decreases params.len(),
{
    if params.len() == 0 {
        body
    } else {
        abstraction(params.drop_last(), ExprView::Fun(params.last(), Box::new(body)))
    }
}

/// The larger of two positions.
pub open spec fn later(a: int, b: int) -> int {
    if a >= b {
        a
    } else {
        b
    }
}

/// A function, from `pos` on.
pub open spec fn function_at(s: Seq<char>, pos: int) -> Parsed<ExprView>
    decreases s.len() - pos, 0nat,
{
    if !(0 <= pos < s.len() && s[pos] == '(') {
        Err(pos)
    } else if !(pos + 1 < s.len() && s[pos + 1] == '[') {
        Err(pos + 1)
    } else {
        match variable_name_at(s, pos + 2) {
            Err(at) => Err(at),
            Ok((first, named)) => {
                let (params, listed) = more_parameters(s, named, seq![first]);
                if !(listed < s.len() && s[listed] == ']') {
                    Err(listed)
                } else {
                    let inner = space_end(s, listed + 1);
                    proof {
                        lemma_more_parameters(s, named, seq![first]);
                        lemma_space_end(s, listed + 1);
                    }
                    match expression_at(s, inner) {
                        Err(at) => Err(at),
                        Ok((body, done)) => if done < s.len() && s[done] == ')' {
                            Ok((abstraction(params, body), done + 1))
                        } else {
                            Err(done)
                        },
                    }
                }
            },
        }
    }
}

/// The arguments of an invocation, each after one or more spaces: the invocation of
/// `acc` on them, the position behind the last, and their number added to `count`.
pub open spec fn arguments(s: Seq<char>, pos: int, acc: ExprView, count: nat) -> (
    ExprView,
    int,
    nat,
)
    decreases s.len() - pos, 0nat,
{
    let q = space_end(s, pos);
    if pos < q <= s.len() {
        match expression_at(s, q) {
            Ok((arg, end)) if q < end <= s.len() => arguments(
                s,
                end,
                ExprView::Inv(Box::new(acc), Box::new(arg)),
                count + 1,
            ),
            _ => (acc, pos, count),
        }
    } else {
        (acc, pos, count)
    }
}

/// An invocation, from `pos` on.
pub open spec fn invocation_at(s: Seq<char>, pos: int) -> Parsed<ExprView>
    decreases s.len() - pos, 0nat,
{
    if !(0 <= pos < s.len() && s[pos] == '(') {
        Err(pos)
    } else {
        let inner = space_end(s, pos + 1);
        proof {
            lemma_space_end(s, pos + 1);
        }
        match expression_at(s, inner) {
            Ok((operator, headed)) if inner < headed <= s.len() => {
                let (whole, done, count) = arguments(s, headed, operator, 0);
                if count == 0 {
                    Err(headed)
                } else if done < s.len() && s[done] == ')' {
                    Ok((whole, done + 1))
                } else {
                    Err(done)
                }
            },
            Ok((_, headed)) => Err(headed),
            Err(at) => Err(at),
        }
    }
}

/// An expression, from `pos` on: a function, else a variable, else an invocation.
/// Where none of them matches, the error is the position that the one that went
/// furthest stopped at.
pub open spec fn expression_at(s: Seq<char>, pos: int) -> Parsed<ExprView>
    decreases s.len() - pos, 1nat,
{
    match function_at(s, pos) {
        Ok(found) => Ok(found),
        Err(e1) => match variable_at(s, pos) {
            Ok(found) => Ok(found),
            Err(e2) => match invocation_at(s, pos) {
                Ok(found) => Ok(found),
                Err(e3) => Err(later(later(e1, e2), e3)),
            },
        },
    }
}

/// A whole text: an expression with nothing behind it. A text with something behind
/// the expression fails where that begins.
pub open spec fn parsed(s: Seq<char>) -> Result<ExprView, int> {
    match expression_at(s, 0) {
        Ok((e, end)) => if end == s.len() {
            Ok(e)
        } else {
            Err(end)
        },
        Err(at) => Err(at),
    }
}

/// Whatever the grammar reads is at least one character long and lies within the
/// text: a function, an invocation or an expression that is read from `pos` on ends
/// behind `pos` and not behind the end of the text.
pub proof fn lemma_expression_advances(s: Seq<char>, pos: int)
    requires
        0 <= pos,
    ensures
        function_at(s, pos) matches Ok((_, end)) ==> pos < end <= s.len(),
        invocation_at(s, pos) matches Ok((_, end)) ==> pos < end <= s.len(),
        expression_at(s, pos) matches Ok((_, end)) ==> pos < end <= s.len(),
    decreases s.len() - pos,
{
    if pos < s.len() && s[pos] == '(' {
        if pos + 1 < s.len() && s[pos + 1] == '[' {
            lemma_word_end(s, pos + 2);
            match variable_name_at(s, pos + 2) {
                Ok((first, named)) => {
                    let (params, listed) = more_parameters(s, named, seq![first]);
                    lemma_more_parameters(s, named, seq![first]);
                    if listed < s.len() && s[listed] == ']' {
                        lemma_space_end(s, listed + 1);
                        lemma_expression_advances(s, space_end(s, listed + 1));
                    }
                },
                Err(_) => {},
            }
        }
        let inner = space_end(s, pos + 1);
        lemma_space_end(s, pos + 1);
        lemma_expression_advances(s, inner);
        match expression_at(s, inner) {
            Ok((operator, headed)) => {
                if inner < headed <= s.len() {
                    lemma_arguments_within(s, headed, operator, 0);
                }
            },
            Err(_) => {},
        }
    }
    lemma_word_end(s, pos);
}

/// The arguments of an invocation end at or behind the position they start at, within
/// the text.
pub proof fn lemma_arguments_within(s: Seq<char>, pos: int, acc: ExprView, count: nat)
    requires
        0 <= pos <= s.len(),
    ensures
        pos <= arguments(s, pos, acc, count).1 <= s.len(),
    decreases s.len() - pos,
{
    let q = space_end(s, pos);
    lemma_space_end(s, pos);
    if pos < q <= s.len() {
        match expression_at(s, q) {
            Ok((arg, end)) => {
                if q < end <= s.len() {
                    lemma_arguments_within(
                        s,
                        end,
                        ExprView::Inv(Box::new(acc), Box::new(arg)),
                        count + 1,
                    );
                }
            },
            Err(_) => {},
        }
    }
}

/// A text, as a string and as its characters.
struct Source<'a> {
    text: &'a str,
    chars: Vec<char>,
    ascii: bool,
}

impl<'a> Source<'a> {
/// The characters are those of the text.
    spec fn wf(&self) -> bool {
        &&& self.chars@ == self.text@
        &&& self.ascii == vstd::string::is_ascii(self.text)
    }

/// Takes the characters of `text` apart once, for reading by position.
    fn new(text: &'a str) -> (r: Self)
        ensures
            r.wf(),
            r.text == text,
    {
        let mut chars: Vec<char> = Vec::new();
        for c in it: text.chars()
            invariant
                chars@ == it.seq().take(it.index()),
        {
            chars.push(c);
        }
        assert(chars@ == text@);
        let ascii = text.is_ascii();
        Source { text, chars, ascii }
    }

    /// The part of the text from `from` up to `to`.
    fn slice(&self, from: usize, to: usize) -> (r: &'a str)
        requires
            self.wf(),
            from <= to <= self.chars.len(),
        ensures
            r@ == self.chars@.subrange(from as int, to as int),
    {
        if self.ascii {
            self.text.substring_ascii(from, to)
        } else {
            self.text.substring_char(from, to)
        }
    }
}

/// Tells whether `c` is a letter of the grammar.
fn alpha(c: char) -> (r: bool)
    ensures
        r == is_alpha(c),
{
    ('a' <= c && c <= 'z') || ('A' <= c && c <= 'Z')
}

/// Tells whether `c` is a space of the grammar.
fn space(c: char) -> (r: bool)
    ensures
        r == is_space(c),
{
    c == ' ' || c == '\t' || c == '\r' || c == '\n'
}

/// The end of the run of letters that starts at `pos`.
fn word_end_from(chars: &Vec<char>, pos: usize) -> (r: usize)
    requires
        pos <= chars.len(),
    ensures
        r == word_end(chars@, pos as int),
        pos <= r <= chars.len(),
{
    let mut p: usize = pos;
    while p < chars.len() && alpha(chars[p])
        invariant
            pos <= p <= chars.len(),
            word_end(chars@, p as int) == word_end(chars@, pos as int),
        decreases chars.len() - p,
    {
        p = p + 1;
    }
    p
}

/// The end of the run of spaces that starts at `pos`.
fn space_end_from(chars: &Vec<char>, pos: usize) -> (r: usize)
    requires
        pos <= chars.len(),
    ensures
        r == space_end(chars@, pos as int),
        pos <= r <= chars.len(),
{
    let mut p: usize = pos;
    while p < chars.len() && space(chars[p])
        invariant
            pos <= p <= chars.len(),
            space_end(chars@, p as int) == space_end(chars@, pos as int),
        decreases chars.len() - p,
    {
        p = p + 1;
    }
    p
}

/// Reads a name at `pos`.
fn variable_name_from<'a>(src: &Source<'a>, pos: usize) -> (r: Result<(&'a str, usize), usize>)
    requires
        src.wf(),
        pos <= src.chars.len(),
    ensures
        match r {
            Ok((name, end)) => variable_name_at(src.chars@, pos as int) == Ok::<(Name, int), int>(
                (name@, end as int),
            ) && pos < end <= src.chars.len(),
            Err(at) => variable_name_at(src.chars@, pos as int) == Err::<(Name, int), int>(
                at as int,
            ) && at <= src.chars.len(),
        },
{
    let end = word_end_from(&src.chars, pos);
    if pos < end {
        Ok((src.slice(pos, end), end))
    } else {
        Err(pos)
    }
}

/// Reads the parameters behind the first into `acc`; gives the position behind them.
fn more_parameters_from<'a>(src: &Source<'a>, pos: usize, acc: &mut Vec<Ident>) -> (r: usize)
    requires
        src.wf(),
        pos <= src.chars.len(),
    ensures
        (final(acc).deep_view(), r as int) == more_parameters(
            src.chars@,
            pos as int,
            old(acc).deep_view(),
        ),
        pos <= r <= src.chars.len(),
{
    let mut p: usize = pos;
    loop
        invariant
            src.wf(),
            pos <= p <= src.chars.len(),
            more_parameters(src.chars@, p as int, acc.deep_view()) == more_parameters(
                src.chars@,
                pos as int,
                old(acc).deep_view(),
            ),
        ensures
            (acc.deep_view(), p as int) == more_parameters(
                src.chars@,
                pos as int,
                old(acc).deep_view(),
            ),
        decreases src.chars.len() - p,
    {
        let q = space_end_from(&src.chars, p);
        if p < q {
            match variable_name_from(src, q) {
                Ok((name, end)) => {
                    let ghost before = acc.deep_view();
                    acc.push(name.to_owned());
                    assert(acc.deep_view() =~= before.push(name@));
                    p = end;
                },
                Err(_) => {
                    break;
                },
            }
        } else {
            break;
        }
    }
    p
}

/// The function of the parameters `params`, one inside the other, around `body`.
fn abstraction_of(params: Vec<Ident>, body: BExpr) -> (r: BExpr)
    ensures
        r@ == abstraction(params.deep_view(), body@),
{
    let ghost whole = abstraction(params.deep_view(), body@);
    let mut params = params;
    let mut body = body;
    loop
        invariant
            abstraction(params.deep_view(), body@) == whole,
        ensures
            body@ == whole,
        decreases params.len(),
    {
        let ghost names = params.deep_view();
        match params.pop() {
            Some(name) => {
                assert(params.deep_view() =~= names.drop_last());
                assert(name@ == names.last());
                body = Box::new(Expr::Fun(name, body));
            },
            None => {
                assert(names.len() == 0);
                break;
            },
        }
    }
    body
}

/// Reads a function at `pos`.
fn function_from<'a>(src: &Source<'a>, pos: usize) -> (r: Result<(BExpr, usize), usize>)
    requires
        src.wf(),
        pos <= src.chars.len(),
    ensures
        match r {
            Ok((e, end)) => function_at(src.chars@, pos as int) == Ok::<(ExprView, int), int>(
                (e@, end as int),
            ) && pos < end <= src.chars.len(),
            Err(at) => function_at(src.chars@, pos as int) == Err::<(ExprView, int), int>(
                at as int,
            ) && at <= src.chars.len(),
        },
    decreases src.chars.len() - pos, 0nat,
{
    let n = src.chars.len();
    if !(pos < n && src.chars[pos] == '(') {
        return Err(pos);
    }
    if !(pos + 1 < n && src.chars[pos + 1] == '[') {
        return Err(pos + 1);
    }
    match variable_name_from(src, pos + 2) {
        Err(at) => Err(at),
        Ok((first, named)) => {
            let mut params: Vec<Ident> = Vec::new();
            params.push(first.to_owned());
            assert(params.deep_view() =~= seq![first@]);
            let listed = more_parameters_from(src, named, &mut params);
            if !(listed < n && src.chars[listed] == ']') {
                return Err(listed);
            }
            let inner = space_end_from(&src.chars, listed + 1);
            match expression_from(src, inner) {
                Err(at) => Err(at),
                Ok((body, done)) => {
                    if done < n && src.chars[done] == ')' {
                        Ok((abstraction_of(params, body), done + 1))
                    } else {
                        Err(done)
                    }
                },
            }
        },
    }
}

/// Reads an invocation at `pos`.
fn invocation_from<'a>(src: &Source<'a>, pos: usize) -> (r: Result<(BExpr, usize), usize>)
    requires
        src.wf(),
        pos <= src.chars.len(),
    ensures
        match r {
            Ok((e, end)) => invocation_at(src.chars@, pos as int) == Ok::<(ExprView, int), int>(
                (e@, end as int),
            ) && pos < end <= src.chars.len(),
            Err(at) => invocation_at(src.chars@, pos as int) == Err::<(ExprView, int), int>(
                at as int,
            ) && at <= src.chars.len(),
        },
    decreases src.chars.len() - pos, 0nat,
{
    let n = src.chars.len();
    if !(pos < n && src.chars[pos] == '(') {
        return Err(pos);
    }
    let inner = space_end_from(&src.chars, pos + 1);
    match expression_from(src, inner) {
        Err(at) => Err(at),
        Ok((operator, headed)) => {
            let ghost first = operator@;
            let ghost mut count: nat = 0;
            let mut some: bool = false;
            let mut whole = operator;
            let mut p: usize = headed;
            loop
                invariant
                    src.wf(),
                    n == src.chars.len(),
                    pos < headed <= p <= n,
                    some == (count > 0),
                    arguments(src.chars@, p as int, whole@, count) == arguments(
                        src.chars@,
                        headed as int,
                        first,
                        0,
                    ),
                ensures
                    some == (count > 0),
                    headed <= p <= n,
                    (whole@, p as int, count) == arguments(src.chars@, headed as int, first, 0),
                decreases n - p,
            {
                let q = space_end_from(&src.chars, p);
                if p < q {
                    match expression_from(src, q) {
                        Ok((arg, end)) => {
                            whole = Box::new(Expr::Inv(whole, arg));
                            p = end;
                            some = true;
                            proof {
                                count = count + 1;
                            }
                        },
                        Err(_) => {
                            break;
                        },
                    }
                } else {
                    break;
                }
            }
            if !some {
                Err(headed)
            } else if p < n && src.chars[p] == ')' {
                Ok((whole, p + 1))
            } else {
                Err(p)
            }
        },
    }
}

/// Reads an expression at `pos`.
fn expression_from<'a>(src: &Source<'a>, pos: usize) -> (r: Result<(BExpr, usize), usize>)
    requires
        src.wf(),
        pos <= src.chars.len(),
    ensures
        match r {
            Ok((e, end)) => expression_at(src.chars@, pos as int) == Ok::<(ExprView, int), int>(
                (e@, end as int),
            ) && pos < end <= src.chars.len(),
            Err(at) => expression_at(src.chars@, pos as int) == Err::<(ExprView, int), int>(
                at as int,
            ) && at <= src.chars.len(),
        },
    decreases src.chars.len() - pos, 1nat,
{
    match function_from(src, pos) {
        Ok(found) => Ok(found),
        Err(e1) => match variable_name_from(src, pos) {
            Ok((name, end)) => Ok((Box::new(Expr::Var(name.to_owned())), end)),
            Err(e2) => match invocation_from(src, pos) {
                Ok(found) => Ok(found),
                Err(e3) => {
                    let e12 = if e1 >= e2 {
                        e1
                    } else {
                        e2
                    };
                    Err(if e12 >= e3 {
                        e12
                    } else {
                        e3
                    })
                },
            },
        },
    }
}

/// What is left of `input` behind the first `end` characters.
fn rest_of<'a>(src: &Source<'a>, end: usize) -> (r: &'a str)
    requires
        src.wf(),
        end <= src.chars.len(),
    ensures
        r@ == src.text@.subrange(end as int, src.text@.len() as int),
{
    src.slice(end, src.chars.len())
}

/// Reads a name at the start of `input`: gives what is left of `input` and the name.
pub fn variable_name(input: &str) -> (r: Result<(&str, &str), ParseError>)
    ensures
        match r {
            Ok((rest, name)) => variable_name_at(input@, 0) == Ok::<(Name, int), int>(
                (name@, input@.len() - rest@.len()),
            ) && rest@ == input@.subrange(input@.len() - rest@.len(), input@.len() as int),
            Err(e) => variable_name_at(input@, 0) == Err::<(Name, int), int>(e.position as int),
        },
{
    let src = Source::new(input);
    match variable_name_from(&src, 0) {
        Ok((name, end)) => Ok((rest_of(&src, end), name)),
        Err(at) => Err(ParseError { position: at }),
    }
}

/// Reads a variable at the start of `input`: gives what is left of `input` and the
/// variable.
pub fn variable(input: &str) -> (r: Result<(&str, BExpr), ParseError>)
    ensures
        match r {
            Ok((rest, e)) => variable_at(input@, 0) == Ok::<(ExprView, int), int>(
                (e@, input@.len() - rest@.len()),
            ) && rest@ == input@.subrange(input@.len() - rest@.len(), input@.len() as int),
            Err(e) => variable_at(input@, 0) == Err::<(ExprView, int), int>(e.position as int),
        },
{
    let src = Source::new(input);
    match variable_name_from(&src, 0) {
        Ok((name, end)) => Ok((rest_of(&src, end), Box::new(Expr::Var(name.to_owned())))),
        Err(at) => Err(ParseError { position: at }),
    }
}

/// Reads a function at the start of `input`: gives what is left of `input` and the
/// function.
pub fn function(input: &str) -> (r: Result<(&str, BExpr), ParseError>)
    ensures
        match r {
            Ok((rest, e)) => function_at(input@, 0) == Ok::<(ExprView, int), int>(
                (e@, input@.len() - rest@.len()),
            ) && rest@ == input@.subrange(input@.len() - rest@.len(), input@.len() as int),
            Err(e) => function_at(input@, 0) == Err::<(ExprView, int), int>(e.position as int),
        },
{
    let src = Source::new(input);
    match function_from(&src, 0) {
        Ok((e, end)) => Ok((rest_of(&src, end), e)),
        Err(at) => Err(ParseError { position: at }),
    }
}

/// Reads an invocation at the start of `input`: gives what is left of `input` and
/// the invocation.
pub fn invocation(input: &str) -> (r: Result<(&str, BExpr), ParseError>)
    ensures
        match r {
            Ok((rest, e)) => invocation_at(input@, 0) == Ok::<(ExprView, int), int>(
                (e@, input@.len() - rest@.len()),
            ) && rest@ == input@.subrange(input@.len() - rest@.len(), input@.len() as int),
            Err(e) => invocation_at(input@, 0) == Err::<(ExprView, int), int>(e.position as int),
        },
{
    let src = Source::new(input);
    match invocation_from(&src, 0) {
        Ok((e, end)) => Ok((rest_of(&src, end), e)),
        Err(at) => Err(ParseError { position: at }),
    }
}

/// Reads an expression at the start of `input`: gives what is left of `input` and
/// the expression.
pub fn expression(input: &str) -> (r: Result<(&str, BExpr), ParseError>)
    ensures
        match r {
            Ok((rest, e)) => expression_at(input@, 0) == Ok::<(ExprView, int), int>(
                (e@, input@.len() - rest@.len()),
            ) && rest@ == input@.subrange(input@.len() - rest@.len(), input@.len() as int),
            Err(e) => expression_at(input@, 0) == Err::<(ExprView, int), int>(e.position as int),
        },
{
    let src = Source::new(input);
    match expression_from(&src, 0) {
        Ok((e, end)) => Ok((rest_of(&src, end), e)),
        Err(at) => Err(ParseError { position: at }),
    }
}

/// Reads `input` as one expression. Fails where the text stops matching the grammar,
/// or behind the expression where something follows it.
pub fn parse(input: &str) -> (r: Result<BExpr, ParseError>)
    ensures
        match r {
            Ok(e) => parsed(input@) == Ok::<ExprView, int>(e@),
            Err(e) => parsed(input@) == Err::<ExprView, int>(e.position as int),
        },
{
    let src = Source::new(input);
    match expression_from(&src, 0) {
        Ok((e, end)) => {
            if end == src.chars.len() {
                Ok(e)
            } else {
                Err(ParseError { position: end })
            }
        },
        Err(at) => Err(ParseError { position: at }),
    }
}

/// Reads `input` as one expression; `None` where it is not one.
pub fn parse_expression(input: &str) -> (r: Option<BExpr>)
    ensures
        match r {
            Some(e) => parsed(input@) == Ok::<ExprView, int>(e@),
            None => parsed(input@) is Err,
        },
{
    match parse(input) {
        Ok(e) => Some(e),
        Err(_) => None,
    }
}

} // verus!

//! Names: looking them up in a context, and deriving a name that a context does not
//! hold yet.

use vstd::prelude::*;
use vstd::string::StrSliceExecFns;
use vstd::string::StringExecFns;
use crate::term::Ident;

verus! {

/// A name as the contracts see it.
pub type Name = Seq<char>;

/// `c` is one of the ten decimal digits.
pub open spec fn is_digit(c: char) -> bool {
    c == '0' || c == '1' || c == '2' || c == '3' || c == '4' || c == '5' || c == '6' || c == '7'
        || c == '8' || c == '9'
}

/// The value of a decimal digit.
pub open spec fn digit_value(c: char) -> nat {
    if c == '1' {
        1
    } else if c == '2' {
        2
    } else if c == '3' {
        3
    } else if c == '4' {
        4
    } else if c == '5' {
        5
    } else if c == '6' {
        6
    } else if c == '7' {
        7
    } else if c == '8' {
        8
    } else if c == '9' {
        9
    } else {
        0
    }
}

/// The decimal digit of a value below ten.
pub open spec fn digit_char(d: nat) -> char {
    if d == 1 {
        '1'
    } else if d == 2 {
        '2'
    } else if d == 3 {
        '3'
    } else if d == 4 {
        '4'
    } else if d == 5 {
        '5'
    } else if d == 6 {
        '6'
    } else if d == 7 {
        '7'
    } else if d == 8 {
        '8'
    } else if d == 9 {
        '9'
    } else {
        '0'
    }
}

/// Every character of `s` is a decimal digit.
pub open spec fn all_digits(s: Name) -> bool {
    forall|i: int| 0 <= i < s.len() ==> is_digit(#[trigger] s[i])
}

/// The number that a sequence of decimal digits denotes; leading zeros do not count.
pub open spec fn number(ds: Name) -> nat
    decreases ds.len(),
{
    if ds.len() == 0 {
        0
    } else {
        number(ds.drop_last()) * 10 + digit_value(ds.last())
    }
}

/// The decimal digits of `n`, without leading zeros.
pub open spec fn decimal(n: nat) -> Name
    decreases n,
{
    if n < 10 {
        seq![digit_char(n)]
    } else {
        decimal(n / 10).push(digit_char(n % 10))
    }
}

/// How many decimal digits `s` ends in.
pub open spec fn digit_run(s: Name) -> nat
    decreases s.len(),
{
    if s.len() > 0 && is_digit(s.last()) {
        digit_run(s.drop_last()) + 1
    } else {
        0
    }
}

/// `s` ends in an underscore followed by one or more decimal digits.
pub open spec fn has_counter(s: Name) -> bool {
    let k = digit_run(s);
    k > 0 && s.len() > k && s[s.len() - k - 1] == '_'
}

/// The number behind the last underscore of a name that has a counter.
pub open spec fn counter(s: Name) -> nat
    recommends
        has_counter(s),
{
    number(s.subrange(s.len() - digit_run(s), s.len() as int))
}

/// What stands before the last underscore of a name that has a counter.
pub open spec fn stem(s: Name) -> Name
    recommends
        has_counter(s),
{
    s.subrange(0, s.len() - digit_run(s) - 1)
}

/// `stem`, an underscore, and `n` in decimal.
pub open spec fn numbered(stem: Name, n: nat) -> Name {
    stem.push('_') + decimal(n)
}

/// The name tried after `s`: a name without a counter gets the counter 1, a name
/// with the counter `n` gets `n + 1` in its place.
pub open spec fn next_name(s: Name) -> Name {
    if has_counter(s) {
        numbered(stem(s), counter(s) + 1)
    } else {
        numbered(s, 1)
    }
}

/// The name reached from `s` by `k` times taking the next name.
pub open spec fn chain(s: Name, k: nat) -> Name
    decreases k,
{
    if k == 0 {
        s
    } else {
        chain(next_name(s), (k - 1) as nat)
    }
}

/// The first of `s`, its next name, the next of that and so on that `ctx` does not
/// hold, looking at `tries + 1` of them at most.
pub open spec fn fresh_from(ctx: Seq<Name>, s: Name, tries: nat) -> Name
    decreases tries,
{
    if tries == 0 || !ctx.contains(s) {
        s
    } else {
        fresh_from(ctx, next_name(s), (tries - 1) as nat)
    }
}

/// The name that stands for `s` where the names of `ctx` are taken: `s` itself if
/// `ctx` does not hold it, else the first of its successors that `ctx` does not
/// hold.
pub open spec fn fresh_name(ctx: Seq<Name>, s: Name) -> Name {
    fresh_from(ctx, s, ctx.len())
}

/// The distance from the end of `names` to the last entry equal to `name`.
pub open spec fn position_from_end(names: Seq<Name>, name: Name) -> Option<nat>
    decreases names.len(),
{
    if names.len() == 0 {
        None
    } else if names.last() == name {
        Some(0)
    } else {
        match position_from_end(names.drop_last(), name) {
            Some(k) => Some(k + 1),
            None => None,
        }
    }
}

/// The distance from the start of `names` to the first entry equal to `name`.
pub open spec fn position_from_start(names: Seq<Name>, name: Name) -> Option<nat>
    decreases names.len(),
{
    if names.len() == 0 {
        None
    } else {
        match position_from_start(names.drop_last(), name) {
            Some(k) => Some(k),
            None => if names.last() == name {
                Some((names.len() - 1) as nat)
            } else {
                None
            },
        }
    }
}

/// The entry of `names` at distance `idx` from its end.
pub open spec fn name_from_end(names: Seq<Name>, idx: int) -> Option<Name> {
    if 0 <= idx < names.len() {
        Some(names[names.len() - 1 - idx])
    } else {
        None
    }
}

/// What counts up along the chain of next names: the counter, or 0 without one.
pub open spec fn rank(s: Name) -> nat {
    if has_counter(s) {
        counter(s)
    } else {
        0
    }
}

/// `decimal(n)` is a non-empty sequence of digits that denotes `n`.
pub proof fn lemma_decimal(n: nat)
    ensures
        all_digits(decimal(n)),
        decimal(n).len() >= 1,
        number(decimal(n)) == n,
    decreases n,
{
    if n < 10 {
        let d = decimal(n);
        assert(d.drop_last() =~= Seq::<char>::empty());
        assert(number(d.drop_last()) == 0);
    } else {
        lemma_decimal(n / 10);
        let d = decimal(n);
        assert(d.drop_last() =~= decimal(n / 10));
        assert(d.last() == digit_char(n % 10));
    }
}

/// Digits appended to something that does not end in a digit are exactly the digits
/// that the whole ends in.
proof fn lemma_digit_run_appended(a: Name, ds: Name)
    requires
        all_digits(ds),
        a.len() == 0 || !is_digit(a.last()),
    ensures
        digit_run(a + ds) == ds.len(),
    decreases ds.len(),
{
    if ds.len() == 0 {
        assert(a + ds =~= a);
    } else {
        assert((a + ds).drop_last() =~= a + ds.drop_last());
        assert((a + ds).last() == ds.last());
        assert(is_digit(ds[ds.len() - 1]));
        lemma_digit_run_appended(a, ds.drop_last());
    }
}

/// A numbered name has a counter, and gives back its parts.
pub proof fn lemma_numbered(base: Name, n: nat)
    ensures
        has_counter(numbered(base, n)),
        stem(numbered(base, n)) == base,
        counter(numbered(base, n)) == n,
{
    let a = base.push('_');
    let ds = decimal(n);
    let s = numbered(base, n);
    lemma_decimal(n);
    lemma_digit_run_appended(a, ds);
    assert(s[s.len() - ds.len() - 1] == '_');
    assert(s.subrange(0, s.len() - ds.len() - 1) =~= base);
    assert(s.subrange(s.len() - ds.len(), s.len() as int) =~= ds);
}

/// The next name has a counter, one above the rank of the name it comes from.
pub proof fn lemma_next_name(s: Name)
    ensures
        has_counter(next_name(s)),
        counter(next_name(s)) == rank(s) + 1,
{
    if has_counter(s) {
        lemma_numbered(stem(s), counter(s) + 1);
    } else {
        lemma_numbered(s, 1);
    }
}

/// The chain can be walked from its far end.
proof fn lemma_chain_last(s: Name, k: nat)
    ensures
        chain(s, k + 1) == next_name(chain(s, k)),
    decreases k,
{
    assert(chain(s, k + 1) == chain(next_name(s), k));
    if k == 0 {
        assert(chain(next_name(s), 0) == next_name(s));
    } else {
        lemma_chain_last(next_name(s), (k - 1) as nat);
    }
}

/// From the first step on, the names of a chain have a counter that goes up by one.
proof fn lemma_chain_counts(s: Name, k: nat)
    requires
        k >= 1,
    ensures
        has_counter(chain(s, k)),
        counter(chain(s, k)) == rank(s) + k,
    decreases k,
{
    lemma_next_name(s);
    assert(chain(s, k) == chain(next_name(s), (k - 1) as nat));
    if k == 1 {
        assert(chain(next_name(s), 0) == next_name(s));
    } else {
        lemma_chain_counts(next_name(s), (k - 1) as nat);
    }
}

/// A chain walked in two parts.
proof fn lemma_chain_split(s: Name, i: nat, d: nat)
    ensures
        chain(s, i + d) == chain(chain(s, i), d),
    decreases i,
{
    if i > 0 {
        lemma_chain_split(next_name(s), (i - 1) as nat, d);
    }
}

/// No name comes twice in a chain.
pub proof fn lemma_chain_distinct(s: Name, i: nat, j: nat)
    requires
        i < j,
    ensures
        chain(s, i) != chain(s, j),
{
    let x = chain(s, i);
    let d = (j - i) as nat;
    lemma_chain_split(s, i, d);
    lemma_chain_counts(x, d);
}

/// A context that holds the first `m + 1` names of a chain has more than `m`
/// entries.
proof fn lemma_chain_leaves(ctx: Seq<Name>, s: Name, m: nat)
    requires
        forall|j: nat| j <= m ==> ctx.contains(#[trigger] chain(s, j)),
    ensures
        m < ctx.len(),
{
    let c = Seq::new(m + 1, |j: int| chain(s, j as nat));
    assert forall|i: int, j: int| 0 <= i < c.len() && 0 <= j < c.len() && i != j implies c[i]
        != c[j] by {
        if i < j {
            lemma_chain_distinct(s, i as nat, j as nat);
        } else {
            lemma_chain_distinct(s, j as nat, i as nat);
        }
    }
    c.unique_seq_to_set();
    ctx.lemma_cardinality_of_set();
    assert(c.to_set().subset_of(ctx.to_set())) by {
        assert forall|x: Name| c.to_set().contains(x) implies ctx.to_set().contains(x) by {
            let j = choose|j: int| 0 <= j < c.len() && c[j] == x;
            assert(ctx.contains(chain(s, j as nat)));
        }
    }
    broadcast use vstd::seq_lib::seq_to_set_is_finite;
    vstd::set_lib::lemma_len_subset(c.to_set(), ctx.to_set());
}

/// The search for a fresh name, seen from its `k`th try: it ends on a name of the
/// chain that the context does not hold, having passed only names that it holds.
proof fn lemma_fresh_from_absent(ctx: Seq<Name>, s: Name, k: nat)
    requires
        k <= ctx.len(),
        forall|j: nat| j < k ==> ctx.contains(#[trigger] chain(s, j)),
    ensures
        !ctx.contains(fresh_from(ctx, chain(s, k), (ctx.len() - k) as nat)),
        exists|m: nat| k <= m <= ctx.len() && fresh_from(ctx, chain(s, k), (ctx.len() - k) as nat)
            == chain(s, m) && forall|j: nat| j < m ==> ctx.contains(#[trigger] chain(s, j)),
    decreases ctx.len() - k,
{
    let cur = chain(s, k);
    if ctx.contains(cur) {
        lemma_chain_leaves(ctx, s, k);
        lemma_chain_last(s, k);
        lemma_fresh_from_absent(ctx, s, k + 1);
    }
}

/// The fresh name is a name that the context does not hold: a name of the chain
/// from `s`, before which every name of the chain is held.
pub proof fn lemma_fresh_name(ctx: Seq<Name>, s: Name)
    ensures
        !ctx.contains(fresh_name(ctx, s)),
        exists|m: nat| m <= ctx.len() && fresh_name(ctx, s) == chain(s, m) && forall|j: nat| j < m
            ==> ctx.contains(#[trigger] chain(s, j)),
{
    lemma_fresh_from_absent(ctx, s, 0);
}

/// A name that the context does not hold stays as it is.
pub proof fn lemma_fresh_name_of_absent(ctx: Seq<Name>, s: Name)
    requires
        !ctx.contains(s),
    ensures
        fresh_name(ctx, s) == s,
{
}

/// What `position_from_start` finds: the first entry equal to `name`, if there is
/// one.
pub proof fn lemma_position_from_start(names: Seq<Name>, name: Name)
    ensures
        match position_from_start(names, name) {
            Some(k) => k < names.len() && names[k as int] == name && forall|j: int|
                0 <= j < k ==> names[j] != name,
            None => !names.contains(name),
        },
    decreases names.len(),
{
    if names.len() > 0 {
        let front = names.drop_last();
        lemma_position_from_start(front, name);
        match position_from_start(front, name) {
            Some(k) => {
                assert(front[k as int] == names[k as int]);
                assert forall|j: int| 0 <= j < k implies names[j] != name by {
                    assert(front[j] == names[j]);
                }
            },
            None => {
                assert forall|j: int| 0 <= j < names.len() - 1 implies names[j] != name by {
                    assert(front[j] == names[j]);
                    assert(front.contains(front[j]));
                }
            },
        }
    }
}

/// What `position_from_end` finds: the last entry equal to `name`, if there is one.
pub proof fn lemma_position_from_end(names: Seq<Name>, name: Name)
    ensures
        match position_from_end(names, name) {
            Some(k) => k < names.len() && names[names.len() - 1 - k] == name && forall|i: int|
                names.len() - 1 - k < i < names.len() ==> names[i] != name,
            None => !names.contains(name),
        },
    decreases names.len(),
{
    if names.len() > 0 && names.last() != name {
        let front = names.drop_last();
        lemma_position_from_end(front, name);
        match position_from_end(front, name) {
            Some(k) => {
                assert(front[front.len() - 1 - k] == names[names.len() - 1 - (k + 1)]);
                assert forall|i: int| names.len() - 1 - (k + 1) < i < names.len() implies names[i]
                    != name by {
                    if i < names.len() - 1 {
                        assert(front[i] == names[i]);
                    }
                }
            },
            None => {
                assert forall|j: int| 0 <= j < names.len() implies names[j] != name by {
                    if j < names.len() - 1 {
                        assert(front[j] == names[j]);
                        assert(front.contains(front[j]));
                    }
                }
            },
        }
    }
}

/// The place of the first entry of `ctx` equal to `ident`, counted from the start.
pub fn idx_from_start(ctx: &Vec<Ident>, ident: &Ident) -> (r: Option<usize>)
    ensures
        match r {
            Some(i) => position_from_start(ctx.deep_view(), ident@) == Some(i as nat),
            None => position_from_start(ctx.deep_view(), ident@) is None,
        },
{
    let ghost names = ctx.deep_view();
    let mut i: usize = 0;
    while i < ctx.len()
        invariant
            i <= ctx.len(),
            names == ctx.deep_view(),
            forall|j: int| 0 <= j < i ==> names[j] != ident@,
        decreases ctx.len() - i,
    {
        if ctx[i] == *ident {
            proof {
                assert(names[i as int] == ident@);
                lemma_position_from_start(names, ident@);
            }
            return Some(i);
        }
        i = i + 1;
    }
    proof {
        lemma_position_from_start(names, ident@);
    }
    None
}

/// The place of the last entry of `ctx` equal to `ident`, counted from the end.
pub fn idx_from_end(ctx: &Vec<Ident>, ident: &Ident) -> (r: Option<usize>)
    ensures
        match r {
            Some(i) => position_from_end(ctx.deep_view(), ident@) == Some(i as nat),
            None => position_from_end(ctx.deep_view(), ident@) is None,
        },
{
    let ghost names = ctx.deep_view();
    let n = ctx.len();
    let mut i: usize = 0;
    while i < n
        invariant
            i <= n,
            n == ctx.len(),
            names == ctx.deep_view(),
            forall|j: int| n - 1 - i < j < n ==> names[j] != ident@,
        decreases n - i,
    {
        if ctx[n - 1 - i] == *ident {
            proof {
                assert(names[n - 1 - i] == ident@);
                lemma_position_from_end(names, ident@);
            }
            return Some(i);
        }
        i = i + 1;
    }
    proof {
        lemma_position_from_end(names, ident@);
    }
    None
}

/// The entry of `ctx` at distance `idx` from its end, if there is one.
pub fn ident_from_end(ctx: &Vec<Ident>, idx: i32) -> (r: Option<Ident>)
    ensures
        match r {
            Some(name) => name_from_end(ctx.deep_view(), idx as int) == Some(name@),
            None => name_from_end(ctx.deep_view(), idx as int) is None,
        },
{
    if idx < 0 {
        return None;
    }
    let back = idx as usize;
    if back < ctx.len() {
        Some(ctx[ctx.len() - 1 - back].clone())
    } else {
        None
    }
}

/// The digits of the number one above the number of `ds`, in as many places as `ds`
/// has, or in one more where every digit of `ds` is a nine.
spec fn succ_digits(ds: Name) -> Name
    decreases ds.len(),
{
    if ds.len() == 0 {
        seq!['1']
    } else if ds.last() == '9' {
        succ_digits(ds.drop_last()).push('0')
    } else {
        ds.drop_last().push(digit_char(digit_value(ds.last()) + 1))
    }
}

/// `succ_digits` gives digits, and they denote the next number.
proof fn lemma_succ_digits(ds: Name)
    requires
        all_digits(ds),
    ensures
        all_digits(succ_digits(ds)),
        succ_digits(ds).len() >= 1,
        number(succ_digits(ds)) == number(ds) + 1,
    decreases ds.len(),
{
    let r = succ_digits(ds);
    if ds.len() == 0 {
        assert(r.drop_last() =~= Seq::<char>::empty());
        assert(number(r.drop_last()) == 0);
    } else {
        let front = ds.drop_last();
        assert(is_digit(ds[ds.len() - 1]));
        assert forall|i: int| 0 <= i < front.len() implies is_digit(#[trigger] front[i]) by {
            assert(front[i] == ds[i]);
        }
        if ds.last() == '9' {
            lemma_succ_digits(front);
            assert(r.drop_last() =~= succ_digits(front));
        } else {
            assert(r.drop_last() =~= front);
        }
    }
}

/// Zeros in front do not change the number.
proof fn lemma_leading_zeros(ds: Name, j: int)
    requires
        0 <= j <= ds.len(),
        forall|i: int| 0 <= i < j ==> ds[i] == '0',
    ensures
        number(ds.subrange(j, ds.len() as int)) == number(ds),
    decreases ds.len(),
{
    let tail = ds.subrange(j, ds.len() as int);
    if j < ds.len() {
        lemma_leading_zeros(ds.drop_last(), j);
        assert(tail.drop_last() =~= ds.drop_last().subrange(j, ds.len() - 1));
    } else if ds.len() > 0 {
        lemma_leading_zeros(ds.drop_last(), j - 1);
        assert(ds.drop_last().subrange(j - 1, ds.len() - 1).len() == 0);
    }
}

/// Digits without a zero in front are the decimal form of their number.
proof fn lemma_canonical(ds: Name)
    requires
        all_digits(ds),
        ds.len() >= 1,
        ds[0] != '0' || ds.len() == 1,
    ensures
        decimal(number(ds)) == ds,
    decreases ds.len(),
{
    let front = ds.drop_last();
    assert(is_digit(ds[ds.len() - 1]));
    if ds.len() == 1 {
        assert(front =~= Seq::<char>::empty());
        assert(number(front) == 0);
        assert(decimal(number(ds)) =~= ds);
    } else {
        assert forall|i: int| 0 <= i < front.len() implies is_digit(#[trigger] front[i]) by {
            assert(front[i] == ds[i]);
        }
        assert(front[0] == ds[0]);
        lemma_canonical(front);
        if number(front) == 0 {
            assert(decimal(0)[0] == '0');
        }
        assert(decimal(number(ds)) =~= ds);
    }
}

/// The digits that `s` ends in are its last `k` characters.
proof fn lemma_digit_run(s: Name, k: int)
    requires
        0 <= k <= s.len(),
        forall|i: int| s.len() - k <= i < s.len() ==> is_digit(s[i]),
        k == s.len() || !is_digit(s[s.len() - 1 - k]),
    ensures
        digit_run(s) == k,
{
    let a = s.subrange(0, s.len() - k);
    let ds = s.subrange(s.len() - k, s.len() as int);
    assert(s =~= a + ds);
    lemma_digit_run_appended(a, ds);
}

/// Tells whether `c` is a decimal digit.
fn is_digit_char(c: char) -> (r: bool)
    ensures
        r == is_digit(c),
{
    c == '0' || c == '1' || c == '2' || c == '3' || c == '4' || c == '5' || c == '6' || c == '7'
        || c == '8' || c == '9'
}

/// The digit after `c`.
fn digit_after(c: char) -> (r: char)
    requires
        is_digit(c),
        c != '9',
    ensures
        r == digit_char(digit_value(c) + 1),
{
    if c == '0' {
        '1'
    } else if c == '1' {
        '2'
    } else if c == '2' {
        '3'
    } else if c == '3' {
        '4'
    } else if c == '4' {
        '5'
    } else if c == '5' {
        '6'
    } else if c == '6' {
        '7'
    } else if c == '7' {
        '8'
    } else {
        '9'
    }
}

/// The text of one digit.
fn digit_text(c: char) -> (r: &'static str)
    requires
        is_digit(c),
    ensures
        r@ == seq![c],
{
    proof {
        reveal_strlit("0");
        reveal_strlit("1");
        reveal_strlit("2");
        reveal_strlit("3");
        reveal_strlit("4");
        reveal_strlit("5");
        reveal_strlit("6");
        reveal_strlit("7");
        reveal_strlit("8");
        reveal_strlit("9");
    }
    let r = if c == '0' {
        "0"
    } else if c == '1' {
        "1"
    } else if c == '2' {
        "2"
    } else if c == '3' {
        "3"
    } else if c == '4' {
        "4"
    } else if c == '5' {
        "5"
    } else if c == '6' {
        "6"
    } else if c == '7' {
        "7"
    } else if c == '8' {
        "8"
    } else {
        "9"
    };
    assert(r@ =~= seq![c]);
    r
}

/// Adds one to the number that `ds` denotes, digit by digit from the right.
fn bump(ds: &mut Vec<char>)
    requires
        all_digits(old(ds)@),
    ensures
        final(ds)@ == succ_digits(old(ds)@),
{
    let ghost orig = ds@;
    let mut i: usize = ds.len();
    proof {
        assert(orig.subrange(0, i as int) =~= orig);
        assert(succ_digits(orig) =~= succ_digits(orig) + ds@.subrange(i as int, ds.len() as int));
    }
    while i > 0 && ds[i - 1] == '9'
        invariant
            i <= ds.len(),
            ds.len() == orig.len(),
            all_digits(orig),
            forall|j: int| 0 <= j < i ==> ds[j] == orig[j],
            succ_digits(orig) == succ_digits(orig.subrange(0, i as int)) + ds@.subrange(
                i as int,
                ds.len() as int,
            ),
        decreases i,
    {
        let ghost head = orig.subrange(0, i as int);
        ds.set(i - 1, '0');
        i = i - 1;
        proof {
            assert(head.last() == '9');
            assert(head.drop_last() =~= orig.subrange(0, i as int));
            assert(succ_digits(head) == succ_digits(orig.subrange(0, i as int)).push('0'));
            assert(succ_digits(orig) =~= succ_digits(orig.subrange(0, i as int)) + ds@.subrange(
                i as int,
                ds.len() as int,
            ));
        }
    }
    let ghost head = orig.subrange(0, i as int);
    if i == 0 {
        ds.insert(0, '1');
        proof {
            assert(head =~= Seq::<char>::empty());
            assert(ds@ =~= succ_digits(orig));
        }
    } else {
        assert(is_digit(orig[i - 1]));
        let next = digit_after(ds[i - 1]);
        ds.set(i - 1, next);
        proof {
            assert(head.last() == orig[i - 1]);
            assert(succ_digits(head) == head.drop_last().push(next));
            assert(ds@ =~= succ_digits(orig));
        }
    }
}

/// The name tried after `name`.
pub fn next_ident(name: &Ident) -> (r: Ident)
    ensures
        r@ == next_name(name@),
{
    let s = name.as_str();
    let n = s.unicode_len();
    let mut k: usize = 0;
    while k < n && is_digit_char(s.get_char(n - 1 - k))
        invariant
            k <= n,
            n == s@.len(),
            forall|i: int| n - k <= i < n ==> is_digit(s@[i]),
        decreases n - k,
    {
        k = k + 1;
    }
    proof {
        lemma_digit_run(s@, k as int);
    }
    if k > 0 && k < n && s.get_char(n - k - 1) == '_' {
        let mut ds: Vec<char> = Vec::new();
        let mut i: usize = n - k;
        while i < n
            invariant
                k <= n,
                n - k <= i <= n,
                n == s@.len(),
                ds@ == s@.subrange(n - k, i as int),
            decreases n - i,
        {
            ds.push(s.get_char(i));
            i = i + 1;
            assert(ds@ =~= s@.subrange(n - k, i as int));
        }
        let ghost digits = ds@;
        assert(all_digits(digits)) by {
            assert forall|j: int| 0 <= j < digits.len() implies is_digit(#[trigger] digits[j]) by {
                assert(digits[j] == s@[n - k + j]);
            }
        }
        bump(&mut ds);
        proof {
            lemma_succ_digits(digits);
        }
        let m = ds.len();
        let mut j: usize = 0;
        while j < m - 1 && ds[j] == '0'
            invariant
                j <= m - 1,
                m == ds.len(),
                m >= 1,
                forall|i: int| 0 <= i < j ==> ds[i] == '0',
            decreases m - j,
        {
            j = j + 1;
        }
        let ghost tail = ds@.subrange(j as int, m as int);
        proof {
            lemma_leading_zeros(ds@, j as int);
            assert forall|i: int| 0 <= i < tail.len() implies is_digit(#[trigger] tail[i]) by {
                assert(tail[i] == ds@[j + i]);
            }
            lemma_canonical(tail);
            assert(tail == decimal(counter(s@) + 1));
        }
        let mut out = String::from_str(s.substring_char(0, n - k));
        assert(out@ =~= stem(s@).push('_'));
        let mut p: usize = j;
        while p < m
            invariant
                j <= p <= m,
                m == ds.len(),
                all_digits(ds@),
                has_counter(s@),
                out@ == stem(s@).push('_') + ds@.subrange(j as int, p as int),
            decreases m - p,
        {
            assert(is_digit(ds@[p as int]));
            out.append(digit_text(ds[p]));
            p = p + 1;
            assert(out@ =~= stem(s@).push('_') + ds@.subrange(j as int, p as int));
        }
        out
    } else {
        let mut out = name.clone();
        proof {
            reveal_strlit("_1");
        }
        out.append("_1");
        assert(out@ =~= numbered(name@, 1)) by {
            assert(decimal(1) =~= seq!['1']);
        }
        out
    }
}

/// Tells whether `ctx` holds `name`.
pub fn holds(ctx: &Vec<Ident>, name: &Ident) -> (r: bool)
    ensures
        r == ctx.deep_view().contains(name@),
{
    proof {
        lemma_position_from_start(ctx.deep_view(), name@);
    }
    idx_from_start(ctx, name).is_some()
}

/// Derives from `ident` a name that `ctx` does not hold: `ident` itself where `ctx`
/// does not hold it, else the first that it does not hold of `ident_1`, `ident_2`
/// and so on, or, where `ident` ends in `_n`, of the names with `n + 1`, `n + 2` and
/// so on in the place of `n`.
pub fn make_fresh(ctx: &Vec<Ident>, ident: &Ident) -> (r: Ident)
    ensures
        r@ == fresh_name(ctx.deep_view(), ident@),
        !ctx.deep_view().contains(r@),
{
    let ghost names = ctx.deep_view();
    let ghost mut k: nat = 0;
    let mut cur = ident.clone();
    loop
        invariant
            names == ctx.deep_view(),
            k <= names.len(),
            cur@ == chain(ident@, k),
            forall|j: nat| j < k ==> names.contains(#[trigger] chain(ident@, j)),
            fresh_from(names, cur@, (names.len() - k) as nat) == fresh_name(names, ident@),
        decreases names.len() - k,
    {
        if !holds(ctx, &cur) {
            return cur;
        }
        proof {
            lemma_chain_leaves(names, ident@, k);
            lemma_chain_last(ident@, k);
            k = k + 1;
        }
        cur = next_ident(&cur);
    }
}

} // verus!

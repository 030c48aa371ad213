//! Prompt assembler: three substitution passes over a column's rule —
//! range random tokens, single random tokens, then column references —
//! followed by filling the fixed chat template.  The pass order matters:
//! ranges must go before singles, and references last.

use vstd::prelude::*;
use crate::chars::{is_digit_char, matches_at, str_chars, sub_vec, find_sub_spec, find_sub,
    lemma_find_from, chars_to_string};
use crate::dataset::{Column, RowData};
use crate::numbers::{dec_rep_signed, parse_i64_spec, parse_i64};
use crate::rules::{wrun_from, lemma_wrun_from, is_word};
use rand::Rng;

verus! {

/// The literal prefix of both random tokens.
pub open spec fn rand_prefix() -> Seq<char> {
    seq!['@', 'R', 'A', 'N', 'D', 'O', 'M', '_', 'I', 'N', 'T', '_']
}

/// Length of the maximal digit run starting at `j`.
pub open spec fn drun_from(s: Seq<char>, j: int) -> int
    decreases s.len() - j + 1,
{
    if 0 <= j && j < s.len() && is_digit_char(s[j]) {
        1 + drun_from(s, j + 1)
    } else {
        0
    }
}

/// `drun_from` delimits the maximal digit run.
pub proof fn lemma_drun_from(s: Seq<char>, j: int)
    ensures
        0 <= drun_from(s, j),
        j <= s.len() ==> j + drun_from(s, j) <= s.len(),
        forall|k: int| j <= k < j + drun_from(s, j) ==> is_digit_char(s[k]),
        0 <= j && j + drun_from(s, j) < s.len() ==> !is_digit_char(s[j + drun_from(s, j)]),
    decreases s.len() - j + 1,
{
    if 0 <= j && j < s.len() && is_digit_char(s[j]) {
        lemma_drun_from(s, j + 1);
    }
}

/// A range random token starts at `i`: the prefix, one digit run, an
/// underscore, and a second digit run.
pub open spec fn range_tok_at(s: Seq<char>, i: int) -> bool {
    &&& matches_at(s, rand_prefix(), i)
    &&& drun_from(s, i + 12) >= 1
    &&& i + 12 + drun_from(s, i + 12) < s.len()
    &&& s[i + 12 + drun_from(s, i + 12)] == '_'
    &&& drun_from(s, i + 13 + drun_from(s, i + 12)) >= 1
}

/// One past the end of the range token at `i`.
pub open spec fn range_tok_end(s: Seq<char>, i: int) -> int {
    let d1 = drun_from(s, i + 12);
    i + 13 + d1 + drun_from(s, i + 13 + d1)
}

/// Lower bound of the range token at `i`; digit overflow falls back to
/// zero.
pub open spec fn range_lo(s: Seq<char>, i: int) -> i64 {
    match parse_i64_spec(s.subrange(i + 12, i + 12 + drun_from(s, i + 12))) {
        Some(v) => v,
        None => 0,
    }
}

/// Upper bound of the range token at `i`; digit overflow falls back to
/// zero.
pub open spec fn range_hi(s: Seq<char>, i: int) -> i64 {
    let d1 = drun_from(s, i + 12);
    match parse_i64_spec(
        s.subrange(i + 13 + d1, i + 13 + d1 + drun_from(s, i + 13 + d1)),
    ) {
        Some(v) => v,
        None => 0,
    }
}

/// The range pass, given the values drawn for the tokens in reading
/// order: each token becomes its draw's decimal form, other characters
/// are copied, and scanning resumes after each token.
pub open spec fn subst_range_from(s: Seq<char>, draws: Seq<i64>, i: int) -> Seq<char>
    decreases s.len() - i + 1,
        via subst_range_from_decreases
{
    if i < 0 || i >= s.len() {
        Seq::empty()
    } else if range_tok_at(s, i) {
        dec_rep_signed((if draws.len() > 0 {
            draws.first()
        } else {
            0
        }) as int) + subst_range_from(s, draws.drop_first(), range_tok_end(s, i))
    } else {
        seq![s[i]] + subst_range_from(s, draws, i + 1)
    }
}

#[via_fn]
proof fn subst_range_from_decreases(s: Seq<char>, draws: Seq<i64>, i: int) {
    lemma_drun_from(s, i + 12);
    lemma_drun_from(s, i + 13 + drun_from(s, i + 12));
}

/// The draws fit the tokens: one draw per token, each within the
/// token's bounds whenever those bounds are ordered.
pub open spec fn range_draws_ok(s: Seq<char>, draws: Seq<i64>, i: int) -> bool
    decreases s.len() - i + 1,
        via range_draws_ok_decreases
{
    if i < 0 || i >= s.len() {
        true
    } else if range_tok_at(s, i) {
        &&& draws.len() > 0
        &&& (range_lo(s, i) <= range_hi(s, i) ==> range_lo(s, i) <= draws.first() <= range_hi(
            s,
            i,
        ))
        &&& range_draws_ok(s, draws.drop_first(), range_tok_end(s, i))
    } else {
        range_draws_ok(s, draws, i + 1)
    }
}

#[via_fn]
proof fn range_draws_ok_decreases(s: Seq<char>, draws: Seq<i64>, i: int) {
    lemma_drun_from(s, i + 12);
    lemma_drun_from(s, i + 13 + drun_from(s, i + 12));
}

/// A single random token starts at `i`: the prefix and one digit run.
pub open spec fn single_tok_at(s: Seq<char>, i: int) -> bool {
    matches_at(s, rand_prefix(), i) && drun_from(s, i + 12) >= 1
}

/// One past the end of the single token at `i`.
pub open spec fn single_tok_end(s: Seq<char>, i: int) -> int {
    i + 12 + drun_from(s, i + 12)
}

/// Exclusive upper bound of the single token at `i`; digit overflow
/// falls back to one.
pub open spec fn single_n(s: Seq<char>, i: int) -> i64 {
    match parse_i64_spec(s.subrange(i + 12, i + 12 + drun_from(s, i + 12))) {
        Some(v) => v,
        None => 1,
    }
}

/// The single pass, given the values drawn for the tokens in reading
/// order.
pub open spec fn subst_single_from(s: Seq<char>, draws: Seq<i64>, i: int) -> Seq<char>
    decreases s.len() - i + 1,
        via subst_single_from_decreases
{
    if i < 0 || i >= s.len() {
        Seq::empty()
    } else if single_tok_at(s, i) {
        dec_rep_signed((if draws.len() > 0 {
            draws.first()
        } else {
            0
        }) as int) + subst_single_from(s, draws.drop_first(), single_tok_end(s, i))
    } else {
        seq![s[i]] + subst_single_from(s, draws, i + 1)
    }
}

#[via_fn]
proof fn subst_single_from_decreases(s: Seq<char>, draws: Seq<i64>, i: int) {
    lemma_drun_from(s, i + 12);
}

/// The draws fit the single tokens: one draw per token, each in
/// `[0, n)` whenever `n` is positive.
pub open spec fn single_draws_ok(s: Seq<char>, draws: Seq<i64>, i: int) -> bool
    decreases s.len() - i + 1,
        via single_draws_ok_decreases
{
    if i < 0 || i >= s.len() {
        true
    } else if single_tok_at(s, i) {
        &&& draws.len() > 0
        &&& (single_n(s, i) >= 1 ==> 0 <= draws.first() < single_n(s, i))
        &&& single_draws_ok(s, draws.drop_first(), single_tok_end(s, i))
    } else {
        single_draws_ok(s, draws, i + 1)
    }
}

#[via_fn]
proof fn single_draws_ok_decreases(s: Seq<char>, draws: Seq<i64>, i: int) {
    lemma_drun_from(s, i + 12);
}

/// Relies on `rand::Rng::gen_range` over `rand::thread_rng` with an
/// inclusive range, which yields a value within the bounds and panics
/// only on an empty range.
#[verifier::external_body]
fn draw_inclusive(lo: i64, hi: i64) -> (r: i64)
    requires
        lo <= hi,
    ensures
        lo <= r <= hi,
{
    rand::thread_rng().gen_range(lo..=hi)
}

/// The token prefix, as a vector.
fn rand_prefix_vec() -> (r: Vec<char>)
    ensures
        r@ == rand_prefix(),
{
    let mut r: Vec<char> = Vec::new();
    r.push('@');
    r.push('R');
    r.push('A');
    r.push('N');
    r.push('D');
    r.push('O');
    r.push('M');
    r.push('_');
    r.push('I');
    r.push('N');
    r.push('T');
    r.push('_');
    assert(r@ =~= rand_prefix());
    r
}

/// End of the digit run starting at `j`.
fn drun_end(s: &Vec<char>, j: usize) -> (r: usize)
    requires
        j <= s@.len(),
    ensures
        r as int == j + drun_from(s@, j as int),
        j <= r <= s@.len(),
{
    let n: usize = s.len();
    proof {
        lemma_drun_from(s@, j as int);
    }
    let mut e: usize = j;
    while e < n && '0' <= s[e] && s[e] <= '9'
        invariant
            n == s@.len(),
            j <= e <= n,
            0 <= drun_from(s@, j as int),
            j + drun_from(s@, j as int) <= n,
            forall|k: int| j <= k < j + drun_from(s@, j as int) ==> is_digit_char(s@[k]),
            j + drun_from(s@, j as int) < n ==> !is_digit_char(s@[j + drun_from(s@, j as int)]),
            e <= j + drun_from(s@, j as int),
        decreases n - e,
    {
        e = e + 1;
    }
    e
}

/// Probe for a range token at `i`: on success, the end of the first
/// digit run and the end of the whole token.
fn range_tok_probe(s: &Vec<char>, i: usize, prefix: &Vec<char>) -> (r: Option<(usize, usize)>)
    requires
        prefix@ == rand_prefix(),
        i < s@.len(),
    ensures
        match r {
            Some(ends) => {
                &&& range_tok_at(s@, i as int)
                &&& ends.0 as int == i + 12 + drun_from(s@, i + 12)
                &&& ends.1 as int == range_tok_end(s@, i as int)
                &&& i < ends.1 <= s@.len()
                &&& i + 12 < ends.0 < ends.1
            },
            None => !range_tok_at(s@, i as int),
        },
{
    let n: usize = s.len();
    if n - i < 12 {
        proof {
            assert(i + 12 > n);
        }
        return None;
    }
    if !crate::chars::match_at(s, prefix, i) {
        return None;
    }
    let e1 = drun_end(s, i + 12);
    if e1 == i + 12 {
        return None;
    }
    if e1 == n {
        return None;
    }
    if s[e1] != '_' {
        return None;
    }
    let e2 = drun_end(s, e1 + 1);
    if e2 == e1 + 1 {
        return None;
    }
    Some((e1, e2))
}

/// Probe for a single token at `i`: on success, its end.
fn single_tok_probe(s: &Vec<char>, i: usize, prefix: &Vec<char>) -> (r: Option<usize>)
    requires
        prefix@ == rand_prefix(),
        i < s@.len(),
    ensures
        match r {
            Some(e) => {
                &&& single_tok_at(s@, i as int)
                &&& e as int == single_tok_end(s@, i as int)
                &&& i < e <= s@.len()
                &&& i + 12 < e
            },
            None => !single_tok_at(s@, i as int),
        },
{
    let n: usize = s.len();
    if n - i < 12 {
        proof {
            assert(i + 12 > n);
        }
        return None;
    }
    if !crate::chars::match_at(s, prefix, i) {
        return None;
    }
    let e = drun_end(s, i + 12);
    if e == i + 12 {
        return None;
    }
    Some(e)
}

/// The range pass: replace every range token with a fresh draw from its
/// bounds, rendered in decimal.  When a token's bounds are inverted the
/// lower bound is used directly.
pub fn subst_random_range(rule: &Vec<char>) -> (r: Vec<char>)
    ensures
        exists|draws: Seq<i64>|
            range_draws_ok(rule@, draws, 0) && r@ == subst_range_from(rule@, draws, 0),
{
    let n: usize = rule.len();
    let prefix = rand_prefix_vec();
    let mut out: Vec<char> = Vec::new();
    let ghost mut draws: Seq<i64> = Seq::empty();
    let mut i: usize = 0;
    proof {
        assert forall|ds: Seq<i64>| #[trigger] subst_range_from(rule@, ds, 0) == out@
            + subst_range_from(rule@, ds, 0) by {
            assert(out@ + subst_range_from(rule@, ds, 0) =~= subst_range_from(rule@, ds, 0));
        }
        assert forall|ds: Seq<i64>| subst_range_from(rule@, draws + ds, 0) == out@
            + #[trigger] subst_range_from(rule@, ds, 0) by {
            assert(draws + ds =~= ds);
        }
    }
    while i < n
        invariant
            n == rule@.len(),
            prefix@ == rand_prefix(),
            i <= n,
            forall|ds: Seq<i64>|
                subst_range_from(rule@, draws + ds, 0) == out@ + #[trigger] subst_range_from(rule@, ds, i as int),
            forall|ds: Seq<i64>| #[trigger]
                range_draws_ok(rule@, ds, i as int) ==> range_draws_ok(rule@, draws + ds, 0),
        decreases n - i,
    {
        let ghost pre_draws = draws;
        let ghost pre_out = out@;
        match range_tok_probe(rule, i, &prefix) {
            Some(ends) => {
                let e1 = ends.0;
                let e2 = ends.1;
                let d1v = sub_vec(rule, i + 12, e1);
                let lo = parse_or(&d1v, 0);
                let d2v = sub_vec(rule, e1 + 1, e2);
                let hi = parse_or(&d2v, 0);
                proof {
                    assert(d1v@ == rule@.subrange(i + 12, i + 12 + drun_from(rule@, i + 12)));
                    assert(lo == range_lo(rule@, i as int));
                    assert(hi == range_hi(rule@, i as int));
                }
                let v: i64 = if lo <= hi {
                    draw_inclusive(lo, hi)
                } else {
                    lo
                };
                let dv = crate::numbers::i64_dec(v);
                crate::coerce::extend_vec(&mut out, &dv);
                proof {
                    draws = pre_draws.push(v);
                    assert forall|ds: Seq<i64>|
                        subst_range_from(rule@, draws + ds, 0) == out@ + #[trigger] subst_range_from(rule@, ds, e2 as int) by {
                        let comb = seq![v] + ds;
                        assert(pre_draws + comb =~= draws + ds);
                        assert(subst_range_from(rule@, pre_draws + comb, 0) == pre_out
                            + subst_range_from(rule@, comb, i as int));
                        assert(comb.len() > 0 && comb.first() == v);
                        assert(comb.drop_first() =~= ds);
                        assert(subst_range_from(rule@, comb, i as int) == dec_rep_signed(
                            v as int,
                        ) + subst_range_from(rule@, ds, e2 as int));
                        assert(pre_out + (dec_rep_signed(v as int) + subst_range_from(
                            rule@,
                            ds,
                            e2 as int,
                        )) =~= out@ + subst_range_from(rule@, ds, e2 as int));
                    }
                    assert forall|ds: Seq<i64>| #[trigger]
                        range_draws_ok(rule@, ds, e2 as int) implies range_draws_ok(
                        rule@,
                        draws + ds,
                        0,
                    ) by {
                        let comb = seq![v] + ds;
                        assert(comb.drop_first() =~= ds);
                        assert(comb.first() == v);
                        assert(range_draws_ok(rule@, comb, i as int));
                        assert(pre_draws + comb =~= draws + ds);
                        assert(range_draws_ok(rule@, pre_draws + comb, 0));
                    }
                }
                i = e2;
            },
            None => {
                let c = rule[i];
                out.push(c);
                proof {
                    assert forall|ds: Seq<i64>|
                        subst_range_from(rule@, draws + ds, 0) == out@ + #[trigger] subst_range_from(rule@, ds, i + 1) by {
                        assert(subst_range_from(rule@, draws + ds, 0) == pre_out
                            + subst_range_from(rule@, ds, i as int));
                        assert(subst_range_from(rule@, ds, i as int) == seq![rule@[i as int]]
                            + subst_range_from(rule@, ds, i + 1));
                        assert(pre_out + (seq![rule@[i as int]] + subst_range_from(
                            rule@,
                            ds,
                            i + 1,
                        )) =~= out@ + subst_range_from(rule@, ds, i + 1));
                    }
                    assert forall|ds: Seq<i64>| #[trigger]
                        range_draws_ok(rule@, ds, i + 1) implies range_draws_ok(
                        rule@,
                        draws + ds,
                        0,
                    ) by {
                        assert(range_draws_ok(rule@, ds, i as int));
                    }
                }
                i = i + 1;
            },
        }
    }
    proof {
        let ds = Seq::<i64>::empty();
        assert(subst_range_from(rule@, draws + ds, 0) == out@ + subst_range_from(
            rule@,
            ds,
            n as int,
        ));
        assert(draws + ds =~= draws);
        assert(subst_range_from(rule@, ds, n as int) =~= Seq::<char>::empty());
        assert(out@ + Seq::<char>::empty() =~= out@);
        assert(range_draws_ok(rule@, ds, n as int));
        assert(range_draws_ok(rule@, draws, 0));
        assert(subst_range_from(rule@, draws, 0) == out@);
    }
    out
}

/// The single pass: replace every single token with a fresh draw below
/// its bound, rendered in decimal.  When the bound is not positive,
/// zero is used directly.
pub fn subst_random_single(rule: &Vec<char>) -> (r: Vec<char>)
    ensures
        exists|draws: Seq<i64>|
            single_draws_ok(rule@, draws, 0) && r@ == subst_single_from(rule@, draws, 0),
{
    let n: usize = rule.len();
    let prefix = rand_prefix_vec();
    let mut out: Vec<char> = Vec::new();
    let ghost mut draws: Seq<i64> = Seq::empty();
    let mut i: usize = 0;
    proof {
        assert forall|ds: Seq<i64>| subst_single_from(rule@, draws + ds, 0) == out@
            + #[trigger] subst_single_from(rule@, ds, 0) by {
            assert(draws + ds =~= ds);
            assert(out@ + subst_single_from(rule@, ds, 0) =~= subst_single_from(rule@, ds, 0));
        }
    }
    while i < n
        invariant
            n == rule@.len(),
            prefix@ == rand_prefix(),
            i <= n,
            forall|ds: Seq<i64>|
                subst_single_from(rule@, draws + ds, 0) == out@ + #[trigger] subst_single_from(rule@, ds, i as int),
            forall|ds: Seq<i64>| #[trigger]
                single_draws_ok(rule@, ds, i as int) ==> single_draws_ok(rule@, draws + ds, 0),
        decreases n - i,
    {
        let ghost pre_draws = draws;
        let ghost pre_out = out@;
        match single_tok_probe(rule, i, &prefix) {
            Some(e) => {
                let dv1 = sub_vec(rule, i + 12, e);
                let bound = parse_or(&dv1, 1);
                proof {
                    assert(dv1@ == rule@.subrange(i + 12, i + 12 + drun_from(rule@, i + 12)));
                    assert(bound == single_n(rule@, i as int));
                }
                let v: i64 = if bound >= 1 {
                    draw_inclusive(0, bound - 1)
                } else {
                    0
                };
                let dv = crate::numbers::i64_dec(v);
                crate::coerce::extend_vec(&mut out, &dv);
                proof {
                    draws = pre_draws.push(v);
                    assert forall|ds: Seq<i64>|
                        subst_single_from(rule@, draws + ds, 0) == out@ + #[trigger] subst_single_from(rule@, ds, e as int) by {
                        let comb = seq![v] + ds;
                        assert(pre_draws + comb =~= draws + ds);
                        assert(subst_single_from(rule@, pre_draws + comb, 0) == pre_out
                            + subst_single_from(rule@, comb, i as int));
                        assert(comb.len() > 0 && comb.first() == v);
                        assert(comb.drop_first() =~= ds);
                        assert(subst_single_from(rule@, comb, i as int) == dec_rep_signed(
                            v as int,
                        ) + subst_single_from(rule@, ds, e as int));
                        assert(pre_out + (dec_rep_signed(v as int) + subst_single_from(
                            rule@,
                            ds,
                            e as int,
                        )) =~= out@ + subst_single_from(rule@, ds, e as int));
                    }
                    assert forall|ds: Seq<i64>| #[trigger]
                        single_draws_ok(rule@, ds, e as int) implies single_draws_ok(
                        rule@,
                        draws + ds,
                        0,
                    ) by {
                        let comb = seq![v] + ds;
                        assert(comb.drop_first() =~= ds);
                        assert(comb.first() == v);
                        assert(single_draws_ok(rule@, comb, i as int));
                        assert(pre_draws + comb =~= draws + ds);
                        assert(single_draws_ok(rule@, pre_draws + comb, 0));
                    }
                }
                i = e;
            },
            None => {
                let c = rule[i];
                out.push(c);
                proof {
                    assert forall|ds: Seq<i64>|
                        subst_single_from(rule@, draws + ds, 0) == out@ + #[trigger] subst_single_from(rule@, ds, i + 1) by {
                        assert(subst_single_from(rule@, draws + ds, 0) == pre_out
                            + subst_single_from(rule@, ds, i as int));
                        assert(subst_single_from(rule@, ds, i as int) == seq![rule@[i as int]]
                            + subst_single_from(rule@, ds, i + 1));
                        assert(pre_out + (seq![rule@[i as int]] + subst_single_from(
                            rule@,
                            ds,
                            i + 1,
                        )) =~= out@ + subst_single_from(rule@, ds, i + 1));
                    }
                    assert forall|ds: Seq<i64>| #[trigger]
                        single_draws_ok(rule@, ds, i + 1) implies single_draws_ok(
                        rule@,
                        draws + ds,
                        0,
                    ) by {
                        assert(single_draws_ok(rule@, ds, i as int));
                    }
                }
                i = i + 1;
            },
        }
    }
    proof {
        let ds = Seq::<i64>::empty();
        assert(subst_single_from(rule@, draws + ds, 0) == out@ + subst_single_from(
            rule@,
            ds,
            n as int,
        ));
        assert(draws + ds =~= draws);
        assert(subst_single_from(rule@, ds, n as int) =~= Seq::<char>::empty());
        assert(out@ + Seq::<char>::empty() =~= out@);
        assert(single_draws_ok(rule@, ds, n as int));
        assert(single_draws_ok(rule@, draws, 0));
        assert(subst_single_from(rule@, draws, 0) == out@);
    }
    out
}

/// Value of the last pair with key `k`, as a map filled in order
/// resolves it.
pub open spec fn assoc_last(m: Seq<(Seq<char>, Seq<char>)>, k: Seq<char>) -> Option<Seq<char>>
    decreases m.len(),
{
    if m.len() == 0 {
        None
    } else if m.last().0 == k {
        Some(m.last().1)
    } else {
        assoc_last(m.drop_last(), k)
    }
}

/// The reference pass: each `@name` token becomes the prior cell value
/// recorded under that name, or nothing when no such cell exists.
pub open spec fn subst_refs_from(s: Seq<char>, m: Seq<(Seq<char>, Seq<char>)>, i: int) -> Seq<
    char,
>
    decreases s.len() - i + 1,
        via subst_refs_from_decreases
{
    if i < 0 || i >= s.len() {
        Seq::empty()
    } else if crate::rules::ref_tok_at(s, i) {
        let w = wrun_from(s, i + 1);
        (match assoc_last(m, s.subrange(i + 1, i + 1 + w)) {
            Some(v) => v,
            None => Seq::empty(),
        }) + subst_refs_from(s, m, i + 1 + w)
    } else {
        seq![s[i]] + subst_refs_from(s, m, i + 1)
    }
}

#[via_fn]
proof fn subst_refs_from_decreases(s: Seq<char>, m: Seq<(Seq<char>, Seq<char>)>, i: int) {
    lemma_wrun_from(s, i + 1);
}

/// The id-to-name pairs of the columns, in column order.
pub open spec fn id_name_pairs(cols: Seq<Column>) -> Seq<(Seq<char>, Seq<char>)>
    decreases cols.len(),
{
    if cols.len() == 0 {
        Seq::empty()
    } else {
        id_name_pairs(cols.drop_last()) + (match cols.last().id {
            Some(id) => seq![(dec_rep_signed(id as int), cols.last().name@)],
            None => Seq::empty(),
        })
    }
}

/// The name-to-value pairs of the prior cells, in cell order; a cell
/// whose column id resolves to no column is dropped.
pub open spec fn name_value_pairs(cols: Seq<Column>, data: Seq<RowData>) -> Seq<(
    Seq<char>,
    Seq<char>,
)>
    decreases data.len(),
{
    if data.len() == 0 {
        Seq::empty()
    } else {
        name_value_pairs(cols, data.drop_last()) + (match assoc_last(
            id_name_pairs(cols),
            data.last().column_id@,
        ) {
            Some(nm) => seq![(nm, data.last().value@)],
            None => Seq::empty(),
        })
    }
}

/// The executable map mirrors the ghost pairs, entry by entry.
pub open spec fn map_matches(m: Seq<(Vec<char>, Vec<char>)>, g: Seq<(Seq<char>, Seq<char>)>) -> bool {
    m.len() == g.len() && forall|k: int|
        0 <= k < m.len() ==> (#[trigger] m[k]).0@ == g[k].0 && m[k].1@ == g[k].1
}

/// Copy a character vector.
fn copy_chars(v: &Vec<char>) -> (r: Vec<char>)
    ensures
        r@ == v@,
{
    let r = sub_vec(v, 0, v.len());
    assert(r@ =~= v@);
    r
}

/// Look up the last pair with the given key.
fn assoc_last_vec(m: &Vec<(Vec<char>, Vec<char>)>, key: &Vec<char>, Ghost(g): Ghost<
    Seq<(Seq<char>, Seq<char>)>,
>) -> (r: Option<Vec<char>>)
    requires
        map_matches(m@, g),
    ensures
        match r {
            Some(v) => assoc_last(g, key@) == Some(v@),
            None => assoc_last(g, key@) is None,
        },
{
    let mut i: usize = m.len();
    proof {
        assert(g.take(g.len() as int) =~= g);
    }
    while i > 0
        invariant
            map_matches(m@, g),
            i <= m@.len(),
            assoc_last(g, key@) == assoc_last(g.take(i as int), key@),
        decreases i,
    {
        proof {
            assert(g.take(i as int).last() == g[i - 1]);
            assert(g.take(i as int).drop_last() =~= g.take(i - 1));
        }
        if crate::sorter::chars_eq(&m[i - 1].0, key) {
            return Some(copy_chars(&m[i - 1].1));
        }
        i = i - 1;
    }
    assert(g.take(0) =~= Seq::<(Seq<char>, Seq<char>)>::empty());
    None
}

/// Build the name-to-value map of the prior cells.
fn build_cell_map(columns: &Vec<Column>, row_data: &Vec<RowData>) -> (m: Vec<(
    Vec<char>,
    Vec<char>,
)>)
    ensures
        map_matches(m@, name_value_pairs(columns@, row_data@)),
{
    // id-to-name pairs first
    let cn: usize = columns.len();
    let mut idm: Vec<(Vec<char>, Vec<char>)> = Vec::new();
    let mut i: usize = 0;
    proof {
        assert(columns@.take(0) =~= Seq::<Column>::empty());
    }
    while i < cn
        invariant
            cn == columns@.len(),
            i <= cn,
            map_matches(idm@, id_name_pairs(columns@.take(i as int))),
        decreases cn - i,
    {
        proof {
            assert(columns@.take(i + 1).drop_last() =~= columns@.take(i as int));
            assert(columns@.take(i + 1).last() == columns@[i as int]);
        }
        match columns[i].id {
            Some(id) => {
                let key = crate::numbers::i64_dec(id);
                let nm = str_chars(columns[i].name.as_str());
                idm.push((key, nm));
            },
            None => {},
        }
        i = i + 1;
    }
    proof {
        assert(columns@.take(cn as int) =~= columns@);
    }
    let ghost idg = id_name_pairs(columns@);
    // then the name-to-value pairs of the cells
    let dn: usize = row_data.len();
    let mut m: Vec<(Vec<char>, Vec<char>)> = Vec::new();
    let mut j: usize = 0;
    proof {
        assert(row_data@.take(0) =~= Seq::<RowData>::empty());
    }
    while j < dn
        invariant
            dn == row_data@.len(),
            j <= dn,
            map_matches(idm@, idg),
            idg == id_name_pairs(columns@),
            map_matches(m@, name_value_pairs(columns@, row_data@.take(j as int))),
        decreases dn - j,
    {
        proof {
            assert(row_data@.take(j + 1).drop_last() =~= row_data@.take(j as int));
            assert(row_data@.take(j + 1).last() == row_data@[j as int]);
        }
        let key = str_chars(row_data[j].column_id.as_str());
        match assoc_last_vec(&idm, &key, Ghost(idg)) {
            Some(nm) => {
                let value = str_chars(row_data[j].value.as_str());
                m.push((nm, value));
            },
            None => {},
        }
        j = j + 1;
    }
    proof {
        assert(row_data@.take(dn as int) =~= row_data@);
    }
    m
}

/// The reference pass: substitute prior cell values for `@name` tokens.
pub fn subst_column_refs(rule: &Vec<char>, columns: &Vec<Column>, row_data: &Vec<RowData>) -> (r:
    Vec<char>)
    ensures
        r@ == subst_refs_from(rule@, name_value_pairs(columns@, row_data@), 0),
{
    let m = build_cell_map(columns, row_data);
    let ghost g = name_value_pairs(columns@, row_data@);
    let n: usize = rule.len();
    let mut out: Vec<char> = Vec::new();
    let mut i: usize = 0;
    proof {
        assert(out@ + subst_refs_from(rule@, g, 0) =~= subst_refs_from(rule@, g, 0));
    }
    while i < n
        invariant
            n == rule@.len(),
            i <= n,
            map_matches(m@, g),
            g == name_value_pairs(columns@, row_data@),
            subst_refs_from(rule@, g, 0) == out@ + subst_refs_from(rule@, g, i as int),
        decreases n - i,
    {
        let ghost pre_out = out@;
        if rule[i] == '@' && i + 1 < n && is_word(rule[i + 1]) {
            proof {
                lemma_wrun_from(rule@, i + 1);
                assert(wrun_from(rule@, i + 1) >= 1);
                assert(crate::rules::ref_tok_at(rule@, i as int));
            }
            let e = crate::rules::wrun_end(rule, i + 1);
            let name = sub_vec(rule, i + 1, e);
            match assoc_last_vec(&m, &name, Ghost(g)) {
                Some(v) => {
                    crate::coerce::extend_vec(&mut out, &v);
                    proof {
                        assert(pre_out + (v@ + subst_refs_from(rule@, g, e as int)) =~= out@
                            + subst_refs_from(rule@, g, e as int));
                    }
                },
                None => {
                    proof {
                        assert(pre_out + (Seq::<char>::empty() + subst_refs_from(
                            rule@,
                            g,
                            e as int,
                        )) =~= out@ + subst_refs_from(rule@, g, e as int));
                    }
                },
            }
            i = e;
        } else {
            proof {
                assert(!crate::rules::ref_tok_at(rule@, i as int));
            }
            out.push(rule[i]);
            proof {
                assert(pre_out + (seq![rule@[i as int]] + subst_refs_from(rule@, g, i + 1))
                    =~= out@ + subst_refs_from(rule@, g, i + 1));
            }
            i = i + 1;
        }
    }
    proof {
        assert(subst_refs_from(rule@, g, n as int) =~= Seq::<char>::empty());
        assert(out@ + Seq::<char>::empty() =~= out@);
    }
    out
}

/// `s` with every occurrence of `pat` replaced by `rep`, scanning
/// leftmost first; the replacement itself is not rescanned.
pub open spec fn replace_all_spec(s: Seq<char>, pat: Seq<char>, rep: Seq<char>) -> Seq<char>
    decreases s.len(),
        when pat.len() > 0
        via replace_all_spec_decreases
{
    match find_sub_spec(s, pat) {
        Some(k) => s.take(k) + rep + replace_all_spec(s.skip(k + pat.len()), pat, rep),
        None => s,
    }
}

#[via_fn]
proof fn replace_all_spec_decreases(s: Seq<char>, pat: Seq<char>, rep: Seq<char>) {
    lemma_find_from(s, pat, 0);
}

/// `s` with every occurrence of `pat` replaced by `rep`.
pub fn replace_all_vec(s: &Vec<char>, pat: &Vec<char>, rep: &Vec<char>) -> (r: Vec<char>)
    requires
        pat@.len() > 0,
    ensures
        r@ == replace_all_spec(s@, pat@, rep@),
{
    let mut out: Vec<char> = Vec::new();
    let mut cur = copy_chars(s);
    proof {
        assert(out@ + replace_all_spec(cur@, pat@, rep@) =~= replace_all_spec(s@, pat@, rep@));
    }
    loop
        invariant_except_break
            pat@.len() > 0,
            out@ + replace_all_spec(cur@, pat@, rep@) == replace_all_spec(s@, pat@, rep@),
        ensures
            out@ == replace_all_spec(s@, pat@, rep@),
        decreases cur@.len(),
    {
        let ghost pre_out = out@;
        let ghost pre_cur = cur@;
        match find_sub(&cur, pat) {
            Some(k) => {
                proof {
                    lemma_find_from(pre_cur, pat@, 0);
                    assert(matches_at(pre_cur, pat@, k as int));
                    assert(k + pat@.len() <= cur@.len());
                }
                let cn: usize = cur.len();
                let head = sub_vec(&cur, 0, k);
                crate::coerce::extend_vec(&mut out, &head);
                crate::coerce::extend_vec(&mut out, rep);
                let next = sub_vec(&cur, k + pat.len(), cn);
                proof {
                    assert(head@ =~= pre_cur.take(k as int));
                    assert(next@ =~= pre_cur.skip(k + pat@.len()));
                    assert(pre_out + pre_cur.take(k as int) + rep@ + replace_all_spec(
                        pre_cur.skip(k + pat@.len()),
                        pat@,
                        rep@,
                    ) =~= pre_out + replace_all_spec(pre_cur, pat@, rep@));
                }
                cur = next;
            },
            None => {
                crate::coerce::extend_vec(&mut out, &cur);
                assert(replace_all_spec(pre_cur, pat@, rep@) == pre_cur);
                break;
            },
        }
    }
    out
}

/// The fixed chat template that carries the system instruction, the
/// column's name, its processed rule, and the format hint.
pub open spec fn template_chars() -> Seq<char> {
    "<|begin_of_text|><|start_header_id|>system<|end_header_id|>\nYou are a data generator. You must respond with ONLY the requested value. No explanations, no code, no markdown, no extra text.<|eot_id|>\n\n<|start_header_id|>user<|end_header_id|>\nGenerate a {format} value for column \"{column_name}\".\n\nRule: {column_rule}\n\nCRITICAL:\n- If the rule references other values from the same record, your response MUST be logically consistent with those values\n- Reply with a SINGLE LINE only - no newlines, no extra content\n- Output ONLY the raw value, nothing else\n\n<|eot_id|>\n\n<|start_header_id|>assistant<|end_header_id|>\n"@
}

/// The format hint: the raw type tag, except that JSON columns ask for
/// a well-formed structure and carry the column's structural details.
pub open spec fn fmt_hint(ct: Seq<char>, details: Seq<char>) -> Seq<char> {
    if ct == "JSON"@ {
        "well formatted "@ + ct + " structure, structure details: "@ + details
    } else {
        ct
    }
}

/// The structural details of a column, or nothing.
pub open spec fn detail_text(d: Option<String>) -> Seq<char> {
    match d {
        Some(x) => x@,
        None => Seq::empty(),
    }
}

/// The finished prompt: the template with the column name, processed
/// rule and format hint substituted, in that order.
pub open spec fn prompt_text(name: Seq<char>, rule: Seq<char>, fmt: Seq<char>) -> Seq<char> {
    replace_all_spec(
        replace_all_spec(
            replace_all_spec(template_chars(), "{column_name}"@, name),
            "{column_rule}"@,
            rule,
        ),
        "{format}"@,
        fmt,
    )
}

/// Assemble the prompt for one cell: run the three substitution passes
/// over the column's rule — range random tokens, then single random
/// tokens, then references to prior cells — and fill the chat template
/// with the column's name, the processed rule, and the format hint.
pub fn prepare_prompt(columns: &Vec<Column>, for_column: &Column, row_data: &Vec<RowData>) -> (r:
    String)
    ensures
        exists|d1: Seq<i64>, d2: Seq<i64>|
            {
                &&& #[trigger] range_draws_ok(for_column.rules@, d1, 0)
                &&& #[trigger] single_draws_ok(subst_range_from(for_column.rules@, d1, 0), d2, 0)
                &&& r@ == prompt_text(
                    for_column.name@,
                    subst_refs_from(
                        subst_single_from(subst_range_from(for_column.rules@, d1, 0), d2, 0),
                        name_value_pairs(columns@, row_data@),
                        0,
                    ),
                    fmt_hint(for_column.column_type@, detail_text(for_column.column_type_details)),
                )
            },
{
    let rule_chars = str_chars(for_column.rules.as_str());
    let s1 = subst_random_range(&rule_chars);
    let ghost d1 = choose|d: Seq<i64>|
        range_draws_ok(rule_chars@, d, 0) && s1@ == subst_range_from(rule_chars@, d, 0);
    let s2 = subst_random_single(&s1);
    let ghost d2 = choose|d: Seq<i64>|
        single_draws_ok(s1@, d, 0) && s2@ == subst_single_from(s1@, d, 0);
    let s3 = subst_column_refs(&s2, columns, row_data);
    // format hint
    let ct = str_chars(for_column.column_type.as_str());
    let json_tag = str_chars("JSON");
    let fmt: Vec<char> = if crate::sorter::chars_eq(&ct, &json_tag) {
        let mut f = str_chars("well formatted ");
        crate::coerce::extend_vec(&mut f, &ct);
        let mid = str_chars(" structure, structure details: ");
        crate::coerce::extend_vec(&mut f, &mid);
        let details: Vec<char> = match &for_column.column_type_details {
            Some(d) => str_chars(d.as_str()),
            None => Vec::new(),
        };
        crate::coerce::extend_vec(&mut f, &details);
        proof {
            assert(f@ =~= fmt_hint(
                for_column.column_type@,
                detail_text(for_column.column_type_details),
            ));
        }
        f
    } else {
        ct
    };
    // template fill
    let tpl = str_chars(
        "<|begin_of_text|><|start_header_id|>system<|end_header_id|>\nYou are a data generator. You must respond with ONLY the requested value. No explanations, no code, no markdown, no extra text.<|eot_id|>\n\n<|start_header_id|>user<|end_header_id|>\nGenerate a {format} value for column \"{column_name}\".\n\nRule: {column_rule}\n\nCRITICAL:\n- If the rule references other values from the same record, your response MUST be logically consistent with those values\n- Reply with a SINGLE LINE only - no newlines, no extra content\n- Output ONLY the raw value, nothing else\n\n<|eot_id|>\n\n<|start_header_id|>assistant<|end_header_id|>\n",
    );
    let name_chars = str_chars(for_column.name.as_str());
    let pat_name = str_chars("{column_name}");
    let pat_rule = str_chars("{column_rule}");
    let pat_fmt = str_chars("{format}");
    proof {
        reveal_strlit("{column_name}");
        reveal_strlit("{column_rule}");
        reveal_strlit("{format}");
    }
    let t1 = replace_all_vec(&tpl, &pat_name, &name_chars);
    let t2 = replace_all_vec(&t1, &pat_rule, &s3);
    let t3 = replace_all_vec(&t2, &pat_fmt, &fmt);
    chars_to_string(&t3)
}

/// Parse a digit run, falling back to `default` when the value does not
/// fit.
fn parse_or(digits: &Vec<char>, default: i64) -> (r: i64)
    ensures
        r == (match parse_i64_spec(digits@) {
            Some(v) => v,
            None => default,
        }),
{
    match parse_i64(digits) {
        Some(v) => v,
        None => default,
    }
}

} // verus!

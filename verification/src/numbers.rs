//! Decimal rendering and parsing, specified exactly.  Cell values are
//! stored as strings, so the engine needs a verified bridge between `i64`
//! and its decimal form, and an exact account of which strings parse.

use vstd::prelude::*;
use crate::chars::is_digit_char;

verus! {

/// Numeric value of a decimal digit.
pub open spec fn digit_val(c: char) -> int {
    c as int - '0' as int
}

/// The digit character for `d` (0 through 9).
pub open spec fn digit_char(d: int) -> char {
    if d == 0 { '0' }
    else if d == 1 { '1' }
    else if d == 2 { '2' }
    else if d == 3 { '3' }
    else if d == 4 { '4' }
    else if d == 5 { '5' }
    else if d == 6 { '6' }
    else if d == 7 { '7' }
    else if d == 8 { '8' }
    else { '9' }
}

/// Every character of `s` is a decimal digit.
pub open spec fn all_digits(s: Seq<char>) -> bool {
    forall|k: int| 0 <= k < s.len() ==> is_digit_char(s[k])
}

/// Value of a digit string, most significant digit first.
pub open spec fn digits_val(s: Seq<char>) -> int
    decreases s.len(),
{
    if s.len() == 0 {
        0
    } else {
        digits_val(s.drop_last()) * 10 + digit_val(s.last())
    }
}

/// The value of a digit string is non-negative and grows with its digits.
pub proof fn lemma_digits_val_bounds(s: Seq<char>)
    requires
        all_digits(s),
    ensures
        digits_val(s) >= 0,
        s.len() > 0 ==> digits_val(s) >= digit_val(s.last()),
    decreases s.len(),
{
    if s.len() > 0 {
        assert(all_digits(s.drop_last()));
        lemma_digits_val_bounds(s.drop_last());
    }
}

/// Decimal representation of a non-negative number.
pub open spec fn dec_rep(n: int) -> Seq<char>
    decreases n,
{
    if n < 10 {
        seq![digit_char(n)]
    } else {
        dec_rep(n / 10).push(digit_char(n % 10))
    }
}

/// Decimal representation of a signed number.
pub open spec fn dec_rep_signed(v: int) -> Seq<char> {
    if v < 0 {
        seq!['-'] + dec_rep(-v)
    } else {
        dec_rep(v)
    }
}

/// The digit character for `d`.
pub fn digit_char_of(d: u64) -> (c: char)
    requires
        d < 10,
    ensures
        c == digit_char(d as int),
{
    if d == 0 { '0' }
    else if d == 1 { '1' }
    else if d == 2 { '2' }
    else if d == 3 { '3' }
    else if d == 4 { '4' }
    else if d == 5 { '5' }
    else if d == 6 { '6' }
    else if d == 7 { '7' }
    else if d == 8 { '8' }
    else { '9' }
}

/// Decimal digits of `n`.
pub fn u64_dec(n: u64) -> (r: Vec<char>)
    ensures
        r@ == dec_rep(n as int),
    decreases n,
{
    if n < 10 {
        let mut r: Vec<char> = Vec::new();
        r.push(digit_char_of(n));
        assert(r@ =~= dec_rep(n as int));
        r
    } else {
        let mut r = u64_dec(n / 10);
        r.push(digit_char_of(n % 10));
        r
    }
}

/// Decimal form of a signed number, as characters.
pub fn i64_dec(v: i64) -> (r: Vec<char>)
    ensures
        r@ == dec_rep_signed(v as int),
{
    if v >= 0 {
        u64_dec(v as u64)
    } else {
        let mag: u64 = if v == i64::MIN {
            9223372036854775808u64
        } else {
            (-v) as u64
        };
        let digits = u64_dec(mag);
        let mut r: Vec<char> = Vec::new();
        r.push('-');
        let mut i: usize = 0;
        let n: usize = digits.len();
        while i < n
            invariant
                n == digits@.len(),
                i <= n,
                r@ == seq!['-'] + digits@.subrange(0, i as int),
            decreases n - i,
        {
            r.push(digits[i]);
            assert(r@ =~= seq!['-'] + digits@.subrange(0, i + 1 as int));
            i = i + 1;
        }
        assert(digits@.subrange(0, n as int) =~= digits@);
        r
    }
}

/// Decimal form of a signed number, as a `String`.
pub fn i64_to_string(v: i64) -> (r: String)
    ensures
        r@ == dec_rep_signed(v as int),
{
    let digits = i64_dec(v);
    crate::chars::chars_to_string(&digits)
}

/// Shape of a signed integer literal: optional sign, then digits only.
pub open spec fn int_literal_ok(s: Seq<char>) -> bool {
    let body = if s.len() > 0 && (s[0] == '+' || s[0] == '-') { s.skip(1) } else { s };
    body.len() > 0 && all_digits(body)
}

/// Value of a signed integer literal.
pub open spec fn int_literal_val(s: Seq<char>) -> int {
    if s.len() > 0 && s[0] == '-' {
        -digits_val(s.skip(1))
    } else if s.len() > 0 && s[0] == '+' {
        digits_val(s.skip(1))
    } else {
        digits_val(s)
    }
}

/// What `str::parse::<i64>` accepts: a well-formed literal whose value
/// fits in the type.
pub open spec fn parse_i64_spec(s: Seq<char>) -> Option<i64> {
    if int_literal_ok(s) && i64::MIN <= int_literal_val(s) <= i64::MAX {
        Some(int_literal_val(s) as i64)
    } else {
        None
    }
}

/// Extending a digit string multiplies its value by ten and adds the digit.
pub proof fn lemma_digits_val_step(s: Seq<char>, j: int)
    requires
        0 <= j < s.len(),
    ensures
        digits_val(s.take(j + 1)) == digits_val(s.take(j)) * 10 + digit_val(s[j]),
{
    assert(s.take(j + 1).drop_last() =~= s.take(j));
    assert(s.take(j + 1).last() == s[j]);
}

/// A longer all-digit prefix never has a smaller value.
pub proof fn lemma_digits_val_mono(s: Seq<char>, j: int)
    requires
        all_digits(s),
        0 <= j <= s.len(),
    ensures
        digits_val(s) >= digits_val(s.take(j)),
    decreases s.len() - j,
{
    assert(all_digits(s.take(j))) by {
        assert(forall|k: int| 0 <= k < j ==> s.take(j)[k] == s[k]);
    }
    lemma_digits_val_bounds(s.take(j));
    if j == s.len() {
        assert(s.take(j) =~= s);
    } else {
        lemma_digits_val_step(s, j);
        lemma_digits_val_mono(s, j + 1);
        assert(digits_val(s.take(j + 1)) >= digits_val(s.take(j))) by {
            lemma_digits_val_bounds(s.take(j));
            assert(digit_val(s[j]) >= 0);
            assert(digits_val(s.take(j)) * 10 >= digits_val(s.take(j))) by (nonlinear_arith)
                requires digits_val(s.take(j)) >= 0;
        }
    }
}

/// Parse a signed decimal integer, exactly as `str::parse::<i64>` does on
/// strings of sign and digit characters: `None` on malformed input or when
/// the value does not fit.
pub fn parse_i64(s: &Vec<char>) -> (r: Option<i64>)
    ensures
        r == parse_i64_spec(s@),
{
    let n: usize = s.len();
    if n == 0 {
        return None;
    }
    let c0 = s[0];
    let neg: bool = c0 == '-';
    let start: usize = if c0 == '-' || c0 == '+' { 1 } else { 0 };
    if n == start {
        // sign with no digits
        assert(int_literal_ok(s@) == false) by {
            if s@[0] == '+' || s@[0] == '-' {
                assert(s@.skip(1).len() == 0);
            }
        }
        return None;
    }
    let ghost body = if s@[0] == '+' || s@[0] == '-' { s@.skip(1) } else { s@ };
    assert(body =~= s@.subrange(start as int, n as int));
    // magnitude bound: one past i64::MAX, so that i64::MIN is representable
    let bound: u128 = 9223372036854775808u128;
    let mut mag: u128 = 0;
    let mut i: usize = start;
    while i < n
        invariant
            n == s@.len(),
            start <= i <= n,
            start < n,
            start == 0 || start == 1,
            bound == 9223372036854775808u128,
            body == s@.subrange(start as int, n as int),
            body == (if s@[0] == '+' || s@[0] == '-' { s@.skip(1) } else { s@ }),
            (start == 1) == (s@[0] == '+' || s@[0] == '-'),
            neg == (s@[0] == '-'),
            mag <= bound,
            all_digits(body.take(i - start)),
            mag as int == digits_val(body.take(i - start)),
        decreases n - i,
    {
        let c = s[i];
        if !('0' <= c && c <= '9') {
            // a non-digit anywhere in the body makes the literal malformed
            assert(!int_literal_ok(s@)) by {
                assert(body[i - start] == s@[i as int]);
                assert(!is_digit_char(body[i - start]));
            }
            return None;
        }
        let d: u128 = (c as u32 as u128) - ('0' as u32 as u128);
        proof {
            assert(c as int - '0' as int == digit_val(c));
            assert(0 <= digit_val(c) < 10);
        }
        if mag > (bound - d) / 10 {
            // the magnitude already exceeds what fits in an i64; digits can
            // only grow it, and a later non-digit fails the parse anyway
            proof {
                lemma_digits_val_step(body, i - start);
                assert(mag * 10 + d > bound) by (nonlinear_arith)
                    requires
                        mag > (bound - d) / 10,
                        0 <= d < 10,
                        bound == 9223372036854775808u128,
                ;
                if int_literal_ok(s@) {
                    assert(all_digits(body));
                    lemma_digits_val_mono(body, i - start + 1);
                    assert(int_literal_val(s@) == if s@[0] == '-' { -digits_val(body) } else { digits_val(body) });
                    assert(digits_val(body) >= digits_val(body.take(i - start + 1)));
                    assert(digits_val(body) > bound);
                }
            }
            return None;
        }
        proof {
            assert(mag * 10 + d <= bound) by (nonlinear_arith)
                requires
                    mag <= (bound - d) / 10,
                    0 <= d < 10,
                    bound == 9223372036854775808u128,
            ;
            lemma_digits_val_step(body, i - start);
            assert(body[i - start] == s@[i as int]);
        }
        mag = mag * 10 + d;
        assert(body.take(i - start + 1).drop_last() =~= body.take(i - start));
        i = i + 1;
    }
    proof {
        assert(body.take(n - start) =~= body);
        assert(int_literal_ok(s@));
    }
    if neg {
        if mag == bound {
            assert(int_literal_val(s@) == -(bound as int));
            return Some(i64::MIN);
        }
        let m: i64 = mag as i64;
        return Some(-m);
    }
    if mag == bound {
        // +9223372036854775808 does not fit
        assert(int_literal_val(s@) > i64::MAX);
        return None;
    }
    Some(mag as i64)
}

} // verus!

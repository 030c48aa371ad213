//! Scalar post-processors.  A raw model response is coerced to the
//! column's declared type: the leading numeric run is parsed for `INT`
//! and `FLOAT` columns, and booleans accept exactly the literal `true`.
//! Scalar coercion never fails: malformed responses degrade to the
//! type's default.

use vstd::prelude::*;
use crate::chars::{is_digit_char, trim_spec, str_chars, trim_vec};

verus! {

/// A character the numeric-prefix scanner collects.
pub open spec fn is_num_char(c: char) -> bool {
    is_digit_char(c) || c == '.' || c == '-' || c == '+'
}

/// Number of leading characters that are not numeric.
pub open spec fn num_start(s: Seq<char>) -> int
    decreases s.len(),
{
    if s.len() > 0 && !is_num_char(s.first()) {
        1 + num_start(s.drop_first())
    } else {
        0
    }
}

/// Length of the numeric run at the front of `s`.
pub open spec fn num_run(s: Seq<char>) -> int
    decreases s.len(),
{
    if s.len() > 0 && is_num_char(s.first()) {
        1 + num_run(s.drop_first())
    } else {
        0
    }
}

/// The contiguous numeric prefix: the run of digit, dot and sign
/// characters starting at the first such character of `s`.
pub open spec fn num_prefix(s: Seq<char>) -> Seq<char> {
    let a = num_start(s);
    s.subrange(a, a + num_run(s.skip(a)))
}

/// `num_start` is the index of the first numeric character.
pub proof fn lemma_num_start(s: Seq<char>)
    ensures
        0 <= num_start(s) <= s.len(),
        forall|k: int| 0 <= k < num_start(s) ==> !is_num_char(s[k]),
        num_start(s) < s.len() ==> is_num_char(s[num_start(s)]),
    decreases s.len(),
{
    if s.len() > 0 && !is_num_char(s.first()) {
        lemma_num_start(s.drop_first());
        let t = s.drop_first();
        assert forall|k: int| 0 <= k < num_start(s) implies !is_num_char(s[k]) by {
            if k > 0 {
                assert(s[k] == t[k - 1]);
            }
        }
        if num_start(s) < s.len() {
            assert(s[num_start(s)] == t[num_start(t)]);
        }
    }
}

/// `num_run` is the length of the maximal numeric run at the front.
pub proof fn lemma_num_run(s: Seq<char>)
    ensures
        0 <= num_run(s) <= s.len(),
        forall|k: int| 0 <= k < num_run(s) ==> is_num_char(s[k]),
        num_run(s) < s.len() ==> !is_num_char(s[num_run(s)]),
    decreases s.len(),
{
    if s.len() > 0 && is_num_char(s.first()) {
        lemma_num_run(s.drop_first());
        let t = s.drop_first();
        assert forall|k: int| 0 <= k < num_run(s) implies is_num_char(s[k]) by {
            if k > 0 {
                assert(s[k] == t[k - 1]);
            }
        }
        if num_run(s) < s.len() {
            assert(s[num_run(s)] == t[num_run(t)]);
        }
    }
}

/// Is `c` a character the numeric scanner collects?
fn is_num(c: char) -> (r: bool)
    ensures
        r == is_num_char(c),
{
    ('0' <= c && c <= '9') || c == '.' || c == '-' || c == '+'
}

/// Collect the contiguous numeric prefix of `s`, as the integer and float
/// post-processors do: scan to the first digit, dot or sign character,
/// then take the maximal run of such characters.
pub fn extract_numeric_prefix(s: &Vec<char>) -> (r: Vec<char>)
    ensures
        r@ == num_prefix(s@),
{
    let n: usize = s.len();
    proof {
        lemma_num_start(s@);
        lemma_num_run(s@.skip(num_start(s@)));
    }
    let mut a: usize = 0;
    while a < n && !is_num(s[a])
        invariant
            n == s@.len(),
            a <= n,
            0 <= num_start(s@) <= n,
            forall|k: int| 0 <= k < num_start(s@) ==> !is_num_char(s@[k]),
            num_start(s@) < n ==> is_num_char(s@[num_start(s@)]),
            a <= num_start(s@),
        decreases n - a,
    {
        a = a + 1;
    }
    assert(a as int == num_start(s@));
    let ghost tail = s@.skip(a as int);
    let mut e: usize = a;
    while e < n && is_num(s[e])
        invariant
            n == s@.len(),
            a <= e <= n,
            tail == s@.skip(a as int),
            0 <= num_run(tail) <= tail.len(),
            forall|k: int| 0 <= k < num_run(tail) ==> is_num_char(tail[k]),
            num_run(tail) < tail.len() ==> !is_num_char(tail[num_run(tail)]),
            e - a <= num_run(tail),
        decreases n - e,
    {
        assert(s@[e as int] == tail[e - a]);
        e = e + 1;
    }
    proof {
        if e < n {
            assert(s@[e as int] == tail[e - a]);
        }
        assert(e - a == num_run(tail));
    }
    crate::chars::sub_vec(s, a, e)
}

/// The literal without its optional leading sign.
pub open spec fn lit_body(s: Seq<char>) -> Seq<char> {
    if s.len() > 0 && (s[0] == '+' || s[0] == '-') {
        s.skip(1)
    } else {
        s
    }
}

/// Index of the first dot of `b`, or its length.
pub open spec fn dot_idx(b: Seq<char>) -> int
    decreases b.len(),
{
    if b.len() > 0 && b.first() != '.' {
        1 + dot_idx(b.drop_first())
    } else {
        0
    }
}

/// `dot_idx` finds the first dot.
pub proof fn lemma_dot_idx(b: Seq<char>)
    ensures
        0 <= dot_idx(b) <= b.len(),
        forall|k: int| 0 <= k < dot_idx(b) ==> b[k] != '.',
        dot_idx(b) < b.len() ==> b[dot_idx(b)] == '.',
    decreases b.len(),
{
    if b.len() > 0 && b.first() != '.' {
        lemma_dot_idx(b.drop_first());
        let t = b.drop_first();
        assert forall|k: int| 0 <= k < dot_idx(b) implies b[k] != '.' by {
            if k > 0 {
                assert(b[k] == t[k - 1]);
            }
        }
        if dot_idx(b) < b.len() {
            assert(b[dot_idx(b)] == t[dot_idx(t)]);
        }
    }
}

/// Digits before the first dot.
pub open spec fn int_part(b: Seq<char>) -> Seq<char> {
    b.take(dot_idx(b))
}

/// Digits after the first dot (empty when there is no dot).
pub open spec fn frac_part(b: Seq<char>) -> Seq<char> {
    if dot_idx(b) < b.len() {
        b.skip(dot_idx(b) + 1)
    } else {
        Seq::empty()
    }
}

/// Shape of a decimal literal as `str::parse::<f64>` accepts it on sign,
/// digit and dot characters: an optional sign, at most one dot, at least
/// one digit, and nothing else.
pub open spec fn float_literal_ok(s: Seq<char>) -> bool {
    let b = lit_body(s);
    crate::numbers::all_digits(int_part(b)) && crate::numbers::all_digits(frac_part(b))
        && int_part(b).len() + frac_part(b).len() > 0
}

/// Magnitude of a literal body rounded half away from zero: the integer
/// part, plus one when the first fractional digit is five or more.
pub open spec fn round_half_mag(b: Seq<char>) -> int {
    crate::numbers::digits_val(int_part(b)) + if frac_part(b).len() > 0
        && crate::numbers::digit_val(frac_part(b)[0]) >= 5 { 1int } else { 0int }
}

/// Clamp a mathematical integer into the `i64` range.
pub open spec fn clamp_i64(v: int) -> i64 {
    if v > i64::MAX {
        i64::MAX
    } else if v < i64::MIN {
        i64::MIN
    } else {
        v as i64
    }
}

/// Integer coercion: take the numeric prefix, interpret it as a decimal
/// literal, round half away from zero, clamp into range; malformed input
/// degrades to zero.
pub open spec fn coerce_int_spec(raw: Seq<char>) -> i64 {
    let p = num_prefix(raw);
    if float_literal_ok(p) {
        if p[0] == '-' {
            clamp_i64(-round_half_mag(lit_body(p)))
        } else {
            clamp_i64(round_half_mag(lit_body(p)))
        }
    } else {
        0
    }
}

/// Is every character of `v` a decimal digit?
pub fn all_digits_vec(v: &Vec<char>) -> (r: bool)
    ensures
        r == crate::numbers::all_digits(v@),
{
    let n: usize = v.len();
    let mut i: usize = 0;
    while i < n
        invariant
            n == v@.len(),
            i <= n,
            forall|k: int| 0 <= k < i ==> is_digit_char(v@[k]),
        decreases n - i,
    {
        let c = v[i];
        if !('0' <= c && c <= '9') {
            assert(!is_digit_char(v@[i as int]));
            return false;
        }
        i = i + 1;
    }
    true
}

/// Value of a digit string, saturated just above the `i64` magnitude
/// range: exact up to `2^63 + 1`, and pinned at `2^63 + 1` beyond it.
fn digits_mag_capped(v: &Vec<char>) -> (r: u128)
    requires
        crate::numbers::all_digits(v@),
    ensures
        crate::numbers::digits_val(v@) <= 9223372036854775809u128 ==> r as int == crate::numbers::digits_val(v@),
        crate::numbers::digits_val(v@) > 9223372036854775809u128 ==> r == 9223372036854775809u128,
{
    let cap: u128 = 9223372036854775809u128;
    let n: usize = v.len();
    let mut mag: u128 = 0;
    let mut i: usize = 0;
    proof {
        crate::numbers::lemma_digits_val_bounds(v@);
    }
    while i < n
        invariant
            n == v@.len(),
            i <= n,
            cap == 9223372036854775809u128,
            crate::numbers::all_digits(v@),
            mag <= cap,
            crate::numbers::digits_val(v@.take(i as int)) <= cap as int ==> mag as int == crate::numbers::digits_val(v@.take(i as int)),
            crate::numbers::digits_val(v@.take(i as int)) > cap as int ==> mag == cap,
        decreases n - i,
    {
        let c = v[i];
        assert(is_digit_char(v@[i as int]));
        let d: u128 = (c as u32 as u128) - ('0' as u32 as u128);
        proof {
            assert(c as int - '0' as int == crate::numbers::digit_val(c));
            assert(0 <= crate::numbers::digit_val(c) < 10);
            crate::numbers::lemma_digits_val_step(v@, i as int);
            lemma_take_all_digits(v@, i as int);
            crate::numbers::lemma_digits_val_bounds(v@.take(i as int));
        }
        let ghost prev = crate::numbers::digits_val(v@.take(i as int));
        let ghost next = crate::numbers::digits_val(v@.take(i + 1));
        let ghost mag0 = mag;
        if mag > (cap - d) / 10 {
            mag = cap;
            proof {
                if prev <= cap as int {
                    assert(prev * 10 + d as int > cap as int) by (nonlinear_arith)
                        requires
                            mag0 > (cap - d) / 10,
                            prev == mag0 as int,
                            0 <= d < 10,
                            cap == 9223372036854775809u128,
                    ;
                    assert(next > cap as int);
                } else {
                    assert(next > cap as int) by (nonlinear_arith)
                        requires
                            next == prev * 10 + crate::numbers::digit_val(v@[i as int]),
                            prev > cap as int,
                            crate::numbers::digit_val(v@[i as int]) >= 0,
                            cap == 9223372036854775809u128,
                    ;
                }
            }
        } else {
            proof {
                assert(mag * 10 + d <= cap) by (nonlinear_arith)
                    requires
                        mag <= (cap - d) / 10,
                        0 <= d < 10,
                        cap == 9223372036854775809u128,
                ;
            }
            mag = mag * 10 + d;
        }
        proof {
            if prev > cap as int {
                assert(next > cap as int) by (nonlinear_arith)
                    requires
                        next == prev * 10 + crate::numbers::digit_val(v@[i as int]),
                        prev > cap as int,
                        crate::numbers::digit_val(v@[i as int]) >= 0,
                ;
            }
        }
        i = i + 1;
    }
    assert(v@.take(n as int) =~= v@);
    mag
}

/// Every prefix of a digit string is a digit string.
proof fn lemma_take_all_digits(s: Seq<char>, j: int)
    requires
        crate::numbers::all_digits(s),
        0 <= j <= s.len(),
    ensures
        crate::numbers::all_digits(s.take(j)),
{
    assert(forall|k: int| 0 <= k < j ==> s.take(j)[k] == s[k]);
}

/// Coerce a raw response to an integer: parse the leading numeric run as
/// a decimal and round half away from zero, degrading to zero when the
/// run is not a well-formed literal.
pub fn coerce_int(raw: &str) -> (r: i64)
    ensures
        r == coerce_int_spec(raw@),
{
    let chars = str_chars(raw);
    let p = extract_numeric_prefix(&chars);
    let n: usize = p.len();
    if n == 0 {
        assert(!float_literal_ok(p@)) by {
            lemma_dot_idx(lit_body(p@));
        }
        return 0;
    }
    let c0 = p[0];
    let neg: bool = c0 == '-';
    let start: usize = if c0 == '-' || c0 == '+' { 1 } else { 0 };
    let body = crate::chars::sub_vec(&p, start, n);
    proof {
        assert(body@ =~= lit_body(p@));
        lemma_dot_idx(body@);
    }
    // split the body at its first dot
    let mut dotpat: Vec<char> = Vec::new();
    dotpat.push('.');
    assert(dotpat@ =~= seq!['.']);
    let dot = match crate::chars::find_sub(&body, &dotpat) {
        Some(k) => k,
        None => body.len(),
    };
    proof {
        crate::chars::lemma_find_from(body@, seq!['.'], 0);
        lemma_dot_is_find(body@);
    }
    let ip = crate::chars::sub_vec(&body, 0, dot);
    let fp = if dot < body.len() {
        crate::chars::sub_vec(&body, dot + 1, body.len())
    } else {
        Vec::new()
    };
    proof {
        assert(ip@ =~= int_part(body@));
        assert(fp@ =~= frac_part(body@));
    }
    if !all_digits_vec(&ip) || !all_digits_vec(&fp) || ip.len() + fp.len() == 0 {
        return 0;
    }
    let mag = digits_mag_capped(&ip);
    let roundup: bool = fp.len() > 0 && {
        let f0 = fp[0];
        '5' <= f0 && f0 <= '9'
    };
    proof {
        if fp@.len() > 0 {
            assert(is_digit_char(fp@[0]));
            assert(('5' <= fp@[0] && fp@[0] <= '9') == (crate::numbers::digit_val(fp@[0]) >= 5));
        }
        crate::numbers::lemma_digits_val_bounds(ip@);
    }
    let total: u128 = if roundup { mag + 1 } else { mag };
    let ghost m = round_half_mag(lit_body(p@));
    proof {
        if crate::numbers::digits_val(ip@) <= 9223372036854775809u128 as int {
            assert(total as int == m);
        } else {
            assert(m > 9223372036854775809);
            assert(total >= 9223372036854775809u128);
        }
    }
    if neg {
        if total >= 9223372036854775808u128 {
            assert(clamp_i64(-m) == i64::MIN);
            return i64::MIN;
        }
        let t: i64 = total as i64;
        return -t;
    }
    if total >= 9223372036854775808u128 {
        assert(clamp_i64(m) == i64::MAX);
        return i64::MAX;
    }
    total as i64
}

/// The first dot found by substring search is `dot_idx`.
proof fn lemma_dot_is_find(b: Seq<char>)
    ensures
        match crate::chars::find_sub_spec(b, seq!['.']) {
            Some(k) => dot_idx(b) == k,
            None => dot_idx(b) == b.len(),
        },
{
    lemma_dot_idx(b);
    crate::chars::lemma_find_from(b, seq!['.'], 0);
    match crate::chars::find_sub_spec(b, seq!['.']) {
        Some(k) => {
            assert(crate::chars::matches_at(b, seq!['.'], k));
            assert(b.subrange(k, k + 1)[0] == b[k]);
            assert(b[k] == '.');
            if dot_idx(b) < k {
                assert(crate::chars::matches_at(b, seq!['.'], dot_idx(b))) by {
                    assert(b.subrange(dot_idx(b), dot_idx(b) + 1) =~= seq![b[dot_idx(b)]]);
                }
            }
            if k < dot_idx(b) {
                assert(b[k] != '.');
            }
        },
        None => {
            if dot_idx(b) < b.len() {
                assert(crate::chars::matches_at(b, seq!['.'], dot_idx(b))) by {
                    assert(b.subrange(dot_idx(b), dot_idx(b) + 1) =~= seq![b[dot_idx(b)]]);
                }
            }
        },
    }
}

/// Number of leading zero digits.
pub open spec fn zeros_front(s: Seq<char>) -> int
    decreases s.len(),
{
    if s.len() > 0 && s.first() == '0' {
        1 + zeros_front(s.drop_first())
    } else {
        0
    }
}

/// Number of trailing zero digits.
pub open spec fn zeros_back(s: Seq<char>) -> int
    decreases s.len(),
{
    if s.len() > 0 && s.last() == '0' {
        1 + zeros_back(s.drop_last())
    } else {
        0
    }
}

/// `zeros_front` counts exactly the leading zeros.
pub proof fn lemma_zeros_front(s: Seq<char>)
    ensures
        0 <= zeros_front(s) <= s.len(),
        forall|k: int| 0 <= k < zeros_front(s) ==> s[k] == '0',
        zeros_front(s) < s.len() ==> s[zeros_front(s)] != '0',
    decreases s.len(),
{
    if s.len() > 0 && s.first() == '0' {
        lemma_zeros_front(s.drop_first());
        let t = s.drop_first();
        assert forall|k: int| 0 <= k < zeros_front(s) implies s[k] == '0' by {
            if k > 0 {
                assert(s[k] == t[k - 1]);
            }
        }
        if zeros_front(s) < s.len() {
            assert(s[zeros_front(s)] == t[zeros_front(t)]);
        }
    }
}

/// `zeros_back` counts exactly the trailing zeros.
pub proof fn lemma_zeros_back(s: Seq<char>)
    ensures
        0 <= zeros_back(s) <= s.len(),
        forall|k: int| s.len() - zeros_back(s) <= k < s.len() ==> s[k] == '0',
        zeros_back(s) < s.len() ==> s[s.len() - zeros_back(s) - 1] != '0',
    decreases s.len(),
{
    if s.len() > 0 && s.last() == '0' {
        lemma_zeros_back(s.drop_last());
        let t = s.drop_last();
        assert forall|k: int| s.len() - zeros_back(s) <= k < s.len() implies s[k] == '0' by {
            if k < s.len() - 1 {
                assert(s[k] == t[k]);
            }
        }
        if zeros_back(s) < s.len() {
            assert(s[s.len() - zeros_back(s) - 1] == t[t.len() - zeros_back(t) - 1]);
        }
    }
}

/// Integer part without leading zeros; an empty or all-zero part becomes
/// the single digit zero.
pub open spec fn norm_int_part(ip: Seq<char>) -> Seq<char> {
    if zeros_front(ip) == ip.len() {
        seq!['0']
    } else {
        ip.skip(zeros_front(ip))
    }
}

/// Fractional part without trailing zeros.
pub open spec fn norm_frac_part(fp: Seq<char>) -> Seq<char> {
    fp.take(fp.len() - zeros_back(fp))
}

/// Float coercion, at the storage boundary: the numeric prefix rendered
/// as a normalized decimal string — sign kept, leading integer zeros and
/// trailing fractional zeros dropped, the dot dropped when nothing
/// follows it.  Malformed input degrades to the digit zero.
pub open spec fn coerce_float_text_spec(raw: Seq<char>) -> Seq<char> {
    let p = num_prefix(raw);
    if float_literal_ok(p) {
        let b = lit_body(p);
        let sign: Seq<char> = if p[0] == '-' { seq!['-'] } else { Seq::empty() };
        let fp = norm_frac_part(frac_part(b));
        sign + norm_int_part(int_part(b)) + if fp.len() > 0 { seq!['.'] + fp } else { Seq::empty() }
    } else {
        seq!['0']
    }
}

/// Coerce a raw response to the stored form of a float cell.
#[verifier::rlimit(60)]
pub fn coerce_float_text(raw: &str) -> (r: String)
    ensures
        r@ == coerce_float_text_spec(raw@),
{
    let chars = str_chars(raw);
    let p = extract_numeric_prefix(&chars);
    let n: usize = p.len();
    let mut out: Vec<char> = Vec::new();
    if n == 0 {
        assert(!float_literal_ok(p@)) by {
            lemma_dot_idx(lit_body(p@));
        }
        out.push('0');
        assert(out@ =~= seq!['0']);
        return crate::chars::chars_to_string(&out);
    }
    let c0 = p[0];
    let neg: bool = c0 == '-';
    let start: usize = if c0 == '-' || c0 == '+' { 1 } else { 0 };
    let body = crate::chars::sub_vec(&p, start, n);
    proof {
        assert(body@ =~= lit_body(p@));
        lemma_dot_idx(body@);
    }
    let mut dotpat: Vec<char> = Vec::new();
    dotpat.push('.');
    assert(dotpat@ =~= seq!['.']);
    let dot = match crate::chars::find_sub(&body, &dotpat) {
        Some(k) => k,
        None => body.len(),
    };
    proof {
        crate::chars::lemma_find_from(body@, seq!['.'], 0);
        lemma_dot_is_find(body@);
    }
    let ip = crate::chars::sub_vec(&body, 0, dot);
    let fp = if dot < body.len() {
        crate::chars::sub_vec(&body, dot + 1, body.len())
    } else {
        Vec::new()
    };
    proof {
        assert(ip@ =~= int_part(body@));
        assert(fp@ =~= frac_part(body@));
    }
    if !all_digits_vec(&ip) || !all_digits_vec(&fp) || ip.len() + fp.len() == 0 {
        out.push('0');
        assert(out@ =~= seq!['0']);
        return crate::chars::chars_to_string(&out);
    }
    if neg {
        out.push('-');
    }
    // integer part without leading zeros
    proof {
        lemma_zeros_front(ip@);
    }
    let mut z: usize = 0;
    let ipn: usize = ip.len();
    while z < ipn && ip[z] == '0'
        invariant
            ipn == ip@.len(),
            z <= ipn,
            0 <= zeros_front(ip@) <= ipn,
            forall|k: int| 0 <= k < zeros_front(ip@) ==> ip@[k] == '0',
            zeros_front(ip@) < ipn ==> ip@[zeros_front(ip@)] != '0',
            z <= zeros_front(ip@),
        decreases ipn - z,
    {
        z = z + 1;
    }
    assert(z as int == zeros_front(ip@));
    let ghost before_int = out@;
    if z == ipn {
        out.push('0');
        assert(out@ =~= before_int + norm_int_part(ip@));
    } else {
        let rest = crate::chars::sub_vec(&ip, z, ipn);
        assert(rest@ =~= norm_int_part(ip@));
        extend_vec(&mut out, &rest);
    }
    // fractional part without trailing zeros
    proof {
        lemma_zeros_back(fp@);
    }
    let mut e: usize = fp.len();
    let ghost fpn = fp@.len();
    while e > 0 && fp[e - 1] == '0'
        invariant
            fpn == fp@.len(),
            e <= fpn,
            0 <= zeros_back(fp@) <= fpn,
            forall|k: int| fpn - zeros_back(fp@) <= k < fpn ==> fp@[k] == '0',
            zeros_back(fp@) < fpn ==> fp@[fpn - zeros_back(fp@) - 1] != '0',
            e >= fpn - zeros_back(fp@),
        decreases e,
    {
        e = e - 1;
    }
    assert(e as int == fpn - zeros_back(fp@));
    if e > 0 {
        let ghost before_frac = out@;
        out.push('.');
        let kept = crate::chars::sub_vec(&fp, 0, e);
        assert(kept@ =~= norm_frac_part(fp@));
        extend_vec(&mut out, &kept);
        assert(out@ =~= before_frac + seq!['.'] + norm_frac_part(fp@));
    }
    proof {
        let spec_sign: Seq<char> = if p@[0] == '-' { seq!['-'] } else { Seq::empty() };
        let nfp = norm_frac_part(frac_part(lit_body(p@)));
        assert(out@ =~= spec_sign + norm_int_part(int_part(lit_body(p@)))
            + if nfp.len() > 0 { seq!['.'] + nfp } else { Seq::empty() });
    }
    crate::chars::chars_to_string(&out)
}

/// Append every character of `src` to `dst`.
pub fn extend_vec(dst: &mut Vec<char>, src: &Vec<char>)
    ensures
        final(dst)@ == old(dst)@ + src@,
{
    let n: usize = src.len();
    let mut i: usize = 0;
    while i < n
        invariant
            n == src@.len(),
            i <= n,
            dst@ == old(dst)@ + src@.subrange(0, i as int),
        decreases n - i,
    {
        dst.push(src[i]);
        assert(dst@ =~= old(dst)@ + src@.subrange(0, i + 1 as int));
        i = i + 1;
    }
    assert(dst@ =~= old(dst)@ + src@);
}

/// Boolean coercion: the trimmed response parses as `true` exactly when
/// it is the literal `true`; anything else yields `false`.
pub open spec fn coerce_bool_spec(raw: Seq<char>) -> bool {
    trim_spec(raw) == seq!['t', 'r', 'u', 'e']
}

/// Coerce a raw response to a boolean.
pub fn coerce_bool(raw: &str) -> (r: bool)
    ensures
        r == coerce_bool_spec(raw@),
{
    let chars = str_chars(raw);
    let t = trim_vec(&chars);
    if t.len() == 4 && t[0] == 't' && t[1] == 'r' && t[2] == 'u' && t[3] == 'e' {
        assert(t@ =~= seq!['t', 'r', 'u', 'e']);
        true
    } else {
        proof {
            if trim_spec(raw@) == seq!['t', 'r', 'u', 'e'] {
                assert(t@.len() == 4);
                assert(t@[0] == 't' && t@[1] == 'r' && t@[2] == 'u' && t@[3] == 'e');
            }
        }
        false
    }
}

} // verus!

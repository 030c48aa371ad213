//! Character-level utilities shared by the text post-processors and the
//! prompt assembler.  All executable functions are specified against
//! `Seq<char>` views; substring search, trimming and slicing are written
//! here once and reused.

use vstd::prelude::*;

verus! {

/// Whitespace, as the trimming passes understand it.
pub open spec fn is_ws_char(c: char) -> bool {
    c == ' ' || c == '\t' || c == '\n' || c == '\r' || c == '\u{b}' || c == '\u{c}'
}

/// A word character: what an `@` reference in a column rule may consist of.
pub open spec fn is_word_char(c: char) -> bool {
    ('a' <= c && c <= 'z') || ('A' <= c && c <= 'Z') || ('0' <= c && c <= '9') || c == '_'
}

/// A decimal digit.
pub open spec fn is_digit_char(c: char) -> bool {
    '0' <= c && c <= '9'
}

/// The pattern `pat` occurs in `s` starting at index `i`.
pub open spec fn matches_at(s: Seq<char>, pat: Seq<char>, i: int) -> bool {
    0 <= i && i + pat.len() <= s.len() && s.subrange(i, i + pat.len() as int) == pat
}

/// `pat` occurs somewhere in `s`.
pub open spec fn contains_sub(s: Seq<char>, pat: Seq<char>) -> bool {
    exists|i: int| matches_at(s, pat, i)
}

/// Index of the first occurrence of `pat` in `s` at or after `i`.
pub open spec fn find_from(s: Seq<char>, pat: Seq<char>, i: int) -> Option<int>
    decreases s.len() - i + 1,
{
    if i < 0 || i + pat.len() > s.len() {
        None
    } else if matches_at(s, pat, i) {
        Some(i)
    } else {
        find_from(s, pat, i + 1)
    }
}

/// Index of the first occurrence of `pat` in `s`.
pub open spec fn find_sub_spec(s: Seq<char>, pat: Seq<char>) -> Option<int> {
    find_from(s, pat, 0)
}

/// `find_from` returns the least match position at or after `i`, and `None`
/// exactly when there is no match at or after `i`.
pub proof fn lemma_find_from(s: Seq<char>, pat: Seq<char>, i: int)
    requires
        0 <= i,
    ensures
        match find_from(s, pat, i) {
            Some(k) => i <= k && matches_at(s, pat, k) && forall|j: int|
                i <= j < k ==> !matches_at(s, pat, j),
            None => forall|j: int| j >= i ==> !matches_at(s, pat, j),
        },
    decreases s.len() - i + 1,
{
    if i + pat.len() > s.len() {
        assert forall|j: int| j >= i implies !matches_at(s, pat, j) by {
            assert(j + pat.len() > s.len());
        }
    } else if matches_at(s, pat, i) {
    } else {
        lemma_find_from(s, pat, i + 1);
    }
}

/// Build the vector of characters of a string slice.
pub fn str_chars(s: &str) -> (r: Vec<char>)
    ensures
        r@ == s@,
{
    let n: usize = s.unicode_len();
    let mut r: Vec<char> = Vec::new();
    let mut i: usize = 0;
    while i < n
        invariant
            n == s@.len(),
            i <= n,
            r@ == s@.subrange(0, i as int),
        decreases n - i,
    {
        let c = s.get_char(i);
        r.push(c);
        assert(r@ =~= s@.subrange(0, i + 1 as int));
        i = i + 1;
    }
    assert(r@ =~= s@);
    r
}

/// Relies on `core::iter::Iterator::collect` building a `String` from the
/// characters of the vector, in order.
#[verifier::external_body]
pub fn chars_to_string(v: &Vec<char>) -> (r: String)
    ensures
        r@ == v@,
{
    v.iter().collect()
}

/// Copy of `s[from..to]`.
pub fn sub_vec(s: &Vec<char>, from: usize, to: usize) -> (r: Vec<char>)
    requires
        from <= to <= s@.len(),
    ensures
        r@ == s@.subrange(from as int, to as int),
{
    let mut r: Vec<char> = Vec::new();
    let mut i: usize = from;
    while i < to
        invariant
            from <= i <= to <= s@.len(),
            r@ == s@.subrange(from as int, i as int),
        decreases to - i,
    {
        r.push(s[i]);
        assert(r@ =~= s@.subrange(from as int, i + 1 as int));
        i = i + 1;
    }
    r
}

/// Does `pat` occur in `s` at index `i`?
pub fn match_at(s: &Vec<char>, pat: &Vec<char>, i: usize) -> (r: bool)
    requires
        i + pat@.len() <= s@.len(),
    ensures
        r == matches_at(s@, pat@, i as int),
{
    let n: usize = s.len();
    let m: usize = pat.len();
    let mut j: usize = 0;
    let mut ok: bool = true;
    while j < m
        invariant
            n == s@.len(),
            m == pat@.len(),
            i + m <= n,
            j <= m,
            ok <==> s@.subrange(i as int, i + j as int) =~= pat@.subrange(0, j as int),
        decreases m - j,
    {
        let ghost pre_ok = ok;
        let ghost jj = j as int;
        if s[i + j] != pat[j] {
            ok = false;
        }
        proof {
            let a = s@.subrange(i as int, i + jj + 1);
            let b = pat@.subrange(0, jj + 1);
            if pre_ok && s@[i + jj] == pat@[jj] {
                assert(a =~= b);
            }
            if a == b {
                assert(s@.subrange(i as int, i + jj) =~= a.subrange(0, jj));
                assert(pat@.subrange(0, jj) =~= b.subrange(0, jj));
                assert(s@[i + jj] == a[jj] && pat@[jj] == b[jj]);
            }
        }
        j = j + 1;
    }
    proof {
        assert(pat@.subrange(0, m as int) =~= pat@);
        if ok {
            assert(matches_at(s@, pat@, i as int));
        }
    }
    ok
}

/// First occurrence of `pat` in `s`.
pub fn find_sub(s: &Vec<char>, pat: &Vec<char>) -> (r: Option<usize>)
    ensures
        match r {
            Some(k) => find_sub_spec(s@, pat@) == Some(k as int),
            None => find_sub_spec(s@, pat@) is None,
        },
{
    let n: usize = s.len();
    let m: usize = pat.len();
    if m > n {
        return None;
    }
    if m == 0 {
        assert(s@.subrange(0, 0) =~= pat@);
        return Some(0);
    }
    let mut i: usize = 0;
    while i <= n - m
        invariant
            n == s@.len(),
            m == pat@.len(),
            1 <= m <= n,
            i <= n - m + 1,
            find_from(s@, pat@, 0) == find_from(s@, pat@, i as int),
        decreases n - i,
    {
        if match_at(s, pat, i) {
            return Some(i);
        }
        i = i + 1;
    }
    None
}

/// Does `pat` occur anywhere in `s`?
pub fn contains_vec(s: &Vec<char>, pat: &Vec<char>) -> (r: bool)
    ensures
        r == contains_sub(s@, pat@),
{
    let f = find_sub(s, pat);
    proof {
        lemma_find_from(s@, pat@, 0);
    }
    f.is_some()
}

/// Number of whitespace characters at the front of `s`.
pub open spec fn ws_front(s: Seq<char>) -> int
    decreases s.len(),
{
    if s.len() > 0 && is_ws_char(s.first()) {
        1 + ws_front(s.drop_first())
    } else {
        0
    }
}

/// Number of whitespace characters at the back of `s`.
pub open spec fn ws_back(s: Seq<char>) -> int
    decreases s.len(),
{
    if s.len() > 0 && is_ws_char(s.last()) {
        1 + ws_back(s.drop_last())
    } else {
        0
    }
}

/// `s` with leading whitespace removed.
pub open spec fn trim_start_spec(s: Seq<char>) -> Seq<char> {
    s.skip(ws_front(s))
}

/// `s` with trailing whitespace removed.
pub open spec fn trim_end_spec(s: Seq<char>) -> Seq<char> {
    s.take(s.len() - ws_back(s))
}

/// `s` with surrounding whitespace removed.
pub open spec fn trim_spec(s: Seq<char>) -> Seq<char> {
    trim_end_spec(trim_start_spec(s))
}

/// `ws_front` counts exactly the leading whitespace run.
pub proof fn lemma_ws_front(s: Seq<char>)
    ensures
        0 <= ws_front(s) <= s.len(),
        forall|k: int| 0 <= k < ws_front(s) ==> is_ws_char(s[k]),
        ws_front(s) < s.len() ==> !is_ws_char(s[ws_front(s)]),
    decreases s.len(),
{
    if s.len() > 0 && is_ws_char(s.first()) {
        lemma_ws_front(s.drop_first());
        let t = s.drop_first();
        assert forall|k: int| 0 <= k < ws_front(s) implies is_ws_char(s[k]) by {
            if k > 0 {
                assert(s[k] == t[k - 1]);
            }
        }
        if ws_front(s) < s.len() {
            assert(s[ws_front(s)] == t[ws_front(t)]);
        }
    }
}

/// `ws_back` counts exactly the trailing whitespace run.
pub proof fn lemma_ws_back(s: Seq<char>)
    ensures
        0 <= ws_back(s) <= s.len(),
        forall|k: int| s.len() - ws_back(s) <= k < s.len() ==> is_ws_char(s[k]),
        ws_back(s) < s.len() ==> !is_ws_char(s[s.len() - ws_back(s) - 1]),
    decreases s.len(),
{
    if s.len() > 0 && is_ws_char(s.last()) {
        lemma_ws_back(s.drop_last());
        let t = s.drop_last();
        assert forall|k: int| s.len() - ws_back(s) <= k < s.len() implies is_ws_char(s[k]) by {
            if k < s.len() - 1 {
                assert(s[k] == t[k]);
            }
        }
        if ws_back(s) < s.len() {
            assert(s[s.len() - ws_back(s) - 1] == t[t.len() - ws_back(t) - 1]);
        }
    }
}

/// Index of the first non-whitespace character (or the length of `s`).
pub fn ws_front_idx(s: &Vec<char>) -> (r: usize)
    ensures
        r as int == ws_front(s@),
{
    let n: usize = s.len();
    let mut i: usize = 0;
    proof {
        lemma_ws_front(s@);
    }
    while i < n && is_ws(s[i])
        invariant
            n == s@.len(),
            i <= n,
            0 <= ws_front(s@) <= n,
            forall|k: int| 0 <= k < ws_front(s@) ==> is_ws_char(s@[k]),
            ws_front(s@) < n ==> !is_ws_char(s@[ws_front(s@)]),
            i <= ws_front(s@),
        decreases n - i,
    {
        i = i + 1;
    }
    i
}

/// Length of `s` without its trailing whitespace.
pub fn ws_back_idx(s: &Vec<char>) -> (r: usize)
    ensures
        r as int == s@.len() - ws_back(s@),
{
    let n: usize = s.len();
    let mut i: usize = n;
    proof {
        lemma_ws_back(s@);
    }
    while i > 0 && is_ws(s[i - 1])
        invariant
            n == s@.len(),
            i <= n,
            0 <= ws_back(s@) <= n,
            forall|k: int| n - ws_back(s@) <= k < n ==> is_ws_char(s@[k]),
            ws_back(s@) < n ==> !is_ws_char(s@[n - ws_back(s@) - 1]),
            i >= n - ws_back(s@),
        decreases i,
    {
        i = i - 1;
    }
    i
}

/// Is `c` whitespace?
pub fn is_ws(c: char) -> (r: bool)
    ensures
        r == is_ws_char(c),
{
    c == ' ' || c == '\t' || c == '\n' || c == '\r' || c == '\u{b}' || c == '\u{c}'
}

/// `s` with leading whitespace removed.
pub fn trim_start_vec(s: &Vec<char>) -> (r: Vec<char>)
    ensures
        r@ == trim_start_spec(s@),
{
    proof {
        lemma_ws_front(s@);
    }
    let a = ws_front_idx(s);
    let r = sub_vec(s, a, s.len());
    assert(r@ =~= s@.skip(ws_front(s@)));
    r
}

/// `s` with trailing whitespace removed.
pub fn trim_end_vec(s: &Vec<char>) -> (r: Vec<char>)
    ensures
        r@ == trim_end_spec(s@),
{
    proof {
        lemma_ws_back(s@);
    }
    let b = ws_back_idx(s);
    let r = sub_vec(s, 0, b);
    assert(r@ =~= s@.take(s@.len() - ws_back(s@)));
    r
}

/// `s` with surrounding whitespace removed.
pub fn trim_vec(s: &Vec<char>) -> (r: Vec<char>)
    ensures
        r@ == trim_spec(s@),
{
    let t = trim_start_vec(s);
    trim_end_vec(&t)
}

/// `s` with every leading repetition of `pat` removed.
pub open spec fn strip_prefix_rep(s: Seq<char>, pat: Seq<char>) -> Seq<char>
    decreases s.len(),
{
    if pat.len() > 0 && matches_at(s, pat, 0) {
        strip_prefix_rep(s.skip(pat.len() as int), pat)
    } else {
        s
    }
}

/// `s` with every trailing repetition of `pat` removed.
pub open spec fn strip_suffix_rep(s: Seq<char>, pat: Seq<char>) -> Seq<char>
    decreases s.len(),
{
    if pat.len() > 0 && matches_at(s, pat, s.len() - pat.len()) {
        strip_suffix_rep(s.take(s.len() - pat.len()), pat)
    } else {
        s
    }
}

/// `s` with every leading repetition of `pat` removed.
pub fn strip_prefix_rep_vec(s: &Vec<char>, pat: &Vec<char>) -> (r: Vec<char>)
    requires
        pat@.len() > 0,
    ensures
        r@ == strip_prefix_rep(s@, pat@),
{
    let n: usize = s.len();
    let m: usize = pat.len();
    let mut a: usize = 0;
    proof {
        assert(s@.skip(0) =~= s@);
    }
    loop
        invariant_except_break
            n == s@.len(),
            m == pat@.len(),
            0 < m,
            a <= n,
            strip_prefix_rep(s@, pat@) == strip_prefix_rep(s@.skip(a as int), pat@),
        ensures
            a <= n,
            n == s@.len(),
            strip_prefix_rep(s@, pat@) == s@.skip(a as int),
        decreases n - a,
    {
        if m > n - a || !match_at_from(s, pat, a) {
            proof {
                let t = s@.skip(a as int);
                if a + m <= n {
                    assert(!matches_at(t, pat@, 0));
                } else {
                    assert(t.len() < m);
                }
                assert(strip_prefix_rep(t, pat@) == t);
            }
            break;
        }
        proof {
            let t = s@.skip(a as int);
            assert(t.skip(m as int) =~= s@.skip(a + m as int));
        }
        a = a + m;
    }
    sub_vec(s, a, n)
}

/// Does `pat` occur at index `a` of `s`, stated over the tail `s[a..]`?
fn match_at_from(s: &Vec<char>, pat: &Vec<char>, a: usize) -> (r: bool)
    requires
        a + pat@.len() <= s@.len(),
    ensures
        r == matches_at(s@.skip(a as int), pat@, 0),
{
    let r = match_at(s, pat, a);
    proof {
        let t = s@.skip(a as int);
        assert(t.subrange(0, pat@.len() as int) =~= s@.subrange(a as int, a + pat@.len() as int));
    }
    r
}

/// `s` with every trailing repetition of `pat` removed.
pub fn strip_suffix_rep_vec(s: &Vec<char>, pat: &Vec<char>) -> (r: Vec<char>)
    requires
        pat@.len() > 0,
    ensures
        r@ == strip_suffix_rep(s@, pat@),
{
    let m: usize = pat.len();
    let mut b: usize = s.len();
    proof {
        assert(s@.take(s@.len() as int) =~= s@);
    }
    loop
        invariant_except_break
            m == pat@.len(),
            0 < m,
            b <= s@.len(),
            strip_suffix_rep(s@, pat@) == strip_suffix_rep(s@.take(b as int), pat@),
        ensures
            b <= s@.len(),
            strip_suffix_rep(s@, pat@) == s@.take(b as int),
        decreases b,
    {
        if b < m || !match_at_take(s, pat, b) {
            proof {
                let t = s@.take(b as int);
                if b >= m {
                    assert(!matches_at(t, pat@, t.len() - pat@.len()));
                } else {
                    assert(t.len() < m);
                }
                assert(strip_suffix_rep(t, pat@) == t);
            }
            break;
        }
        proof {
            let t = s@.take(b as int);
            assert(t.take(b - m as int) =~= s@.take(b - m as int));
        }
        b = b - m;
    }
    sub_vec(s, 0, b)
}

/// Does `pat` end exactly at index `b` of `s`, stated over the prefix `s[..b]`?
fn match_at_take(s: &Vec<char>, pat: &Vec<char>, b: usize) -> (r: bool)
    requires
        pat@.len() <= b <= s@.len(),
    ensures
        r == matches_at(s@.take(b as int), pat@, b - pat@.len()),
{
    let r = match_at(s, pat, b - pat.len());
    proof {
        let t = s@.take(b as int);
        let k = b - pat@.len();
        assert(t.subrange(k, k + pat@.len() as int) =~= s@.subrange(k, b as int));
    }
    r
}

} // verus!

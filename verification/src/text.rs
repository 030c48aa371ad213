//! Text post-processor: strips the fences, stray escapes and wrapping
//! quotes that models tend to leave around a plain value.

use vstd::prelude::*;
use crate::chars::{
    contains_sub, find_sub_spec, find_sub, lemma_find_from, matches_at, str_chars, strip_prefix_rep,
    strip_prefix_rep_vec, strip_suffix_rep, strip_suffix_rep_vec, sub_vec, trim_end_spec,
    trim_end_vec, trim_spec, trim_start_spec, trim_start_vec, trim_vec, chars_to_string,
};

verus! {

/// A triple-backtick fence.
pub open spec fn fence_pat() -> Seq<char> {
    seq!['`', '`', '`']
}

/// A literal backslash-quote escape.
pub open spec fn esc_quote_pat() -> Seq<char> {
    seq!['\\', '"']
}

/// A literal backslash-n escape.
pub open spec fn esc_n_pat() -> Seq<char> {
    seq!['\\', 'n']
}

/// A literal backslash-r escape.
pub open spec fn esc_r_pat() -> Seq<char> {
    seq!['\\', 'r']
}

/// Leading cleanup: trim, strip leading fences and escaped quotes, and
/// cut at the first interior fence, keeping only the preamble.
pub open spec fn clean_lead(s: Seq<char>) -> Seq<char> {
    let t0 = trim_spec(s);
    let t1 = trim_start_spec(strip_prefix_rep(t0, fence_pat()));
    let t2 = trim_start_spec(strip_prefix_rep(t1, esc_quote_pat()));
    match find_sub_spec(t2, fence_pat()) {
        Some(k) => if k > 0 { t2.take(k) } else { t2 },
        None => t2,
    }
}

/// One pass of trailing cleanup: fences, escaped quotes, escaped and
/// literal line breaks, each followed by a trailing-whitespace trim.
pub open spec fn strip_tail_pass(s: Seq<char>) -> Seq<char> {
    let a = trim_end_spec(strip_suffix_rep(s, fence_pat()));
    let b = trim_end_spec(strip_suffix_rep(a, esc_quote_pat()));
    let c = trim_end_spec(strip_suffix_rep(b, esc_n_pat()));
    let d = trim_end_spec(strip_suffix_rep(c, seq!['\n']));
    let e = trim_end_spec(strip_suffix_rep(d, esc_r_pat()));
    trim_end_spec(strip_suffix_rep(e, seq!['\r']))
}

/// Stripping a suffix never lengthens a string.
pub proof fn lemma_strip_suffix_rep_len(s: Seq<char>, pat: Seq<char>)
    ensures
        strip_suffix_rep(s, pat).len() <= s.len(),
    decreases s.len(),
{
    if pat.len() > 0 && matches_at(s, pat, s.len() - pat.len()) {
        lemma_strip_suffix_rep_len(s.take(s.len() - pat.len()), pat);
    }
}

/// Trimming trailing whitespace never lengthens a string.
pub proof fn lemma_trim_end_len(s: Seq<char>)
    ensures
        trim_end_spec(s).len() <= s.len(),
{
    crate::chars::lemma_ws_back(s);
}

/// One trailing pass never lengthens a string.
pub proof fn lemma_strip_tail_pass_len(s: Seq<char>)
    ensures
        strip_tail_pass(s).len() <= s.len(),
{
    let a = trim_end_spec(strip_suffix_rep(s, fence_pat()));
    let b = trim_end_spec(strip_suffix_rep(a, esc_quote_pat()));
    let c = trim_end_spec(strip_suffix_rep(b, esc_n_pat()));
    let d = trim_end_spec(strip_suffix_rep(c, seq!['\n']));
    let e = trim_end_spec(strip_suffix_rep(d, esc_r_pat()));
    lemma_strip_suffix_rep_len(s, fence_pat());
    lemma_trim_end_len(strip_suffix_rep(s, fence_pat()));
    lemma_strip_suffix_rep_len(a, esc_quote_pat());
    lemma_trim_end_len(strip_suffix_rep(a, esc_quote_pat()));
    lemma_strip_suffix_rep_len(b, esc_n_pat());
    lemma_trim_end_len(strip_suffix_rep(b, esc_n_pat()));
    lemma_strip_suffix_rep_len(c, seq!['\n']);
    lemma_trim_end_len(strip_suffix_rep(c, seq!['\n']));
    lemma_strip_suffix_rep_len(d, esc_r_pat());
    lemma_trim_end_len(strip_suffix_rep(d, esc_r_pat()));
    lemma_strip_suffix_rep_len(e, seq!['\r']);
    lemma_trim_end_len(strip_suffix_rep(e, seq!['\r']));
}

/// Trailing cleanup to a fixed point: passes are repeated until one
/// removes nothing.
pub open spec fn clean_tail(s: Seq<char>) -> Seq<char>
    decreases s.len(),
        via clean_tail_decreases
{
    let t = strip_tail_pass(s);
    if t.len() == s.len() {
        t
    } else {
        clean_tail(t)
    }
}

#[via_fn]
proof fn clean_tail_decreases(s: Seq<char>) {
    lemma_strip_tail_pass_len(s);
}

/// Final pass: trim, then unwrap one layer of surrounding quotes — a
/// matched symmetric pair, or a single unmatched opening or closing
/// quote — trimming what the unwrapping exposes.
pub open spec fn clean_quotes(s: Seq<char>) -> Seq<char> {
    let t = trim_spec(s);
    if t.len() > 1 {
        if (t.first() == '"' && t.last() == '"') || (t.first() == '\'' && t.last() == '\'') {
            trim_spec(t.subrange(1, t.len() - 1))
        } else if t.first() == '"' && t.last() != '"' {
            trim_spec(t.skip(1))
        } else if t.first() != '"' && t.last() == '"' {
            trim_spec(t.take(t.len() - 1))
        } else if t.first() == '\'' && t.last() != '\'' {
            trim_spec(t.skip(1))
        } else if t.first() != '\'' && t.last() == '\'' {
            trim_spec(t.take(t.len() - 1))
        } else {
            t
        }
    } else {
        t
    }
}

/// The full text cleanup: leading artifacts, trailing artifacts to a
/// fixed point, then quote unwrapping.
pub open spec fn clean_text_spec(s: Seq<char>) -> Seq<char> {
    clean_quotes(clean_tail(clean_lead(s)))
}

/// A string that carries none of the artifacts the cleanup removes: it
/// is trimmed, holds no fence, neither starts nor ends with an escaped
/// quote or escaped line break, and neither starts nor ends with a
/// quote character.
pub open spec fn is_clean(y: Seq<char>) -> bool {
    &&& trim_spec(y) == y
    &&& !contains_sub(y, fence_pat())
    &&& !matches_at(y, esc_quote_pat(), 0)
    &&& !matches_at(y, esc_quote_pat(), y.len() - 2)
    &&& !matches_at(y, esc_n_pat(), y.len() - 2)
    &&& !matches_at(y, esc_r_pat(), y.len() - 2)
    &&& y.len() > 1 ==> (y[0] != '"' && y[0] != '\'' && y[y.len() - 1] != '"' && y[y.len() - 1]
        != '\'')
}

/// Decide `is_clean`, so a caller can establish the premise of the
/// idempotence lemmas on a concrete value.
pub fn is_clean_check(s: &Vec<char>) -> (r: bool)
    ensures
        r == is_clean(s@),
{
    let n: usize = s.len();
    let t = trim_vec(s);
    if !crate::sorter::chars_eq(&t, s) {
        return false;
    }
    let fence = fence_vec();
    if crate::chars::contains_vec(s, &fence) {
        return false;
    }
    if n >= 2 {
        let eq = pat2('\\', '"');
        let en = pat2('\\', 'n');
        let er = pat2('\\', 'r');
        if match_at_within(s, &eq, 0) || match_at_within(s, &eq, n - 2) || match_at_within(
            s,
            &en,
            n - 2,
        ) || match_at_within(s, &er, n - 2) {
            return false;
        }
        let first = s[0];
        let last = s[n - 1];
        if first == '"' || first == '\'' || last == '"' || last == '\'' {
            return false;
        }
    }
    proof {
        if s@.len() < 2 {
            assert(!matches_at(s@, esc_quote_pat(), 0));
            assert(!matches_at(s@, esc_quote_pat(), s@.len() - 2));
            assert(!matches_at(s@, esc_n_pat(), s@.len() - 2));
            assert(!matches_at(s@, esc_r_pat(), s@.len() - 2));
        }
    }
    true
}

/// Does `pat` occur at `i`, including when it would not fit?
fn match_at_within(s: &Vec<char>, pat: &Vec<char>, i: usize) -> (r: bool)
    ensures
        r == matches_at(s@, pat@, i as int),
{
    let n: usize = s.len();
    let m: usize = pat.len();
    if i > n || m > n - i {
        proof {
            assert(i + pat@.len() > s@.len());
        }
        return false;
    }
    crate::chars::match_at(s, pat, i)
}

/// A string equal to its own trim has no leading or trailing whitespace.
pub proof fn lemma_trim_fix(y: Seq<char>)
    requires
        trim_spec(y) == y,
    ensures
        crate::chars::ws_front(y) == 0,
        crate::chars::ws_back(y) == 0,
{
    crate::chars::lemma_ws_front(y);
    let f = crate::chars::ws_front(y);
    let t1 = y.skip(f);
    crate::chars::lemma_ws_back(t1);
    let wb = crate::chars::ws_back(t1);
    assert(trim_spec(y).len() == y.len() - f - wb);
    assert(f == 0 && wb == 0);
    assert(t1 =~= y);
}

/// One trailing pass removes nothing from a clean string.
proof fn lemma_tail_pass_fix(y: Seq<char>)
    requires
        is_clean(y),
    ensures
        strip_tail_pass(y) == y,
{
    lemma_trim_fix(y);
    assert(trim_end_spec(y) =~= y);
    assert(!matches_at(y, fence_pat(), y.len() - fence_pat().len()));
    assert(strip_suffix_rep(y, fence_pat()) == y);
    assert(strip_suffix_rep(y, esc_quote_pat()) == y);
    assert(strip_suffix_rep(y, esc_n_pat()) == y);
    assert(strip_suffix_rep(y, esc_r_pat()) == y);
    if y.len() >= 1 {
        crate::chars::lemma_ws_back(y);
        assert(!crate::chars::is_ws_char(y[y.len() - 1]));
        if matches_at(y, seq!['\n'], y.len() - 1) {
            assert(y.subrange(y.len() - 1, y.len() as int)[0] == y[y.len() - 1]);
        }
        if matches_at(y, seq!['\r'], y.len() - 1) {
            assert(y.subrange(y.len() - 1, y.len() as int)[0] == y[y.len() - 1]);
        }
    }
    assert(strip_suffix_rep(y, seq!['\n']) == y);
    assert(strip_suffix_rep(y, seq!['\r']) == y);
}

/// Cleanup leaves a clean string untouched.
pub proof fn lemma_clean_fixpoint(y: Seq<char>)
    requires
        is_clean(y),
    ensures
        clean_text_spec(y) == y,
{
    lemma_trim_fix(y);
    assert(trim_start_spec(y) =~= y);
    assert(trim_end_spec(y) =~= y);
    // leading pass: nothing to strip, no fence to cut at
    assert(!matches_at(y, fence_pat(), 0));
    assert(strip_prefix_rep(y, fence_pat()) == y);
    assert(strip_prefix_rep(y, esc_quote_pat()) == y);
    lemma_find_from(y, fence_pat(), 0);
    assert(find_sub_spec(y, fence_pat()) is None);
    assert(clean_lead(y) == y);
    // trailing passes: the first pass is already a fixed point
    lemma_tail_pass_fix(y);
    assert(clean_tail(y) == y);
    // quote unwrapping: no surrounding quotes
    assert(clean_quotes(y) == y);
}

/// Cleaning twice is cleaning once, whenever one cleaning yields a
/// string free of residual artifacts.
pub proof fn lemma_clean_idempotent(x: Seq<char>)
    requires
        is_clean(clean_text_spec(x)),
    ensures
        clean_text_spec(clean_text_spec(x)) == clean_text_spec(x),
{
    lemma_clean_fixpoint(clean_text_spec(x));
}

/// The fence pattern, as a vector.
fn fence_vec() -> (r: Vec<char>)
    ensures
        r@ == fence_pat(),
{
    let mut r: Vec<char> = Vec::new();
    r.push('`');
    r.push('`');
    r.push('`');
    assert(r@ =~= fence_pat());
    r
}

/// A two-character pattern, as a vector.
fn pat2(a: char, b: char) -> (r: Vec<char>)
    ensures
        r@ == seq![a, b],
{
    let mut r: Vec<char> = Vec::new();
    r.push(a);
    r.push(b);
    assert(r@ =~= seq![a, b]);
    r
}

/// A one-character pattern, as a vector.
fn pat1(a: char) -> (r: Vec<char>)
    ensures
        r@ == seq![a],
{
    let mut r: Vec<char> = Vec::new();
    r.push(a);
    assert(r@ =~= seq![a]);
    r
}

/// One pass of trailing cleanup.
fn strip_tail_pass_vec(s: &Vec<char>) -> (r: Vec<char>)
    ensures
        r@ == strip_tail_pass(s@),
{
    let fence = fence_vec();
    let a = trim_end_vec(&strip_suffix_rep_vec(s, &fence));
    let b = trim_end_vec(&strip_suffix_rep_vec(&a, &pat2('\\', '"')));
    let c = trim_end_vec(&strip_suffix_rep_vec(&b, &pat2('\\', 'n')));
    let d = trim_end_vec(&strip_suffix_rep_vec(&c, &pat1('\n')));
    let e = trim_end_vec(&strip_suffix_rep_vec(&d, &pat2('\\', 'r')));
    trim_end_vec(&strip_suffix_rep_vec(&e, &pat1('\r')))
}

/// Clean a raw model response for a text cell: trim it, strip leading
/// and trailing fences, escapes and line breaks, cut at an interior
/// fence, and unwrap surrounding quotes.
pub fn clean_text_artifacts(text: &str) -> (r: String)
    ensures
        r@ == clean_text_spec(text@),
{
    let chars = str_chars(text);
    // leading cleanup
    let fence = fence_vec();
    let t0 = trim_vec(&chars);
    let t1 = trim_start_vec(&strip_prefix_rep_vec(&t0, &fence));
    let t2 = trim_start_vec(&strip_prefix_rep_vec(&t1, &pat2('\\', '"')));
    let lead = match find_sub(&t2, &fence) {
        Some(k) => if k > 0 {
            proof {
                lemma_find_from(t2@, fence_pat(), 0);
            }
            sub_vec(&t2, 0, k)
        } else {
            t2
        },
        None => t2,
    };
    assert(lead@ == clean_lead(text@));
    // trailing cleanup to a fixed point
    let mut cur = lead;
    loop
        invariant_except_break
            clean_tail(cur@) == clean_tail(clean_lead(text@)),
        ensures
            cur@ == clean_tail(clean_lead(text@)),
        decreases cur@.len(),
    {
        let next = strip_tail_pass_vec(&cur);
        if next.len() == cur.len() {
            assert(next@ == clean_tail(cur@));
            cur = next;
            break;
        }
        proof {
            lemma_strip_tail_pass_len(cur@);
        }
        cur = next;
    }
    // quote unwrapping
    let t = trim_vec(&cur);
    let n: usize = t.len();
    let out: Vec<char> = if n > 1 {
        let first = t[0];
        let last = t[n - 1];
        if (first == '"' && last == '"') || (first == '\'' && last == '\'') {
            trim_vec(&sub_vec(&t, 1, n - 1))
        } else if first == '"' && last != '"' {
            let tail = sub_vec(&t, 1, n);
            assert(tail@ =~= t@.skip(1));
            trim_vec(&tail)
        } else if first != '"' && last == '"' {
            let head = sub_vec(&t, 0, n - 1);
            assert(head@ =~= t@.take(n - 1));
            trim_vec(&head)
        } else if first == '\'' && last != '\'' {
            let tail = sub_vec(&t, 1, n);
            assert(tail@ =~= t@.skip(1));
            trim_vec(&tail)
        } else if first != '\'' && last == '\'' {
            let head = sub_vec(&t, 0, n - 1);
            assert(head@ =~= t@.take(n - 1));
            trim_vec(&head)
        } else {
            t
        }
    } else {
        t
    };
    assert(out@ == clean_text_spec(text@));
    chars_to_string(&out)
}

} // verus!

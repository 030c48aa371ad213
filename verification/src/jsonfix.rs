//! JSON post-processor: strip fences, slice the response to the span of
//! the first opener through the last matching closer, repair the
//! opener/closer balance by appending or prepending, and parse
//! permissively.

use vstd::prelude::*;
use crate::chars::{
    contains_sub, find_sub_spec, find_sub, lemma_find_from, matches_at, str_chars, sub_vec,
    trim_spec, trim_vec, chars_to_string,
};
use crate::text::fence_pat;

verus! {

/// The fenced-JSON marker.
pub open spec fn json_fence_pat() -> Seq<char> {
    seq!['`', '`', '`', 'j', 's', 'o', 'n']
}

/// `s` with every occurrence of `pat` removed, scanning leftmost first.
pub open spec fn remove_all(s: Seq<char>, pat: Seq<char>) -> Seq<char>
    decreases s.len(),
        when pat.len() > 0
        via remove_all_decreases
{
    match find_sub_spec(s, pat) {
        Some(k) => s.take(k) + remove_all(s.skip(k + pat.len()), pat),
        None => s,
    }
}

#[via_fn]
proof fn remove_all_decreases(s: Seq<char>, pat: Seq<char>) {
    lemma_find_from(s, pat, 0);
}

/// Index of the first `{` or `[` of `s`, or its length.
pub open spec fn opener_pos(s: Seq<char>) -> int
    decreases s.len(),
{
    if s.len() > 0 && !(s.first() == '{' || s.first() == '[') {
        1 + opener_pos(s.drop_first())
    } else {
        0
    }
}

/// `opener_pos` finds the first opener.
pub proof fn lemma_opener_pos(s: Seq<char>)
    ensures
        0 <= opener_pos(s) <= s.len(),
        forall|k: int| 0 <= k < opener_pos(s) ==> s[k] != '{' && s[k] != '[',
        opener_pos(s) < s.len() ==> (s[opener_pos(s)] == '{' || s[opener_pos(s)] == '['),
    decreases s.len(),
{
    if s.len() > 0 && !(s.first() == '{' || s.first() == '[') {
        lemma_opener_pos(s.drop_first());
        let t = s.drop_first();
        assert forall|k: int| 0 <= k < opener_pos(s) implies s[k] != '{' && s[k] != '[' by {
            if k > 0 {
                assert(s[k] == t[k - 1]);
            }
        }
        if opener_pos(s) < s.len() {
            assert(s[opener_pos(s)] == t[opener_pos(t)]);
        }
    }
}

/// Index of the last occurrence of `c` in `s`.
pub open spec fn last_pos(s: Seq<char>, c: char) -> Option<int>
    decreases s.len(),
{
    if s.len() == 0 {
        None
    } else if s.last() == c {
        Some(s.len() - 1)
    } else {
        last_pos(s.drop_last(), c)
    }
}

/// `last_pos` finds the last occurrence.
pub proof fn lemma_last_pos(s: Seq<char>, c: char)
    ensures
        match last_pos(s, c) {
            Some(e) => 0 <= e < s.len() && s[e] == c && forall|k: int| e < k < s.len() ==> s[k]
                != c,
            None => forall|k: int| 0 <= k < s.len() ==> s[k] != c,
        },
    decreases s.len(),
{
    if s.len() > 0 && s.last() != c {
        lemma_last_pos(s.drop_last(), c);
        let t = s.drop_last();
        match last_pos(s, c) {
            Some(e) => {
                assert(s[e] == t[e]);
                assert forall|k: int| e < k < s.len() implies s[k] != c by {
                    if k < s.len() - 1 {
                        assert(s[k] == t[k]);
                    }
                }
            },
            None => {
                assert forall|k: int| 0 <= k < s.len() implies s[k] != c by {
                    if k < s.len() - 1 {
                        assert(s[k] == t[k]);
                    }
                }
            },
        }
    }
}

/// Number of occurrences of `c` in `s`.
pub open spec fn count_char(s: Seq<char>, c: char) -> int
    decreases s.len(),
{
    if s.len() == 0 {
        0
    } else {
        count_char(s.drop_last(), c) + if s.last() == c { 1int } else { 0int }
    }
}

/// Occurrence counts lie between zero and the length.
pub proof fn lemma_count_char_bounds(s: Seq<char>, c: char)
    ensures
        0 <= count_char(s, c) <= s.len(),
    decreases s.len(),
{
    if s.len() > 0 {
        lemma_count_char_bounds(s.drop_last(), c);
    }
}

/// `n` copies of `c`.
pub open spec fn repeat_char(c: char, n: int) -> Seq<char>
    decreases n,
{
    if n <= 0 {
        Seq::empty()
    } else {
        repeat_char(c, n - 1).push(c)
    }
}

/// Fence stripping: trim, remove every fenced-JSON marker, remove every
/// bare fence, trim again.
pub open spec fn json_strip(s: Seq<char>) -> Seq<char> {
    trim_spec(remove_all(remove_all(trim_spec(s), json_fence_pat()), fence_pat()))
}

/// The whole textual repair: strip fences, slice from the first opener
/// to the last closer of the matching kind, and append or prepend the
/// missing closers or openers so the counts balance.
pub open spec fn repair_json_spec(s: Seq<char>) -> Seq<char> {
    let t = json_strip(s);
    if opener_pos(t) < t.len() {
        let start = opener_pos(t);
        let oc = t[start];
        let cc: char = if oc == '{' { '}' } else { ']' };
        let tail = t.skip(start);
        let ex = match last_pos(tail, cc) {
            Some(e) => tail.take(e + 1),
            None => tail,
        };
        let bal = count_char(ex, oc) - count_char(ex, cc);
        if bal > 0 {
            ex + repeat_char(cc, bal)
        } else if bal < 0 {
            repeat_char(oc, -bal) + ex
        } else {
            ex
        }
    } else {
        t
    }
}

/// Trimming is idempotent.
pub proof fn lemma_trim_of_trim(s: Seq<char>)
    ensures
        trim_spec(trim_spec(s)) == trim_spec(s),
{
    let t = trim_spec(s);
    crate::chars::lemma_ws_front(s);
    let f = crate::chars::ws_front(s);
    let mid = s.skip(f);
    crate::chars::lemma_ws_back(mid);
    let wb = crate::chars::ws_back(mid);
    crate::chars::lemma_ws_front(t);
    crate::chars::lemma_ws_back(t);
    if t.len() == 0 {
        assert(crate::chars::ws_front(t) == 0);
        assert(crate::chars::ws_back(t) == 0);
        assert(trim_spec(t) =~= t);
    } else {
        assert(t[0] == mid[0]);
        assert(mid[0] == s[f]);
        assert(!crate::chars::is_ws_char(t[0]));
        assert(crate::chars::ws_front(t) == 0);
        assert(t.last() == mid[mid.len() - wb - 1]);
        assert(!crate::chars::is_ws_char(t.last()));
        assert(crate::chars::ws_back(t) == 0);
        assert(trim_spec(t) =~= t);
    }
}

/// Repair is the identity, beyond trimming, on a response whose trimmed
/// form is a single balanced object or array with no fence inside.
pub proof fn lemma_repair_balanced_noop(s: Seq<char>)
    requires
        !contains_sub(trim_spec(s), fence_pat()),
        trim_spec(s).len() > 0,
        (trim_spec(s)[0] == '{' && trim_spec(s).last() == '}' && count_char(trim_spec(s), '{')
            == count_char(trim_spec(s), '}')) || (trim_spec(s)[0] == '[' && trim_spec(s).last()
            == ']' && count_char(trim_spec(s), '[') == count_char(trim_spec(s), ']')),
    ensures
        repair_json_spec(s) == trim_spec(s),
{
    let t = trim_spec(s);
    // a fenced-JSON marker would contain a bare fence
    assert(!contains_sub(t, json_fence_pat())) by {
        if contains_sub(t, json_fence_pat()) {
            let i = choose|i: int| matches_at(t, json_fence_pat(), i);
            assert(t.subrange(i, i + 7)[0] == t[i] && t.subrange(i, i + 7)[1] == t[i + 1]
                && t.subrange(i, i + 7)[2] == t[i + 2]);
            assert(t.subrange(i, i + 3) =~= fence_pat());
            assert(matches_at(t, fence_pat(), i));
        }
    }
    lemma_find_from(t, json_fence_pat(), 0);
    if find_sub_spec(t, json_fence_pat()) is Some {
        let k = find_sub_spec(t, json_fence_pat())->Some_0;
        assert(matches_at(t, json_fence_pat(), k));
    }
    assert(remove_all(t, json_fence_pat()) == t);
    lemma_find_from(t, fence_pat(), 0);
    if find_sub_spec(t, fence_pat()) is Some {
        let k = find_sub_spec(t, fence_pat())->Some_0;
        assert(matches_at(t, fence_pat(), k));
    }
    assert(remove_all(t, fence_pat()) == t);
    lemma_trim_of_trim(s);
    assert(json_strip(s) == t);
    // the opener stands at index zero, the closer at the end
    assert(opener_pos(t) == 0);
    assert(t.skip(0) =~= t);
    let cc: char = if t[0] == '{' { '}' } else { ']' };
    assert(t.last() == cc);
    assert(last_pos(t, cc) == Some(t.len() - 1));
    assert(t.take(t.len() as int) =~= t);
    assert(count_char(t, t[0]) == count_char(t, cc));
}

/// Whether `json5` accepts a piece of text as a document.
pub uninterp spec fn json5_ok(s: Seq<char>) -> bool;

/// The serialized form of the document that `json5` reads from a piece
/// of text it accepts.
pub uninterp spec fn json5_norm(s: Seq<char>) -> Seq<char>;

/// Relies on `json5::from_str` to parse the text into a
/// `serde_json::Value` — it accepts trailing commas, unquoted keys and
/// single quotes — and on `serde_json`'s `Display` to serialize that
/// value; both results depend on the text alone.
#[verifier::external_body]
fn parse_json5_to_string(s: &str) -> (r: Result<String, String>)
    ensures
        r is Ok <==> json5_ok(s@),
        r is Ok ==> r->Ok_0@ == json5_norm(s@),
{
    match json5::from_str::<serde_json::Value>(s) {
        Ok(v) => Ok(v.to_string()),
        Err(e) => Err(e.to_string()),
    }
}

/// Repair and parse a raw response for a JSON cell.  On success the
/// stored value is the serialized form of the parsed document; the
/// error carries the parser's message.
pub fn coerce_json(raw: &str) -> (r: Result<String, String>)
    ensures
        r is Ok <==> json5_ok(repair_json_spec(raw@)),
        r is Ok ==> r->Ok_0@ == json5_norm(repair_json_spec(raw@)),
{
    let repaired = repair_json_text(raw);
    parse_json5_to_string(repaired.as_str())
}

/// `s` with every occurrence of `pat` removed.
pub fn remove_all_vec(s: &Vec<char>, pat: &Vec<char>) -> (r: Vec<char>)
    requires
        pat@.len() > 0,
    ensures
        r@ == remove_all(s@, pat@),
{
    let mut out: Vec<char> = Vec::new();
    let mut cur = sub_vec(s, 0, s.len());
    proof {
        assert(cur@ =~= s@);
        assert(out@ + remove_all(cur@, pat@) =~= remove_all(s@, pat@));
    }
    loop
        invariant_except_break
            pat@.len() > 0,
            out@ + remove_all(cur@, pat@) == remove_all(s@, pat@),
        ensures
            out@ == remove_all(s@, pat@),
        decreases cur@.len(),
    {
        let ghost pre_out = out@;
        let ghost pre_cur = cur@;
        match find_sub(&cur, pat) {
            Some(k) => {
                proof {
                    lemma_find_from(pre_cur, pat@, 0);
                    assert(matches_at(pre_cur, pat@, k as int));
                    assert(k + pat@.len() <= cur@.len());
                }
                let cn: usize = cur.len();
                assert(k + pat@.len() <= cn);
                let head = sub_vec(&cur, 0, k);
                crate::coerce::extend_vec(&mut out, &head);
                let next = sub_vec(&cur, k + pat.len(), cn);
                proof {
                    assert(head@ =~= pre_cur.take(k as int));
                    assert(next@ =~= pre_cur.skip(k + pat@.len()));
                    assert(pre_out + pre_cur.take(k as int) + remove_all(
                        pre_cur.skip(k + pat@.len()),
                        pat@,
                    ) =~= pre_out + remove_all(pre_cur, pat@));
                }
                cur = next;
            },
            None => {
                crate::coerce::extend_vec(&mut out, &cur);
                assert(remove_all(pre_cur, pat@) == pre_cur);
                break;
            },
        }
    }
    out
}

/// The fenced-JSON marker, as a vector.
fn json_fence_vec() -> (r: Vec<char>)
    ensures
        r@ == json_fence_pat(),
{
    let mut r: Vec<char> = Vec::new();
    r.push('`');
    r.push('`');
    r.push('`');
    r.push('j');
    r.push('s');
    r.push('o');
    r.push('n');
    assert(r@ =~= json_fence_pat());
    r
}

/// The bare fence, as a vector.
fn fence_vec() -> (r: Vec<char>)
    ensures
        r@ == fence_pat(),
{
    let mut r: Vec<char> = Vec::new();
    r.push('`');
    r.push('`');
    r.push('`');
    assert(r@ =~= fence_pat());
    r
}

/// Index of the first `{` or `[`, or the length of `s`.
fn opener_pos_vec(s: &Vec<char>) -> (r: usize)
    ensures
        r as int == opener_pos(s@),
{
    let n: usize = s.len();
    proof {
        lemma_opener_pos(s@);
    }
    let mut i: usize = 0;
    while i < n && !(s[i] == '{' || s[i] == '[')
        invariant
            n == s@.len(),
            i <= n,
            0 <= opener_pos(s@) <= n,
            forall|k: int| 0 <= k < opener_pos(s@) ==> s@[k] != '{' && s@[k] != '[',
            opener_pos(s@) < n ==> (s@[opener_pos(s@)] == '{' || s@[opener_pos(s@)] == '['),
            i <= opener_pos(s@),
        decreases n - i,
    {
        i = i + 1;
    }
    i
}

/// Index of the last occurrence of `c` in `s`.
fn last_pos_vec(s: &Vec<char>, c: char) -> (r: Option<usize>)
    ensures
        match r {
            Some(e) => last_pos(s@, c) == Some(e as int),
            None => last_pos(s@, c) is None,
        },
{
    let mut i: usize = s.len();
    assert(s@.take(s@.len() as int) =~= s@);
    while i > 0
        invariant
            i <= s@.len(),
            last_pos(s@, c) == last_pos(s@.take(i as int), c),
        decreases i,
    {
        proof {
            assert(s@.take(i as int).last() == s@[i - 1]);
            assert(s@.take(i as int).drop_last() =~= s@.take(i - 1));
        }
        if s[i - 1] == c {
            return Some(i - 1);
        }
        i = i - 1;
    }
    assert(s@.take(0) =~= Seq::<char>::empty());
    None
}

/// Number of occurrences of `c` in `s`.
fn count_char_vec(s: &Vec<char>, c: char) -> (r: usize)
    ensures
        r as int == count_char(s@, c),
{
    let n: usize = s.len();
    proof {
        lemma_count_char_bounds(s@, c);
    }
    let mut count: usize = 0;
    let mut i: usize = 0;
    while i < n
        invariant
            n == s@.len(),
            i <= n,
            count as int == count_char(s@.take(i as int), c),
            count <= i,
        decreases n - i,
    {
        proof {
            assert(s@.take(i + 1).drop_last() =~= s@.take(i as int));
            assert(s@.take(i + 1).last() == s@[i as int]);
        }
        if s[i] == c {
            count = count + 1;
        }
        i = i + 1;
    }
    assert(s@.take(n as int) =~= s@);
    count
}

/// Append `n` copies of `c` to `dst`.
fn push_repeat(dst: &mut Vec<char>, c: char, n: usize)
    ensures
        final(dst)@ == old(dst)@ + repeat_char(c, n as int),
{
    let mut i: usize = 0;
    while i < n
        invariant
            i <= n,
            dst@ == old(dst)@ + repeat_char(c, i as int),
        decreases n - i,
    {
        dst.push(c);
        i = i + 1;
    }
}

/// Apply the textual JSON repair to a raw response.
#[verifier::rlimit(60)]
pub fn repair_json_text(raw: &str) -> (r: String)
    ensures
        r@ == repair_json_spec(raw@),
{
    let chars = str_chars(raw);
    let t0 = trim_vec(&chars);
    let t1 = remove_all_vec(&t0, &json_fence_vec());
    let t2 = remove_all_vec(&t1, &fence_vec());
    let t = trim_vec(&t2);
    assert(t@ == json_strip(raw@));
    let n: usize = t.len();
    let start = opener_pos_vec(&t);
    if start < n {
        let oc = t[start];
        let cc: char = if oc == '{' { '}' } else { ']' };
        let tail = sub_vec(&t, start, n);
        assert(tail@ =~= t@.skip(start as int));
        let mut ex = match last_pos_vec(&tail, cc) {
            Some(e) => {
                proof {
                    lemma_last_pos(tail@, cc);
                }
                sub_vec(&tail, 0, e + 1)
            },
            None => tail,
        };
        proof {
            assert(ex@ == (match last_pos(t@.skip(start as int), cc) {
                Some(e) => t@.skip(start as int).take(e + 1),
                None => t@.skip(start as int),
            }));
        }
        let opens = count_char_vec(&ex, oc);
        let closes = count_char_vec(&ex, cc);
        let ghost ex0 = ex@;
        if opens > closes {
            push_repeat(&mut ex, cc, opens - closes);
            assert(ex@ == ex0 + repeat_char(cc, count_char(ex0, oc) - count_char(ex0, cc)));
        } else if closes > opens {
            let mut pre: Vec<char> = Vec::new();
            push_repeat(&mut pre, oc, closes - opens);
            crate::coerce::extend_vec(&mut pre, &ex);
            proof {
                assert(Seq::<char>::empty() + repeat_char(oc, count_char(ex0, cc) - count_char(ex0, oc)) =~= repeat_char(oc, count_char(ex0, cc) - count_char(ex0, oc)));
            }
            ex = pre;
        }
        chars_to_string(&ex)
    } else {
        chars_to_string(&t)
    }
}

} // verus!

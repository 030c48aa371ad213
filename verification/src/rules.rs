//! The `@` reference grammar of column rules: an `@` followed by a
//! maximal run of word characters names another column.  The scanner
//! here feeds both the dependency sorter and the prompt assembler.

use vstd::prelude::*;
use crate::chars::is_word_char;

verus! {

/// Length of the maximal word-character run starting at `j`.
pub open spec fn wrun_from(s: Seq<char>, j: int) -> int
    decreases s.len() - j + 1,
{
    if 0 <= j && j < s.len() && is_word_char(s[j]) {
        1 + wrun_from(s, j + 1)
    } else {
        0
    }
}

/// `wrun_from` delimits the maximal word run.
pub proof fn lemma_wrun_from(s: Seq<char>, j: int)
    ensures
        0 <= wrun_from(s, j),
        j <= s.len() ==> j + wrun_from(s, j) <= s.len(),
        forall|k: int| j <= k < j + wrun_from(s, j) ==> is_word_char(s[k]),
        0 <= j && j + wrun_from(s, j) < s.len() ==> !is_word_char(s[j + wrun_from(s, j)]),
    decreases s.len() - j + 1,
{
    if 0 <= j && j < s.len() && is_word_char(s[j]) {
        lemma_wrun_from(s, j + 1);
    }
}

/// A reference token starts at `i`: an `@` with a word character after it.
pub open spec fn ref_tok_at(s: Seq<char>, i: int) -> bool {
    0 <= i && i + 1 < s.len() && s[i] == '@' && is_word_char(s[i + 1])
}

/// The names captured by scanning `s` from position `i`: for each
/// reference token, the maximal word run after its `@`; scanning resumes
/// after the token.
pub open spec fn word_refs_from(s: Seq<char>, i: int) -> Seq<Seq<char>>
    decreases s.len() - i + 1,
        via word_refs_from_decreases
{
    if i < 0 || i >= s.len() {
        Seq::empty()
    } else if ref_tok_at(s, i) {
        let w = wrun_from(s, i + 1);
        seq![s.subrange(i + 1, i + 1 + w)] + word_refs_from(s, i + 1 + w)
    } else {
        word_refs_from(s, i + 1)
    }
}

#[via_fn]
proof fn word_refs_from_decreases(s: Seq<char>, i: int) {
    lemma_wrun_from(s, i + 1);
}

/// The names referenced by a whole rule, in reading order.
pub open spec fn word_refs(s: Seq<char>) -> Seq<Seq<char>> {
    word_refs_from(s, 0)
}

/// Is `c` a word character?
pub fn is_word(c: char) -> (r: bool)
    ensures
        r == is_word_char(c),
{
    ('a' <= c && c <= 'z') || ('A' <= c && c <= 'Z') || ('0' <= c && c <= '9') || c == '_'
}

/// End of the word run starting at `j`.
pub fn wrun_end(s: &Vec<char>, j: usize) -> (r: usize)
    requires
        j <= s@.len(),
    ensures
        r as int == j + wrun_from(s@, j as int),
        j <= r <= s@.len(),
{
    let n: usize = s.len();
    proof {
        lemma_wrun_from(s@, j as int);
    }
    let mut e: usize = j;
    while e < n && is_word(s[e])
        invariant
            n == s@.len(),
            j <= e <= n,
            0 <= wrun_from(s@, j as int),
            j + wrun_from(s@, j as int) <= n,
            forall|k: int| j <= k < j + wrun_from(s@, j as int) ==> is_word_char(s@[k]),
            j + wrun_from(s@, j as int) < n ==> !is_word_char(s@[j + wrun_from(s@, j as int)]),
            e <= j + wrun_from(s@, j as int),
        decreases n - e,
    {
        e = e + 1;
    }
    e
}

/// Collect the referenced names of a rule.
pub fn scan_word_refs(s: &Vec<char>) -> (r: Vec<Vec<char>>)
    ensures
        r@.len() == word_refs(s@).len(),
        forall|k: int| 0 <= k < r@.len() ==> r@[k]@ == word_refs(s@)[k],
{
    let n: usize = s.len();
    let mut r: Vec<Vec<char>> = Vec::new();
    let ghost mut acc: Seq<Seq<char>> = Seq::empty();
    let mut i: usize = 0;
    proof {
        assert(acc + word_refs_from(s@, 0) =~= word_refs_from(s@, 0));
    }
    while i < n
        invariant
            n == s@.len(),
            i <= n,
            word_refs(s@) == acc + word_refs_from(s@, i as int),
            r@.len() == acc.len(),
            forall|k: int| 0 <= k < r@.len() ==> r@[k]@ == acc[k],
        decreases n - i,
    {
        let ghost pre = acc;
        if s[i] == '@' && i + 1 < n && is_word(s[i + 1]) {
            proof {
                lemma_wrun_from(s@, i + 1);
                assert(wrun_from(s@, i + 1) >= 1);
            }
            let e = wrun_end(s, i + 1);
            let name = crate::chars::sub_vec(s, i + 1, e);
            r.push(name);
            proof {
                assert(ref_tok_at(s@, i as int));
                acc = pre.push(s@.subrange(i + 1, e as int));
                assert(pre + (seq![s@.subrange(i + 1, e as int)] + word_refs_from(s@, e as int))
                    =~= acc + word_refs_from(s@, e as int));
            }
            i = e;
        } else {
            proof {
                assert(!ref_tok_at(s@, i as int));
            }
            i = i + 1;
        }
    }
    proof {
        assert(word_refs_from(s@, n as int) =~= Seq::<Seq<char>>::empty());
        assert(acc + word_refs_from(s@, n as int) =~= acc);
    }
    r
}

} // verus!

//! Decode-loop decisions: top-k candidate selection, repetition
//! tracking, and the early-stop heuristics.  The model library feeds
//! this module plain token ids and comparable scores; everything that
//! decides which token comes next and when to stop is verified here.

use vstd::prelude::*;
use crate::chars::{contains_sub, contains_vec, str_chars, trim_spec, trim_vec};
use crate::text::fence_pat;

verus! {

/// A candidate next token: its id and a score that orders candidates
/// as the model's logits do.
#[derive(PartialEq, Eq, Structural, Clone, Copy, Debug)]
pub struct Candidate {
    pub token: i64,
    pub score: i64,
}

/// Sampling configuration for the greedy top-k decode loop.
pub struct InferenceConfig {
    pub max_tokens: usize,
    pub top_k: i32,
    pub batch_size: usize,
    pub context_size: u32,
    pub add_bos: bool,
}

impl Default for InferenceConfig {
    /// The process-wide defaults.
    fn default() -> (r: Self)
        ensures
            r.max_tokens == 256,
            r.top_k == 40,
            r.batch_size == 512,
            r.context_size == 2048,
            r.add_bos,
    {
        InferenceConfig {
            max_tokens: 256,
            top_k: 40,
            batch_size: 512,
            context_size: 2048,
            add_bos: true,
        }
    }
}

/// `idx` tells how the selection `r` was drawn from `cs`: distinct
/// source positions, element for element, and every candidate left
/// behind scores no higher than any selected one.
pub open spec fn sel_witness(cs: Seq<Candidate>, r: Seq<Candidate>, idx: Seq<int>) -> bool {
    &&& idx.len() == r.len()
    &&& forall|j: int| 0 <= j < idx.len() ==> 0 <= #[trigger] idx[j] < cs.len() && cs[idx[j]] == r[j]
    &&& forall|a: int, b: int| 0 <= a < b < idx.len() ==> idx[a] != idx[b]
    &&& forall|i: int, j: int|
        0 <= i < cs.len() && !idx.contains(i) && 0 <= j < r.len() ==> (#[trigger] cs[i]).score
            <= (#[trigger] r[j]).score
}

/// Scores in `r` are non-increasing.
pub open spec fn sorted_desc(r: Seq<Candidate>) -> bool {
    forall|a: int, b: int| 0 <= a < b < r.len() ==> (#[trigger] r[a]).score >= (#[trigger] r[b]).score
}

/// Select the candidate pool: with a positive `k`, the `k` highest
/// scores (all of them when fewer exist), maintained by replacing the
/// pool's minimum as higher scores arrive; otherwise every candidate.
/// The pool is sorted by score, highest first, once at the end.
pub fn top_k_select(cands: &Vec<Candidate>, k: i32) -> (r: Vec<Candidate>)
    ensures
        r@.len() == (if k <= 0 || cands@.len() <= k as int {
            cands@.len() as int
        } else {
            k as int
        }),
        sorted_desc(r@),
        exists|idx: Seq<int>| sel_witness(cands@, r@, idx),
{
    let n: usize = cands.len();
    let mut pool: Vec<(Candidate, usize)> = Vec::new();
    let mut i: usize = 0;
    let cap: usize = if k <= 0 {
        n
    } else {
        k as usize
    };
    while i < n
        invariant
            n == cands@.len(),
            i <= n,
            cap == (if k <= 0 {
                n as int
            } else {
                k as int
            }),
            pool@.len() == (if i <= cap {
                i as int
            } else {
                cap as int
            }),
            forall|p: int|
                0 <= p < pool@.len() ==> (#[trigger] pool@[p]).1 < i && cands@[pool@[p].1 as int]
                    == pool@[p].0,
            forall|a: int, b: int| 0 <= a < b < pool@.len() ==> pool@[a].1 != pool@[b].1,
            forall|e: int, p: int|
                0 <= e < i && !pool_has(pool@, e) && 0 <= p < pool@.len() ==> (
                #[trigger] cands@[e]).score <= (#[trigger] pool@[p]).0.score,
        decreases n - i,
    {
        let ghost pre = pool@;
        if pool.len() < cap {
            // the pool is not yet full, so every earlier candidate is in it
            proof {
                assert(pre.len() == i as int);
            }
            pool.push((cands[i], i));
            proof {
                let ghost prev_idx = Seq::new(pre.len(), |p: int| pre[p].1);
                assert forall|e: int, p: int|
                    0 <= e < i + 1 && !pool_has(pool@, e) && 0 <= p
                        < pool@.len() implies (#[trigger] cands@[e]).score <= (
                    #[trigger] pool@[p]).0.score by {
                    if e < i {
                        assert(prev_idx.no_duplicates()) by {
                            assert(forall|a: int, b: int|
                                0 <= a < b < prev_idx.len() ==> prev_idx[a] != prev_idx[b]);
                        }
                        crate::sorter::lemma_distinct_bounded_full(
                            prev_idx,
                            i as int,
                            e as usize,
                        );
                        let q = choose|q: int| 0 <= q < prev_idx.len() && prev_idx[q] == e as usize;
                        assert(pool@[q].1 == e);
                        assert(pool_has(pool@, e));
                    } else {
                        assert(pool@[pool@.len() - 1].1 == i as usize);
                        assert(pool_has(pool@, e));
                    }
                }
            }
        } else if cap > 0 {
            // find the first minimum of the pool
            let m: usize = pool.len();
            let mut min_idx: usize = 0;
            let mut q: usize = 1;
            while q < m
                invariant
                    m == pool@.len(),
                    0 < m,
                    min_idx < q <= m,
                    forall|p: int|
                        0 <= p < q ==> (#[trigger] pool@[p]).0.score >= pool@[min_idx as int].0.score,
                    forall|p: int|
                        0 <= p < min_idx ==> (#[trigger] pool@[p]).0.score > pool@[min_idx as int].0.score,
                decreases m - q,
            {
                if pool[q].0.score < pool[min_idx].0.score {
                    min_idx = q;
                }
                q = q + 1;
            }
            if cands[i].score > pool[min_idx].0.score {
                let ghost evicted = pool@[min_idx as int];
                pool.set(min_idx, (cands[i], i));
                proof {
                    assert forall|a: int, b: int|
                        0 <= a < b < pool@.len() implies pool@[a].1 != pool@[b].1 by {
                        if a != min_idx && b != min_idx {
                            assert(pool@[a] == pre[a] && pool@[b] == pre[b]);
                        } else if a == min_idx {
                            assert(pool@[a].1 == i as usize && pre[b].1 < i);
                        } else {
                            assert(pool@[b].1 == i as usize && pre[a].1 < i);
                        }
                    }
                    assert forall|e: int, p: int|
                        0 <= e < i + 1 && !pool_has(pool@, e) && 0 <= p
                            < pool@.len() implies (#[trigger] cands@[e]).score <= (
                        #[trigger] pool@[p]).0.score by {
                        // the pool minimum was evicted; everything already
                        // excluded sat below it, and it sits below the rest
                        if e == evicted.1 as int {
                            assert(cands@[e] == evicted.0);
                            if p == min_idx {
                            } else {
                                assert(pool@[p] == pre[p]);
                                assert(pre[p].0.score >= evicted.0.score);
                            }
                        } else if e < i {
                            assert(!pool_has(pre, e)) by {
                                if pool_has(pre, e) {
                                    let q2 = choose|q2: int|
                                        0 <= q2 < pre.len() && pre[q2].1 == e;
                                    if q2 == min_idx {
                                        assert(e == evicted.1);
                                    } else {
                                        assert(pool@[q2].1 == e);
                                    }
                                }
                            }
                            if p == min_idx {
                                assert(cands@[e].score <= evicted.0.score);
                            } else {
                                assert(pool@[p] == pre[p]);
                            }
                        } else {
                            assert(pool@[min_idx as int].1 == i as usize);
                            assert(pool_has(pool@, e));
                        }
                    }
                }
            } else {
                proof {
                    assert forall|e: int, p: int|
                        0 <= e < i + 1 && !pool_has(pool@, e) && 0 <= p
                            < pool@.len() implies (#[trigger] cands@[e]).score <= (
                        #[trigger] pool@[p]).0.score by {
                        if e == i as int {
                            assert(cands@[e].score <= pool@[min_idx as int].0.score);
                        }
                    }
                }
            }
        }
        i = i + 1;
    }
    // sort the pool by score, highest first
    let mut out: Vec<Candidate> = Vec::new();
    let ghost mut out_idx: Seq<int> = Seq::empty();
    while pool.len() > 0
        invariant
            n == cands@.len(),
            out_idx.len() == out@.len(),
            forall|j: int|
                0 <= j < out_idx.len() ==> 0 <= #[trigger] out_idx[j] < n && cands@[out_idx[j]]
                    == out@[j],
            forall|p: int|
                0 <= p < pool@.len() ==> (#[trigger] pool@[p]).1 < n && cands@[pool@[p].1 as int]
                    == pool@[p].0,
            forall|a: int, b: int| 0 <= a < b < pool@.len() ==> pool@[a].1 != pool@[b].1,
            forall|j: int, p: int|
                0 <= j < out_idx.len() && 0 <= p < pool@.len() ==> out_idx[j] != pool@[p].1 as int,
            forall|a: int, b: int| 0 <= a < b < out_idx.len() ==> out_idx[a] != out_idx[b],
            sorted_desc(out@),
            forall|j: int, p: int|
                0 <= j < out@.len() && 0 <= p < pool@.len() ==> (#[trigger] out@[j]).score >= (
                #[trigger] pool@[p]).0.score,
            forall|e: int, p: int|
                0 <= e < n && !pool_has(pool@, e) && !out_idx.contains(e) && 0 <= p < pool@.len()
                    ==> (#[trigger] cands@[e]).score <= (#[trigger] pool@[p]).0.score,
            forall|e: int, j: int|
                0 <= e < n && !pool_has(pool@, e) && !out_idx.contains(e) && 0 <= j < out@.len()
                    ==> (#[trigger] cands@[e]).score <= (#[trigger] out@[j]).score,
            out@.len() + pool@.len() == (if cap <= n {
                cap as int
            } else {
                n as int
            }),
        decreases pool@.len(),
    {
        let ghost pre = pool@;
        let ghost pre_out_idx = out_idx;
        // find the first maximum of the pool
        let m: usize = pool.len();
        let mut max_idx: usize = 0;
        let mut q: usize = 1;
        while q < m
            invariant
                m == pool@.len(),
                0 < m,
                max_idx < q <= m,
                forall|p: int|
                    0 <= p < q ==> (#[trigger] pool@[p]).0.score <= pool@[max_idx as int].0.score,
            decreases m - q,
        {
            if pool[q].0.score > pool[max_idx].0.score {
                max_idx = q;
            }
            q = q + 1;
        }
        let picked = pool.remove(max_idx);
        out.push(picked.0);
        proof {
            out_idx = pre_out_idx.push(picked.1 as int);
            assert(pool@ =~= pre.remove(max_idx as int));
            assert(picked == pre[max_idx as int]);
            assert forall|p: int| 0 <= p < pool@.len() implies #[trigger] pool@[p] == (if p
                < max_idx {
                pre[p]
            } else {
                pre[p + 1]
            }) by {}
            assert forall|e: int| pool_has(pre, e) implies (pool_has(pool@, e) || e
                == picked.1 as int) by {
                let q2 = choose|q2: int| 0 <= q2 < pre.len() && (#[trigger] pre[q2]).1 == e;
                if q2 < max_idx {
                    assert(pool@[q2].1 == e);
                } else if q2 > max_idx {
                    assert(pool@[q2 - 1].1 == e);
                }
            }
            assert forall|e: int| pool_has(pool@, e) implies pool_has(pre, e) by {
                let q2 = choose|q2: int| 0 <= q2 < pool@.len() && (#[trigger] pool@[q2]).1 == e;
                if q2 < max_idx {
                    assert(pre[q2].1 == e);
                } else {
                    assert(pre[q2 + 1].1 == e);
                }
            }
            assert forall|j: int| 0 <= j < out_idx.len() implies 0 <= #[trigger] out_idx[j] < n
                && cands@[out_idx[j]] == out@[j] by {
                if j < pre_out_idx.len() {
                    assert(out_idx[j] == pre_out_idx[j]);
                }
            }
            assert forall|a: int, b: int|
                0 <= a < b < out_idx.len() implies out_idx[a] != out_idx[b] by {
                if b < pre_out_idx.len() {
                    assert(out_idx[a] == pre_out_idx[a] && out_idx[b] == pre_out_idx[b]);
                } else {
                    assert(out_idx[b] == picked.1 as int);
                    assert(out_idx[a] == pre_out_idx[a]);
                    assert(pre_out_idx[a] != pre[max_idx as int].1 as int);
                }
            }
            // the picked maximum dominates what remains
            assert forall|p: int| 0 <= p < pool@.len() implies picked.0.score >= (
            #[trigger] pool@[p]).0.score by {}
            // membership in the new output splits over the push
            assert forall|e: int| !out_idx.contains(e) implies !pre_out_idx.contains(e) && e
                != picked.1 as int by {
                if pre_out_idx.contains(e) {
                    let j = choose|j: int| 0 <= j < pre_out_idx.len() && pre_out_idx[j] == e;
                    assert(out_idx[j] == e);
                }
                assert(out_idx[out_idx.len() - 1] == picked.1 as int);
            }
            assert forall|e: int, p: int|
                0 <= e < n && !pool_has(pool@, e) && !out_idx.contains(e) && 0 <= p
                    < pool@.len() implies (#[trigger] cands@[e]).score <= (
            #[trigger] pool@[p]).0.score by {
                assert(!pool_has(pre, e)) by {
                    if pool_has(pre, e) {
                        let q2 = choose|q2: int| 0 <= q2 < pre.len() && (#[trigger] pre[q2]).1
                            == e;
                        if q2 == max_idx {
                            assert(e == picked.1 as int);
                        } else if q2 < max_idx {
                            assert(pool@[q2].1 == e);
                        } else {
                            assert(pool@[q2 - 1].1 == e);
                        }
                    }
                }
                if p < max_idx {
                    assert(cands@[e].score <= pre[p].0.score);
                } else {
                    assert(cands@[e].score <= pre[p + 1].0.score);
                }
            }
            assert forall|e: int, j: int|
                0 <= e < n && !pool_has(pool@, e) && !out_idx.contains(e) && 0 <= j
                    < out@.len() implies (#[trigger] cands@[e]).score <= (
            #[trigger] out@[j]).score by {
                assert(!pool_has(pre, e)) by {
                    if pool_has(pre, e) {
                        let q2 = choose|q2: int| 0 <= q2 < pre.len() && (#[trigger] pre[q2]).1
                            == e;
                        if q2 == max_idx {
                            assert(e == picked.1 as int);
                        } else if q2 < max_idx {
                            assert(pool@[q2].1 == e);
                        } else {
                            assert(pool@[q2 - 1].1 == e);
                        }
                    }
                }
                if j < out@.len() - 1 {
                    assert(out@[j] == out@.drop_last()[j]);
                } else {
                    assert(out@[j] == picked.0);
                    assert(cands@[e].score <= pre[max_idx as int].0.score);
                }
            }
        }
    }
    proof {
        assert(pool@.len() == 0);
        assert forall|i2: int, j: int|
            0 <= i2 < cands@.len() && !out_idx.contains(i2) && 0 <= j
                < out@.len() implies (#[trigger] cands@[i2]).score <= (
        #[trigger] out@[j]).score by {
            assert(!pool_has(pool@, i2));
        }
        assert(sel_witness(cands@, out@, out_idx));
    }
    out
}

/// Does any pool entry come from source position `e`?
pub open spec fn pool_has(pool: Seq<(Candidate, usize)>, e: int) -> bool {
    exists|p: int| 0 <= p < pool.len() && (#[trigger] pool[p]).1 as int == e
}

/// Running state of one decode: the accumulated response, the number
/// of tokens generated, the repetition counter, and the window of the
/// last ten emitted tokens.
pub struct DecodeState {
    pub response: Vec<char>,
    pub tokens_generated: usize,
    pub repetition_count: u32,
    pub last_tokens: Vec<i64>,
}

impl DecodeState {
    /// The state a decode starts from.
    pub fn new() -> (r: Self)
        ensures
            r.wf(),
            r.response@.len() == 0,
            r.tokens_generated == 0,
            r.repetition_count == 0,
            r.last_tokens@.len() == 0,
    {
        DecodeState { response: Vec::new(), tokens_generated: 0, repetition_count: 0, last_tokens: Vec::new() }
    }

    /// The counters stay in their working ranges.
    pub open spec fn wf(&self) -> bool {
        self.last_tokens@.len() <= 10
    }
}

/// Every token of the window equals `t`.
pub open spec fn window_all(w: Seq<i64>, t: i64) -> bool {
    forall|k: int| 0 <= k < w.len() ==> w[k] == t
}

/// The repetition heuristic fires: the window is full and every entry
/// equals the incoming token.
pub open spec fn rep_triggered(w: Seq<i64>, t: i64) -> bool {
    w.len() >= 10 && window_all(w, t)
}

/// The window after recording `t`: push it and drop the oldest entry
/// once more than ten are held.
pub open spec fn pushed_window(w: Seq<i64>, t: i64) -> Seq<i64> {
    if w.push(t).len() > 10 {
        w.push(t).drop_first()
    } else {
        w.push(t)
    }
}

/// The early-stop heuristics on the accumulated text: after more than
/// three tokens, stop on a fence or a line break anywhere in the
/// response; after more than ten, also on a trailing sentence mark of
/// the trimmed response; and unconditionally once the response exceeds
/// two hundred characters.
pub open spec fn text_stop(resp: Seq<char>, generated: int) -> bool {
    ||| (generated > 3 && (contains_sub(resp, fence_pat()) || contains_sub(resp, seq!['\n'])))
    ||| (generated > 10 && trim_spec(resp).len() > 0 && (trim_spec(resp).last() == '.'
        || trim_spec(resp).last() == '!' || trim_spec(resp).last() == '?'))
    ||| resp.len() > 200
}

/// Advance the decode state by one sampled token.  In order: the
/// repetition counter trips after the fourth time a full window of
/// identical tokens repeats; the window and token count advance; the
/// count cap stops before the token's text is appended; otherwise the
/// text is appended and the early-stop heuristics run.
pub fn decode_step(state: &mut DecodeState, next_token: i64, token_str: &str, max_tokens: usize) -> (stop:
    bool)
    requires
        old(state).wf(),
        old(state).repetition_count <= 3,
        old(state).tokens_generated < max_tokens,
    ensures
        final(state).wf(),
        final(state).repetition_count <= 4,
        !stop ==> final(state).repetition_count <= 3,
        ({
            let o = *old(state);
            let s = *final(state);
            if rep_triggered(o.last_tokens@, next_token) && o.repetition_count + 1 > 3 {
                &&& stop == true
                &&& s.response@ == o.response@
                &&& s.tokens_generated == o.tokens_generated
                &&& s.last_tokens@ == o.last_tokens@
                &&& s.repetition_count == o.repetition_count + 1
            } else {
                &&& s.repetition_count == (if rep_triggered(o.last_tokens@, next_token) {
                    o.repetition_count + 1
                } else {
                    0
                })
                &&& s.last_tokens@ == pushed_window(o.last_tokens@, next_token)
                &&& s.tokens_generated == o.tokens_generated + 1
                &&& (if s.tokens_generated >= max_tokens {
                    stop == true && s.response@ == o.response@
                } else {
                    s.response@ == o.response@ + token_str@ && stop == text_stop(
                        s.response@,
                        s.tokens_generated as int,
                    )
                })
            }
        }),
{
    let ghost o = *old(state);
    // repetition window
    let wlen: usize = state.last_tokens.len();
    let mut all_same: bool = wlen >= 10;
    if wlen >= 10 {
        let mut k: usize = 0;
        while k < wlen
            invariant
                wlen == state.last_tokens@.len(),
                k <= wlen,
                state == old(state),
                all_same <==> (forall|q: int| 0 <= q < k ==> state.last_tokens@[q] == next_token),
            decreases wlen - k,
        {
            if state.last_tokens[k] != next_token {
                all_same = false;
            }
            k = k + 1;
        }
    } else {
        proof {
            assert(!rep_triggered(o.last_tokens@, next_token));
        }
    }
    if all_same {
        proof {
            assert(rep_triggered(o.last_tokens@, next_token));
        }
        let rc = state.repetition_count + 1;
        state.repetition_count = rc;
        if rc > 3 {
            return true;
        }
    } else {
        state.repetition_count = 0;
    }
    // record the token in the window
    state.last_tokens.push(next_token);
    if state.last_tokens.len() > 10 {
        state.last_tokens.remove(0);
        proof {
            assert(state.last_tokens@ =~= pushed_window(o.last_tokens@, next_token));
        }
    } else {
        proof {
            assert(state.last_tokens@ =~= pushed_window(o.last_tokens@, next_token));
        }
    }
    // token budget
    let tg = state.tokens_generated + 1;
    state.tokens_generated = tg;
    if tg >= max_tokens {
        return true;
    }
    // append the token's text
    let piece = str_chars(token_str);
    crate::coerce::extend_vec(&mut state.response, &piece);
    // early-stop heuristics
    if tg > 3 {
        let fence = pat3_fence();
        if contains_vec(&state.response, &fence) {
            return true;
        }
        let nl = pat1_char('\n');
        if contains_vec(&state.response, &nl) {
            return true;
        }
    }
    if tg > 10 {
        let trimmed = trim_vec(&state.response);
        if trimmed.len() > 0 {
            let last = trimmed[trimmed.len() - 1];
            if last == '.' || last == '!' || last == '?' {
                return true;
            }
        }
    }
    if state.response.len() > 200 {
        return true;
    }
    proof {
        assert(!text_stop(state.response@, tg as int));
    }
    false
}

/// The fence, as a vector.
fn pat3_fence() -> (r: Vec<char>)
    ensures
        r@ == fence_pat(),
{
    let mut r: Vec<char> = Vec::new();
    r.push('`');
    r.push('`');
    r.push('`');
    assert(r@ =~= fence_pat());
    r
}

/// A one-character pattern, as a vector.
fn pat1_char(c: char) -> (r: Vec<char>)
    ensures
        r@ == seq![c],
{
    let mut r: Vec<char> = Vec::new();
    r.push(c);
    assert(r@ =~= seq![c]);
    r
}

} // verus!

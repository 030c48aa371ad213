//! Bounded model cache: a mapping from model path to a loaded handle,
//! holding at most two entries; at capacity the oldest entry is
//! evicted.  Loading itself is the caller's business — the cache only
//! stores what it is given.

use vstd::prelude::*;

verus! {

/// The cache's capacity.
pub open spec fn cache_capacity() -> int {
    2
}

/// A bounded path-to-handle map.
pub struct ModelCache<M> {
    keys: Vec<String>,
    handles: Vec<M>,
}

impl<M> ModelCache<M> {
    /// One handle per key, never more than the capacity.
    pub closed spec fn wf(&self) -> bool {
        &&& self.keys@.len() == self.handles@.len()
        &&& self.keys@.len() <= cache_capacity()
        &&& forall|a: int, b: int|
            0 <= a < b < self.keys@.len() ==> self.keys@[a]@ != self.keys@[b]@
    }

    /// Is `k` a cached path?
    pub closed spec fn has_key(&self, k: Seq<char>) -> bool {
        exists|i: int| 0 <= i < self.keys@.len() && (#[trigger] self.keys@[i])@ == k
    }

    /// The handle stored under `k`.
    pub closed spec fn handle_at(&self, k: Seq<char>) -> M
        recommends
            self.has_key(k),
    {
        self.handles@[choose|i: int| 0 <= i < self.keys@.len() && (#[trigger] self.keys@[i])@ == k]
    }

    /// An empty cache.
    pub fn new() -> (r: Self)
        ensures
            r.wf(),
            r.len_spec() == 0,
    {
        ModelCache { keys: Vec::new(), handles: Vec::new() }
    }

    /// Number of cached models.
    pub closed spec fn len_spec(&self) -> int {
        self.keys@.len() as int
    }

    /// Number of cached models; it never exceeds the capacity.
    pub fn len(&self) -> (r: usize)
        requires
            self.wf(),
        ensures
            r as int == self.len_spec(),
            r <= 2,
    {
        self.keys.len()
    }

    /// Look up the handle cached under a path.
    pub fn lookup(&self, path: &String) -> (r: Option<&M>)
        requires
            self.wf(),
        ensures
            match r {
                Some(h) => self.has_key(path@) && *h == self.handle_at(path@),
                None => !self.has_key(path@),
            },
    {
        let n: usize = self.keys.len();
        let mut i: usize = 0;
        while i < n
            invariant
                self.wf(),
                n == self.keys@.len(),
                i <= n,
                forall|q: int| 0 <= q < i ==> (#[trigger] self.keys@[q])@ != path@,
            decreases n - i,
        {
            if self.keys[i].eq(path) {
                proof {
                    let w = choose|w: int|
                        0 <= w < self.keys@.len() && (#[trigger] self.keys@[w])@ == path@;
                    assert(w == i as int);
                }
                return Some(&self.handles[i]);
            }
            i = i + 1;
        }
        None
    }

    /// The path that entered the cache first: the one evicted at
    /// capacity.
    pub closed spec fn oldest_key(&self) -> Seq<char>
        recommends
            self.len_spec() > 0,
    {
        self.keys@[0]@
    }

    /// Drop every cached model.
    pub fn clear(&mut self)
        ensures
            final(self).wf(),
            final(self).len_spec() == 0,
            forall|k: Seq<char>| !final(self).has_key(k),
    {
        self.keys = Vec::new();
        self.handles = Vec::new();
    }

    /// Store a handle under a path not yet cached.  Below capacity
    /// every entry is retained; at capacity exactly the oldest entry is
    /// evicted and the rest keep their handles.  The cache never grows
    /// beyond its capacity of two.
    pub fn insert_evicting(&mut self, path: String, handle: M)
        requires
            old(self).wf(),
            !old(self).has_key(path@),
        ensures
            final(self).wf(),
            final(self).len_spec() == (if old(self).len_spec() < cache_capacity() {
                old(self).len_spec() + 1
            } else {
                cache_capacity()
            }),
            final(self).has_key(path@),
            final(self).handle_at(path@) == handle,
            old(self).len_spec() < cache_capacity() ==> forall|k: Seq<char>|
                old(self).has_key(k) ==> final(self).has_key(k) && final(self).handle_at(k)
                    == old(self).handle_at(k),
            old(self).len_spec() == cache_capacity() ==> {
                &&& !final(self).has_key(old(self).oldest_key())
                &&& forall|k: Seq<char>|
                    old(self).has_key(k) && k != old(self).oldest_key() ==> final(self).has_key(k)
                        && final(self).handle_at(k) == old(self).handle_at(k)
            },
    {
        let ghost first = *old(self);
        if self.keys.len() >= 2 {
            self.keys.remove(0);
            self.handles.remove(0);
        }
        let ghost pre = *self;
        self.keys.push(path);
        self.handles.push(handle);
        proof {
            let n = self.keys@.len();
            assert(self.keys@[n - 1]@ == path@);
            assert forall|a: int, b: int|
                0 <= a < b < self.keys@.len() implies self.keys@[a]@ != self.keys@[b]@ by {
                if b < n - 1 {
                    assert(self.keys@[a] == pre.keys@[a] && self.keys@[b] == pre.keys@[b]);
                } else {
                    assert(self.keys@[a] == pre.keys@[a]);
                    assert(!pre.has_key(path@)) by {
                        if pre.has_key(path@) {
                            let q = choose|q: int|
                                0 <= q < pre.keys@.len() && (#[trigger] pre.keys@[q])@ == path@;
                            if first.keys@.len() < 2 {
                                assert(first.keys@[q]@ == path@);
                            } else {
                                assert(first.keys@[q + 1]@ == path@);
                            }
                        }
                    }
                }
            }
            let w = choose|w: int|
                0 <= w < self.keys@.len() && (#[trigger] self.keys@[w])@ == path@;
            assert(w == n - 1);
            if first.keys@.len() < 2 {
                // nothing was evicted: every old entry sits where it was
                assert forall|k: Seq<char>| first.has_key(k) implies final(self).has_key(k)
                    && final(self).handle_at(k) == first.handle_at(k) by {
                    let a = choose|a: int|
                        0 <= a < first.keys@.len() && (#[trigger] first.keys@[a])@ == k;
                    assert(self.keys@[a]@ == k);
                    let a2 = choose|a2: int|
                        0 <= a2 < self.keys@.len() && (#[trigger] self.keys@[a2])@ == k;
                    assert(a2 == a) by {
                        if a2 != a {
                            if a2 < n - 1 {
                                assert(self.keys@[a2] == first.keys@[a2]);
                            }
                        }
                    }
                    let a3 = choose|a3: int|
                        0 <= a3 < first.keys@.len() && (#[trigger] first.keys@[a3])@ == k;
                    assert(a3 == a);
                }
            } else {
                // the oldest entry left; the survivor shifted down one
                assert(self.keys@.len() == 2);
                assert(self.keys@[0] == first.keys@[1]);
                assert(self.handles@[0] == first.handles@[1]);
                assert(!final(self).has_key(first.oldest_key())) by {
                    if final(self).has_key(first.keys@[0]@) {
                        let q = choose|q: int|
                            0 <= q < self.keys@.len() && (#[trigger] self.keys@[q])@
                                == first.keys@[0]@;
                        if q == 0 {
                            assert(first.keys@[1]@ == first.keys@[0]@);
                        } else {
                            assert(self.keys@[1]@ == path@);
                            assert(first.has_key(path@)) by {
                                assert(first.keys@[0]@ == path@);
                            }
                        }
                    }
                }
                assert forall|k: Seq<char>|
                    first.has_key(k) && k != first.oldest_key() implies final(self).has_key(k)
                    && final(self).handle_at(k) == first.handle_at(k) by {
                    let a = choose|a: int|
                        0 <= a < first.keys@.len() && (#[trigger] first.keys@[a])@ == k;
                    assert(a == 1) by {
                        if a == 0 {
                            assert(k == first.oldest_key());
                        }
                    }
                    assert(self.keys@[0]@ == k);
                    let a2 = choose|a2: int|
                        0 <= a2 < self.keys@.len() && (#[trigger] self.keys@[a2])@ == k;
                    assert(a2 == 0) by {
                        if a2 == 1 {
                            assert(self.keys@[1]@ == path@);
                            assert(first.keys@[1]@ == path@);
                        }
                    }
                    let a3 = choose|a3: int|
                        0 <= a3 < first.keys@.len() && (#[trigger] first.keys@[a3])@ == k;
                    assert(a3 == 1) by {
                        if a3 == 0 {
                            assert(k == first.oldest_key());
                        }
                    }
                }
            }
        }
    }
}

} // verus!

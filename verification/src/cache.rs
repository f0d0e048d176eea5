//! A least-recently-used cache of file contents, keyed by path.
use vstd::prelude::*;

use crate::assoc::{distinct_keys, find_key, lemma_absent, lemma_found, lemma_without, lookup, without};

verus! {

/// A cache holding at most `capacity` entries, from the least recently used
/// to the most recently used.
pub struct LruCache {
    entries: Vec<(Vec<u8>, Vec<u8>)>,
    capacity: usize,
}

/// The entries after `k` is put with value `v`: an older entry of `k` goes,
/// the new one becomes the most recently used, and where that leaves more than
/// `cap` entries the least recently used one is dropped.
pub open spec fn put_entries(e: Seq<(Seq<u8>, Seq<u8>)>, cap: nat, k: Seq<u8>, v: Seq<u8>) -> Seq<
    (Seq<u8>, Seq<u8>),
> {
    let e1 = without(e, k).push((k, v));
    if e1.len() > cap {
        e1.drop_first()
    } else {
        e1
    }
}

impl View for LruCache {
    type V = Seq<(Seq<u8>, Seq<u8>)>;

    /// The entries as (path, contents) pairs, least recently used first.
    closed spec fn view(&self) -> Seq<(Seq<u8>, Seq<u8>)> {
        self.entries@.map_values(|p: (Vec<u8>, Vec<u8>)| (p.0@, p.1@))
    }
}

impl LruCache {
    /// The most entries the cache holds.
    pub closed spec fn max_len(&self) -> nat {
        self.capacity as nat
    }

    /// No path is cached twice and the capacity is respected.
    pub open spec fn wf(&self) -> bool {
        &&& distinct_keys(self@)
        &&& self@.len() <= self.max_len()
    }

    /// An empty cache that holds at most `capacity` entries.
    pub fn new(capacity: usize) -> (c: LruCache)
        ensures
            c.wf(),
            c@ == Seq::<(Seq<u8>, Seq<u8>)>::empty(),
            c.max_len() == capacity,
    {
        let c = LruCache { entries: Vec::new(), capacity };
        assert(c@ =~= Seq::<(Seq<u8>, Seq<u8>)>::empty());
        c
    }

    /// The number of cached entries.
    pub fn len(&self) -> (n: usize)
        ensures
            n == self@.len(),
    {
        self.entries.len()
    }

    /// The most entries the cache holds.
    pub fn capacity(&self) -> (n: usize)
        ensures
            n == self.max_len(),
    {
        self.capacity
    }

    /// Takes the entry of `k` out of the cache and returns its contents.
    pub fn pop(&mut self, k: &[u8]) -> (r: Option<Vec<u8>>)
        requires
            old(self).wf(),
        ensures
            final(self).wf(),
            final(self).max_len() == old(self).max_len(),
            final(self)@ == without(old(self)@, k@),
            match r {
                Some(v) => lookup(old(self)@, k@) == Some(v@),
                None => lookup(old(self)@, k@) is None,
            },
    {
        let ghost e = self@;
        proof {
            lemma_without(e, k@);
        }
        match find_key(&self.entries, k) {
            Some(i) => {
                proof {
                    lemma_found(e, k@, i as int);
                }
                let (_key, value) = self.entries.remove(i);
                assert(self@ =~= e.remove(i as int));
                Some(value)
            },
            None => {
                proof {
                    lemma_absent(e, k@);
                }
                None
            },
        }
    }

    /// Puts `v` in the cache under `k` as its most recently used entry,
    /// dropping the least recently used entry where the cache would overflow.
    pub fn put(&mut self, k: Vec<u8>, v: Vec<u8>)
        requires
            old(self).wf(),
        ensures
            final(self).wf(),
            final(self).max_len() == old(self).max_len(),
            final(self)@ == put_entries(old(self)@, old(self).max_len(), k@, v@),
    {
        let ghost e = self@;
        let ghost kv = k@;
        let ghost vv = v@;
        proof {
            lemma_without(e, kv);
        }
        match find_key(&self.entries, k.as_slice()) {
            Some(i) => {
                proof {
                    lemma_found(e, kv, i as int);
                }
                self.entries.remove(i);
                assert(self@ =~= e.remove(i as int));
            },
            None => {
                proof {
                    lemma_absent(e, kv);
                }
            },
        }
        let ghost w = self@;
        assert(w == without(e, kv));
        self.entries.push((k, v));
        assert(self@ =~= w.push((kv, vv)));
        if self.entries.len() > self.capacity {
            self.entries.remove(0);
            assert(self@ =~= w.push((kv, vv)).drop_first());
        }
        proof {
            let e1 = w.push((kv, vv));
            assert(distinct_keys(e1)) by {
                assert forall|a: int, b: int| 0 <= a < b < e1.len() implies e1[a].0 != e1[b].0 by {
                    if b == w.len() {
                        assert(w[a].0 != kv);
                    } else {
                        assert(e1[a] == w[a] && e1[b] == w[b]);
                    }
                }
            }
            if e1.len() > self.capacity {
                let e2 = e1.drop_first();
                assert forall|a: int, b: int| 0 <= a < b < e2.len() implies e2[a].0 != e2[b].0 by {
                    assert(e2[a] == e1[a + 1] && e2[b] == e1[b + 1]);
                }
            }
        }
    }
}

/// A value put in the cache is the one taken out again under its key, where
/// the cache holds at least one entry.
pub proof fn lemma_put_then_pop(e: Seq<(Seq<u8>, Seq<u8>)>, cap: nat, k: Seq<u8>, v: Seq<u8>)
    requires
        cap > 0,
        distinct_keys(e),
        e.len() <= cap,
    ensures
        lookup(put_entries(e, cap, k, v), k) == Some(v),
{
    lemma_without(e, k);
    let e1 = without(e, k).push((k, v));
    assert(e1.drop_last() == without(e, k));
    if e1.len() > cap {
        let e2 = e1.drop_first();
        assert(e2.last() == (k, v));
    }
}

} // verus!

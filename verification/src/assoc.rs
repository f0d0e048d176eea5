//! Association lists keyed by byte strings: the model behind the stream map
//! and the file cache.
//!
//! An entry list is read from its oldest entry to its newest; a key is looked
//! up from the newest end, and in a well-formed list no key occurs twice.
use vstd::prelude::*;

use crate::bytes::bytes_eq;

verus! {

/// No key occurs twice.
pub open spec fn distinct_keys<W>(e: Seq<(Seq<u8>, W)>) -> bool {
    forall|i: int, j: int| 0 <= i < j < e.len() ==> e[i].0 != e[j].0
}

/// `k` is the key of some entry.
pub open spec fn has_key<W>(e: Seq<(Seq<u8>, W)>, k: Seq<u8>) -> bool {
    exists|i: int| 0 <= i < e.len() && e[i].0 == k
}

/// The value of the newest entry with key `k`.
pub open spec fn lookup<W>(e: Seq<(Seq<u8>, W)>, k: Seq<u8>) -> Option<W>
    decreases e.len(),
{
    if e.len() == 0 {
        None
    } else if e.last().0 == k {
        Some(e.last().1)
    } else {
        lookup(e.drop_last(), k)
    }
}

/// The list with every entry of key `k` taken out, the others in their order.
pub open spec fn without<W>(e: Seq<(Seq<u8>, W)>, k: Seq<u8>) -> Seq<(Seq<u8>, W)>
    decreases e.len(),
{
    if e.len() == 0 {
        e
    } else if e.last().0 == k {
        without(e.drop_last(), k)
    } else {
        without(e.drop_last(), k).push(e.last())
    }
}

/// Where `k` is absent, looking it up finds nothing and taking it out
/// changes nothing.
pub proof fn lemma_absent<W>(e: Seq<(Seq<u8>, W)>, k: Seq<u8>)
    requires
        forall|j: int| 0 <= j < e.len() ==> e[j].0 != k,
    ensures
        lookup(e, k) is None,
        without(e, k) == e,
    decreases e.len(),
{
    if e.len() > 0 {
        lemma_absent(e.drop_last(), k);
        assert(e.drop_last().push(e.last()) =~= e);
    }
}

/// Where a lookup finds nothing, the key is absent and taking it out changes
/// nothing.
pub proof fn lemma_lookup_none<W>(e: Seq<(Seq<u8>, W)>, k: Seq<u8>)
    requires
        lookup(e, k) is None,
    ensures
        forall|j: int| 0 <= j < e.len() ==> e[j].0 != k,
        without(e, k) == e,
    decreases e.len(),
{
    if e.len() > 0 {
        lemma_lookup_none(e.drop_last(), k);
        assert forall|j: int| 0 <= j < e.len() implies e[j].0 != k by {
            if j < e.len() - 1 {
                assert(e[j] == e.drop_last()[j]);
            }
        }
        assert(e.drop_last().push(e.last()) =~= e);
    }
}

/// In a list without repeated keys, the entry at `i` is the one that a
/// lookup of its key finds, and taking its key out removes just that entry.
pub proof fn lemma_found<W>(e: Seq<(Seq<u8>, W)>, k: Seq<u8>, i: int)
    requires
        distinct_keys(e),
        0 <= i < e.len(),
        e[i].0 == k,
    ensures
        lookup(e, k) == Some(e[i].1),
        without(e, k) == e.remove(i),
    decreases e.len(),
{
    let n = e.len() - 1;
    if i == n {
        assert forall|j: int| 0 <= j < e.drop_last().len() implies e.drop_last()[j].0 != k by {
            assert(e[j].0 != e[n].0);
        }
        lemma_absent(e.drop_last(), k);
        assert(e.remove(i) =~= e.drop_last());
    } else {
        assert(e[i].0 != e[n].0);
        lemma_found(e.drop_last(), k, i);
        assert(e.drop_last().remove(i).push(e.last()) =~= e.remove(i));
    }
}

/// Taking a key out leaves only entries of the list, none with that key, and
/// keeps the keys distinct.
pub proof fn lemma_without<W>(e: Seq<(Seq<u8>, W)>, k: Seq<u8>)
    ensures
        forall|j: int| 0 <= j < without(e, k).len() ==> without(e, k)[j].0 != k,
        forall|j: int|
            0 <= j < without(e, k).len() ==> exists|m: int|
                0 <= m < e.len() && #[trigger] without(e, k)[j] == e[m],
        without(e, k).len() <= e.len(),
        distinct_keys(e) ==> distinct_keys(without(e, k)),
    decreases e.len(),
{
    if e.len() > 0 {
        let d = e.drop_last();
        lemma_without(d, k);
        let w = without(d, k);
        assert forall|j: int| 0 <= j < w.len() implies exists|m: int|
            0 <= m < e.len() && #[trigger] w[j] == e[m] by {
            let m = choose|m: int| 0 <= m < d.len() && w[j] == d[m];
            assert(w[j] == e[m]);
        }
        if e.last().0 != k {
            let w2 = w.push(e.last());
            assert forall|j: int| 0 <= j < w2.len() implies exists|m: int|
                0 <= m < e.len() && #[trigger] w2[j] == e[m] by {
                if j < w.len() {
                    assert(w2[j] == w[j]);
                } else {
                    assert(w2[j] == e[e.len() - 1]);
                }
            }
            if distinct_keys(e) {
                assert forall|a: int, b: int| 0 <= a < b < w2.len() implies w2[a].0 != w2[b].0 by {
                    if b == w.len() {
                        let m = choose|m: int| 0 <= m < d.len() && w[a] == d[m];
                        assert(w2[a] == e[m]);
                        assert(e[m].0 != e[e.len() - 1].0);
                    } else {
                        assert(w2[a] == w[a] && w2[b] == w[b]);
                    }
                }
            }
        }
    }
}

/// Taking a key out leaves the lookup of every other key as it was.
pub proof fn lemma_lookup_without<W>(e: Seq<(Seq<u8>, W)>, n: Seq<u8>, k: Seq<u8>)
    requires
        k != n,
    ensures
        lookup(without(e, n), k) == lookup(e, k),
    decreases e.len(),
{
    if e.len() > 0 {
        lemma_lookup_without(e.drop_last(), n, k);
        if e.last().0 != n {
            assert(without(e, n).drop_last() == without(e.drop_last(), n));
        }
    }
}

/// Taking a key out keeps every other key.
pub proof fn lemma_without_keeps<W>(e: Seq<(Seq<u8>, W)>, n: Seq<u8>, k: Seq<u8>)
    requires
        k != n,
    ensures
        has_key(without(e, n), k) == has_key(e, k),
    decreases e.len(),
{
    if e.len() > 0 {
        let d = e.drop_last();
        lemma_without_keeps(d, n, k);
        let w = without(d, n);
        if has_key(e, k) {
            let i = choose|i: int| 0 <= i < e.len() && e[i].0 == k;
            if i < d.len() {
                assert(d[i].0 == k);
                let j = choose|j: int| 0 <= j < w.len() && w[j].0 == k;
                if e.last().0 != n {
                    assert(without(e, n)[j] == w[j]);
                }
            } else {
                assert(without(e, n).last().0 == k);
            }
        }
        if has_key(without(e, n), k) {
            let j = choose|j: int| 0 <= j < without(e, n).len() && without(e, n)[j].0 == k;
            if e.last().0 != n && j == w.len() {
                assert(e[e.len() - 1].0 == k);
            } else {
                assert(without(e, n)[j] == w[j]);
                let m = choose|m: int| 0 <= m < w.len() && w[m].0 == k;
                assert(has_key(d, k));
                let i = choose|i: int| 0 <= i < d.len() && d[i].0 == k;
                assert(e[i] == d[i]);
            }
        }
    }
}

/// Finds the index of the entry with key `k`.
pub fn find_key<V>(entries: &Vec<(Vec<u8>, V)>, k: &[u8]) -> (r: Option<usize>)
    ensures
        r matches Some(i) ==> i < entries@.len() && entries@[i as int].0@ == k@,
        r is None ==> forall|j: int| 0 <= j < entries@.len() ==> entries@[j].0@ != k@,
{
    let mut i: usize = 0;
    while i < entries.len()
        invariant
            i <= entries@.len(),
            forall|j: int| 0 <= j < i ==> entries@[j].0@ != k@,
        decreases entries@.len() - i,
    {
        if bytes_eq(entries[i].0.as_slice(), k) {
            return Some(i);
        }
        i = i + 1;
    }
    None
}

} // verus!

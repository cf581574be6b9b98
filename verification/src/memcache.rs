//! The bounded in-memory cache: an LRU list of processed outputs, charged by
//! the byte length of each output's buffer and capped by a configured budget.
//!
//! The cache is modeled by its recency list, most recently used first. After
//! every operation the tracked size equals the sum of the stored buffer
//! lengths, and either that size is within the budget or a single oversized
//! entry remains.

use vstd::prelude::*;
use vstd::string::StringSliceAdditionalSpecFns;
use std::collections::hash_map::RandomState;
use crate::image_types::ImageOutput;
use crate::image_types::ImageOutputView;
use crate::image_types::ProcessOptions;
use crate::fingerprint::canonical_bytes;
use crate::fingerprint::canon_spec;
use crate::outside::lru_entries;
use crate::outside::lru_get;
use crate::outside::lru_len;
use crate::outside::lru_new;
use crate::outside::lru_pop_lru;
use crate::outside::lru_put;

verus! {

/// The recency list of a cache: key bytes and stored output, most recently
/// used first.
pub type Entries = Seq<(Seq<u8>, ImageOutputView)>;

/// Whether some entry holds the key.
pub open spec fn has_key(e: Entries, k: Seq<u8>) -> bool {
    exists|i: int| 0 <= i < e.len() && e[i].0 == k
}

/// The first index holding the key, or `-1` when absent.
pub open spec fn key_index(e: Entries, k: Seq<u8>) -> int
    decreases e.len(),
{
    if e.len() == 0 {
        -1
    } else if e[0].0 == k {
        0
    } else {
        let r = key_index(e.drop_first(), k);
        if r == -1 {
            -1
        } else {
            r + 1
        }
    }
}

/// The entries whose key differs from `k`, in order.
pub open spec fn remove_key(e: Entries, k: Seq<u8>) -> Entries {
    e.filter(|p: (Seq<u8>, ImageOutputView)| p.0 != k)
}

/// No two entries share a key.
pub open spec fn no_dup_keys(e: Entries) -> bool {
    forall|i: int, j: int| 0 <= i < j < e.len() ==> e[i].0 != e[j].0
}

/// The total byte charge of the entries: the length of each stored buffer.
pub open spec fn sum_sizes(e: Entries) -> int
    decreases e.len(),
{
    if e.len() == 0 {
        0
    } else {
        sum_sizes(e.drop_last()) + e.last().1.buf.len()
    }
}

/// The recency list left after popping least-recently-used entries until the
/// charge fits the budget or one entry remains.
pub open spec fn evict(e: Entries, max: int) -> Entries
    decreases e.len(),
{
    if sum_sizes(e) <= max || e.len() <= 1 {
        e
    } else {
        evict(e.drop_last(), max)
    }
}

/// `key_index` finds the key exactly when `has_key` holds, at its first
/// position.
pub proof fn lemma_key_index(e: Entries, k: Seq<u8>)
    ensures
        has_key(e, k) <==> 0 <= key_index(e, k) < e.len(),
        !has_key(e, k) <==> key_index(e, k) == -1,
        has_key(e, k) ==> e[key_index(e, k)].0 == k,
        has_key(e, k) ==> forall|j: int| 0 <= j < key_index(e, k) ==> e[j].0 != k,
    decreases e.len(),
{
    if e.len() > 0 {
        let d = e.drop_first();
        lemma_key_index(d, k);
        assert(forall|j: int| 1 <= j < e.len() ==> e[j] == #[trigger] d[j - 1]);
        if e[0].0 == k {
        } else {
            assert forall|i: int| 0 <= i < e.len() && e[i].0 == k implies 0 <= key_index(e, k)
                < e.len() by {
                assert(d[i - 1] == e[i]);
                assert(has_key(d, k));
            }
            if has_key(d, k) {
                let r = key_index(d, k);
                assert(e[r + 1] == d[r]);
                assert(has_key(e, k));
                assert forall|j: int| 0 <= j < key_index(e, k) implies e[j].0 != k by {
                    if j > 0 {
                        assert(e[j] == d[j - 1]);
                    }
                }
            }
        }
    }
}

/// Summing distributes over concatenation.
pub proof fn lemma_sum_sizes_add(a: Entries, b: Entries)
    ensures
        sum_sizes(a + b) == sum_sizes(a) + sum_sizes(b),
    decreases b.len(),
{
    if b.len() == 0 {
        assert(a + b =~= a);
    } else {
        assert((a + b).drop_last() =~= a + b.drop_last());
        assert((a + b).last() == b.last());
        lemma_sum_sizes_add(a, b.drop_last());
    }
}

/// Removing a key that occurs exactly once subtracts exactly its charge;
/// removing an absent key changes nothing. Removal also keeps the other
/// entries, their order, and key uniqueness.
pub proof fn lemma_remove_key(e: Entries, k: Seq<u8>)
    requires
        no_dup_keys(e),
    ensures
        !has_key(e, k) ==> remove_key(e, k) == e,
        has_key(e, k) ==> sum_sizes(remove_key(e, k)) == sum_sizes(e) - e[key_index(
            e,
            k,
        )].1.buf.len(),
        !has_key(remove_key(e, k), k),
        no_dup_keys(remove_key(e, k)),
        sum_sizes(remove_key(e, k)) <= sum_sizes(e) || !has_key(e, k),
        forall|i: int|
            0 <= i < remove_key(e, k).len() ==> e.contains(#[trigger] remove_key(e, k)[i]),
    decreases e.len(),
{
    let pred = |p: (Seq<u8>, ImageOutputView)| p.0 != k;
    lemma_key_index(e, k);
    lemma_remove_subset(e, k);
    broadcast use vstd::seq_lib::group_filter_ensures;

    reveal(Seq::filter);

    if e.len() == 0 {
        assert(remove_key(e, k) =~= e);
    } else {
        let d = e.drop_last();
        assert(no_dup_keys(d)) by {
            assert(forall|i: int, j: int|
                0 <= i < j < d.len() ==> d[i] == e[i] && d[j] == e[j]);
        }
        lemma_remove_key(d, k);
        lemma_key_index(d, k);
        // filter recurses over drop_last the same way sum_sizes does
        assert(e.filter(pred) == if pred(e.last()) {
            d.filter(pred).push(e.last())
        } else {
            d.filter(pred)
        });
        if e.last().0 == k {
            // the last entry is the one removed; no earlier entry has key k
            assert(!has_key(d, k)) by {
                if has_key(d, k) {
                    let i = key_index(d, k);
                    assert(e[i].0 == k && e[e.len() - 1].0 == k && i < e.len() - 1);
                }
            }
            assert(remove_key(e, k) == d);
            assert(key_index(e, k) == e.len() - 1) by {
                lemma_key_index_unique(e, k, e.len() - 1);
            }
        } else {
            assert(remove_key(e, k) == remove_key(d, k).push(e.last()));
            assert(sum_sizes(remove_key(d, k).push(e.last())) == sum_sizes(remove_key(d, k))
                + e.last().1.buf.len()) by {
                assert(remove_key(d, k).push(e.last()).drop_last() =~= remove_key(d, k));
            }
            if has_key(e, k) {
                assert(has_key(d, k)) by {
                    let i = choose|i: int| 0 <= i < e.len() && e[i].0 == k;
                    assert(d[i] == e[i]);
                }
                assert(key_index(e, k) == key_index(d, k)) by {
                    lemma_key_index_unique(e, k, key_index(d, k));
                }
                assert(e[key_index(e, k)] == d[key_index(d, k)]);
            }
            assert(!has_key(remove_key(e, k), k)) by {
                if has_key(remove_key(e, k), k) {
                    let i = choose|i: int|
                        0 <= i < remove_key(e, k).len() && remove_key(e, k)[i].0 == k;
                    if i < remove_key(d, k).len() {
                        assert(remove_key(d, k)[i] == remove_key(e, k)[i]);
                    }
                }
            }
            assert(no_dup_keys(remove_key(e, k))) by {
                lemma_filter_no_dup(e, k);
            }
        }
    }
}

/// When a key occurs at exactly one position, `key_index` is that position.
proof fn lemma_key_index_unique(e: Entries, k: Seq<u8>, i: int)
    requires
        no_dup_keys(e),
        0 <= i < e.len(),
        e[i].0 == k,
    ensures
        key_index(e, k) == i,
{
    lemma_key_index(e, k);
    let r = key_index(e, k);
    if r < i {
        assert(e[r].0 == k && e[i].0 == k);
    }
    if r > i {
        assert(e[i].0 != k);
    }
}

/// Every entry kept by removal stands in the original list.
proof fn lemma_remove_subset(e: Entries, k: Seq<u8>)
    ensures
        forall|i: int|
            0 <= i < remove_key(e, k).len() ==> e.contains(#[trigger] remove_key(e, k)[i]),
    decreases e.len(),
{
    let pred = |p: (Seq<u8>, ImageOutputView)| p.0 != k;
    reveal(Seq::filter);
    if e.len() > 0 {
        let d = e.drop_last();
        lemma_remove_subset(d, k);
        let f = remove_key(e, k);
        let fd = remove_key(d, k);
        assert(e.filter(pred) == if pred(e.last()) {
            d.filter(pred).push(e.last())
        } else {
            d.filter(pred)
        });
        assert forall|i: int| 0 <= i < f.len() implies e.contains(#[trigger] f[i]) by {
            if i < fd.len() {
                assert(f[i] == fd[i]);
                assert(d.contains(fd[i]));
                let m = choose|m: int| 0 <= m < d.len() && d[m] == fd[i];
                assert(e[m] == d[m]);
            } else {
                assert(f[i] == e.last());
                assert(e[e.len() - 1] == e.last());
            }
        }
    }
}

/// Filtering a duplicate-free list keeps it duplicate-free.
proof fn lemma_filter_no_dup(e: Entries, k: Seq<u8>)
    requires
        no_dup_keys(e),
    ensures
        no_dup_keys(remove_key(e, k)),
    decreases e.len(),
{
    let pred = |p: (Seq<u8>, ImageOutputView)| p.0 != k;
    broadcast use vstd::seq_lib::group_filter_ensures;

    reveal(Seq::filter);
    if e.len() == 0 {
        assert(remove_key(e, k) =~= e);
    } else {
        let d = e.drop_last();
        assert(no_dup_keys(d)) by {
            assert(forall|i: int, j: int|
                0 <= i < j < d.len() ==> d[i] == e[i] && d[j] == e[j]);
        }
        lemma_filter_no_dup(d, k);
        let f = remove_key(e, k);
        let fd = remove_key(d, k);
        assert(e.filter(pred) == if pred(e.last()) {
            d.filter(pred).push(e.last())
        } else {
            d.filter(pred)
        });
        if pred(e.last()) {
            assert forall|i: int, j: int| 0 <= i < j < f.len() implies f[i].0 != f[j].0 by {
                if j < fd.len() {
                    assert(f[i] == fd[i] && f[j] == fd[j]);
                } else {
                    // f[j] is the old last entry; f[i] stands somewhere in e
                    assert(f[i] == fd[i]);
                    lemma_remove_subset(d, k);
                    assert(d.contains(fd[i]));
                    let m = choose|m: int| 0 <= m < d.len() && d[m] == fd[i];
                    assert(e[m] == d[m]);
                    assert(e[m].0 != e[e.len() - 1].0);
                }
            }
        }
    }
}

/// Eviction keeps a prefix: the result is `e.take(n)` for some `n >= 1`
/// (when `e` is nonempty), its charge fits the budget unless one entry
/// remains, and it never grows.
pub proof fn lemma_evict(e: Entries, max: int)
    requires
        e.len() >= 1,
    ensures
        1 <= evict(e, max).len() <= e.len(),
        evict(e, max) == e.take(evict(e, max).len() as int),
        sum_sizes(evict(e, max)) <= max || evict(e, max).len() == 1,
    decreases e.len(),
{
    if sum_sizes(e) <= max || e.len() <= 1 {
        assert(e.take(e.len() as int) =~= e);
    } else {
        let d = e.drop_last();
        lemma_evict(d, max);
        let m = evict(d, max).len() as int;
        assert(evict(e, max) == evict(d, max));
        assert(d.take(m) =~= e.take(m));
    }
}

/// The bounded in-memory LRU cache, keyed by canonical fingerprint bytes.
pub struct MemoryCache {
    lru: lru::LruCache<Vec<u8>, ImageOutput, RandomState>,
    max: usize,
    size: usize,
}

impl MemoryCache {
    /// The recency list, most recently used first.
    pub closed spec fn entries(&self) -> Entries {
        lru_entries(self.lru)
    }

    /// The configured byte budget.
    pub closed spec fn max_bytes(&self) -> int {
        self.max as int
    }

    /// The tracked byte charge.
    pub closed spec fn size(&self) -> int {
        self.size as int
    }

    /// The cache invariant: the tracked size is the sum of the stored buffer
    /// lengths; no key is stored twice; and the size fits the budget unless a
    /// single oversized entry remains.
    pub closed spec fn wf(&self) -> bool {
        &&& self.max >= 1
        &&& self.size == sum_sizes(self.entries())
        &&& no_dup_keys(self.entries())
        &&& (self.size <= self.max || self.entries().len() == 1)
    }

    /// An empty cache with the given byte budget.
    pub fn new(max_bytes: usize) -> (r: MemoryCache)
        requires
            max_bytes > 0,
        ensures
            r.wf(),
            r.entries() == Seq::<(Seq<u8>, ImageOutputView)>::empty(),
            r.max_bytes() == max_bytes,
    {
        let r = MemoryCache { lru: lru_new(), max: max_bytes, size: 0 };
        proof {
            assert(sum_sizes(r.entries()) == 0);
        }
        r
    }

    /// Look up the output cached for (URL, options); a hit returns a copy of
    /// the stored value and promotes its recency, a miss changes nothing.
    pub fn get(&mut self, input: &str, options: ProcessOptions) -> (r: Option<ImageOutput>)
        requires
            old(self).wf(),
        ensures
            final(self).wf(),
            final(self).max_bytes() == old(self).max_bytes(),
            final(self).size() == old(self).size(),
            ({
                let k = canon_spec(input.spec_bytes(), options);
                let e = old(self).entries();
                match r {
                    Some(v) => {
                        &&& has_key(e, k)
                        &&& v@ == e[key_index(e, k)].1
                        &&& final(self).entries() == seq![(k, e[key_index(e, k)].1)] + remove_key(
                            e,
                            k,
                        )
                    },
                    None => {
                        &&& !has_key(e, k)
                        &&& final(self).entries() == e
                    },
                }
            }),
    {
        let key = canonical_bytes(input.as_bytes(), options);
        let r = lru_get(&mut self.lru, &key);
        proof {
            let k = key@;
            let e = old(self).entries();
            lemma_key_index(e, k);
            lemma_remove_key(e, k);
            if has_key(e, k) {
                let promoted = seq![(k, e[key_index(e, k)].1)] + remove_key(e, k);
                assert(sum_sizes(promoted) == sum_sizes(e)) by {
                    lemma_sum_sizes_add(seq![(k, e[key_index(e, k)].1)], remove_key(e, k));
                    lemma_sum_singleton(k, e[key_index(e, k)].1);
                }
                assert(no_dup_keys(promoted)) by {
                    assert(forall|i: int|
                        0 <= i < remove_key(e, k).len() ==> promoted[i + 1] == #[trigger] remove_key(
                            e,
                            k,
                        )[i]);
                    assert(forall|i: int, j: int|
                        0 < i < j < promoted.len() ==> promoted[i] == remove_key(e, k)[i - 1]
                            && promoted[j] == remove_key(e, k)[j - 1]);
                }
                assert(promoted.len() == e.len()) by {
                    lemma_remove_len_once(e, k);
                }
            }
        }
        r
    }

    /// Store the output for (URL, options): the new entry becomes the most
    /// recent; a replaced entry's charge is released; then least-recently
    /// used entries are popped until the charge fits the budget or only the
    /// new entry remains.
    pub fn set(&mut self, input: &str, options: ProcessOptions, output: ImageOutput)
        requires
            old(self).wf(),
        ensures
            final(self).wf(),
            final(self).max_bytes() == old(self).max_bytes(),
            ({
                let k = canon_spec(input.spec_bytes(), options);
                let inserted = seq![(k, output@)] + remove_key(old(self).entries(), k);
                final(self).entries() == evict(inserted, old(self).max_bytes())
            }),
    {
        let ghost e0 = self.entries();
        let ghost maxb = self.max as int;
        let key = canonical_bytes(input.as_bytes(), options);
        let ghost k = key@;
        let ghost outv = output@;
        let new_len = output.buf.len();
        let mut size128: u128 = self.size as u128 + new_len as u128;
        let replaced = lru_put(&mut self.lru, key, output);
        proof {
            lemma_key_index(e0, k);
            lemma_remove_key(e0, k);
            lemma_sum_singleton(k, outv);
            lemma_sum_sizes_add(seq![(k, outv)], remove_key(e0, k));
        }
        match replaced {
            Some(old_out) => {
                let old_len = old_out.buf.len();
                proof {
                    assert(old_len == e0[key_index(e0, k)].1.buf.len());
                    lemma_sum_nonneg(remove_key(e0, k));
                    assert(size128 >= old_len as u128);
                }
                size128 = size128 - old_len as u128;
            },
            None => {},
        }
        proof {
            assert(size128 == sum_sizes(self.entries()));
            assert(no_dup_keys(self.entries())) by {
                lemma_insert_no_dup(k, outv, remove_key(e0, k));
            }
        }
        // Pop least-recently-used entries until the budget is met or only
        // the newly inserted entry remains.
        let ghost inserted = self.entries();
        loop
            invariant
                self.max as int == maxb,
                maxb >= 1,
                size128 == sum_sizes(self.entries()),
                self.entries().len() >= 1,
                no_dup_keys(self.entries()),
                evict(self.entries(), maxb) == evict(inserted, maxb),
            ensures
                self.max as int == maxb,
                size128 == sum_sizes(self.entries()),
                self.entries() == evict(inserted, maxb),
                sum_sizes(self.entries()) <= maxb || self.entries().len() == 1,
                no_dup_keys(self.entries()),
            decreases self.entries().len(),
        {
            if size128 <= self.max as u128 {
                proof {
                    assert(evict(self.entries(), maxb) == self.entries());
                }
                break;
            }
            let n = lru_len(&self.lru);
            if n <= 1 {
                proof {
                    assert(evict(self.entries(), maxb) == self.entries());
                }
                break;
            }
            let ghost before = self.entries();
            let popped = lru_pop_lru(&mut self.lru);
            match popped {
                Some(kv) => {
                    let len = kv.1.buf.len();
                    proof {
                        assert(sum_sizes(before) == sum_sizes(before.drop_last())
                            + before.last().1.buf.len());
                        lemma_sum_nonneg(before.drop_last());
                        assert(no_dup_keys(self.entries())) by {
                            assert(forall|i: int, j: int|
                                0 <= i < j < before.drop_last().len() ==> before.drop_last()[i]
                                    == before[i] && before.drop_last()[j] == before[j]);
                        }
                    }
                    size128 = size128 - len as u128;
                },
                None => {
                    // unreachable: the cache held more than one entry
                    proof {
                        assert(false);
                    }
                },
            }
        }
        // The final charge fits in usize: it is within the budget, or it is
        // the byte length of the one remaining entry, the newly inserted one.
        proof {
            lemma_sum_nonneg(self.entries());
            if sum_sizes(self.entries()) > self.max as int {
                assert(self.entries().len() == 1);
                lemma_evict(inserted, maxb);
                assert(inserted[0] == (k, outv));
                assert(self.entries() == inserted.take(1));
                assert(self.entries() =~= seq![(k, outv)]);
                lemma_sum_singleton(k, outv);
                assert(sum_sizes(self.entries()) == new_len);
            }
            assert(size128 <= usize::MAX);
        }
        self.size = size128 as usize;
    }
}

/// The charge of a single entry is its buffer length.
proof fn lemma_sum_singleton(k: Seq<u8>, v: ImageOutputView)
    ensures
        sum_sizes(seq![(k, v)]) == v.buf.len(),
{
    assert(seq![(k, v)].drop_last() =~= Seq::<(Seq<u8>, ImageOutputView)>::empty());
    assert(sum_sizes(Seq::<(Seq<u8>, ImageOutputView)>::empty()) == 0);
}

/// Byte charges are nonnegative.
proof fn lemma_sum_nonneg(e: Entries)
    ensures
        sum_sizes(e) >= 0,
    decreases e.len(),
{
    if e.len() > 0 {
        lemma_sum_nonneg(e.drop_last());
    }
}

/// Prepending a fresh key to a list that does not hold it keeps keys unique.
proof fn lemma_insert_no_dup(k: Seq<u8>, v: ImageOutputView, rest: Entries)
    requires
        no_dup_keys(rest),
        !has_key(rest, k),
    ensures
        no_dup_keys(seq![(k, v)] + rest),
{
    let e = seq![(k, v)] + rest;
    assert forall|i: int, j: int| 0 <= i < j < e.len() implies e[i].0 != e[j].0 by {
        if i == 0 {
            assert(e[j] == rest[j - 1]);
            if e[j].0 == k {
                assert(has_key(rest, k));
            }
        } else {
            assert(e[i] == rest[i - 1] && e[j] == rest[j - 1]);
        }
    }
}

/// Removing the one occurrence of a key shortens the list by one.
proof fn lemma_remove_len_once(e: Entries, k: Seq<u8>)
    requires
        no_dup_keys(e),
        has_key(e, k),
    ensures
        remove_key(e, k).len() == e.len() - 1,
    decreases e.len(),
{
    let pred = |p: (Seq<u8>, ImageOutputView)| p.0 != k;
    broadcast use vstd::seq_lib::group_filter_ensures;

    reveal(Seq::filter);
    lemma_key_index(e, k);
    let d = e.drop_last();
    assert(no_dup_keys(d)) by {
        assert(forall|i: int, j: int| 0 <= i < j < d.len() ==> d[i] == e[i] && d[j] == e[j]);
    }
    assert(e.filter(pred) == if pred(e.last()) {
        d.filter(pred).push(e.last())
    } else {
        d.filter(pred)
    });
    if e.last().0 == k {
        assert(!has_key(d, k)) by {
            if has_key(d, k) {
                lemma_key_index(d, k);
                let i = key_index(d, k);
                assert(e[i].0 == k && e[e.len() - 1].0 == k && i < e.len() - 1);
            }
        }
        lemma_remove_key(d, k);
    } else {
        assert(has_key(d, k)) by {
            let i = choose|i: int| 0 <= i < e.len() && e[i].0 == k;
            assert(i < e.len() - 1);
            assert(d[i] == e[i]);
        }
        lemma_remove_len_once(d, k);
    }
}


/// Law: after every operation the tracked size equals the sum of the stored
/// buffer lengths, and it fits the budget unless a single oversized entry
/// remains.
pub proof fn lemma_size_accounting(c: &MemoryCache)
    requires
        c.wf(),
    ensures
        c.size() == sum_sizes(c.entries()),
        c.size() <= c.max_bytes() || c.entries().len() == 1,
{
}

/// Law: a lookup immediately after a store observes exactly the stored
/// value. The new entry is most recent, and eviction pops from the other
/// end, so the entry just stored is never the one dropped.
pub proof fn lemma_get_after_set(e: Entries, max: int, k: Seq<u8>, v: ImageOutputView)
    ensures
        ({
            let after = evict(seq![(k, v)] + remove_key(e, k), max);
            has_key(after, k) && after[key_index(after, k)].1 == v
        }),
{
    let inserted = seq![(k, v)] + remove_key(e, k);
    assert(inserted[0] == (k, v));
    lemma_evict(inserted, max);
    let after = evict(inserted, max);
    assert(after[0] == inserted.take(after.len() as int)[0]);
    assert(after[0] == (k, v));
    assert(has_key(after, k));
    assert(key_index(after, k) == 0);
}

/// Law: a store introduces no value out of thin air. Every entry present
/// after a store is the newly stored pair or was already present, so a later
/// lookup may find a key absent but never bound to a value that was not
/// stored under it.
pub proof fn lemma_set_entries_from_old(
    e: Entries,
    max: int,
    k: Seq<u8>,
    v: ImageOutputView,
    i: int,
)
    requires
        no_dup_keys(e),
        0 <= i < evict(seq![(k, v)] + remove_key(e, k), max).len(),
    ensures
        ({
            let after = evict(seq![(k, v)] + remove_key(e, k), max);
            after[i] == (k, v) || e.contains(after[i])
        }),
{
    let inserted = seq![(k, v)] + remove_key(e, k);
    lemma_evict(inserted, max);
    let after = evict(inserted, max);
    assert(after[i] == inserted.take(after.len() as int)[i]);
    assert(after[i] == inserted[i]);
    if i > 0 {
        assert(inserted[i] == remove_key(e, k)[i - 1]);
        lemma_remove_key(e, k);
        assert(e.contains(remove_key(e, k)[i - 1]));
    }
}

} // verus!

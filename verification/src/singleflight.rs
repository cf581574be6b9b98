//! The single-flight registry: collapses concurrent identical requests into
//! one underlying computation.
//!
//! The registry holds the set of keys with an in-flight computation. The
//! first caller for a key becomes its leader and runs the computation; later
//! callers become followers and wait for the leader's broadcast. The slot is
//! removed on every leader exit path — completion, failure or abandonment —
//! so a new arrival after the exit starts a new computation. The waiting and
//! broadcasting itself is plumbing around this registry; what is proved here
//! is the slot discipline: one leader per key per flight, and no interference
//! between distinct keys.

use vstd::prelude::*;
use crate::image_types::bytes_eq;

verus! {

/// What a caller that entered the registry must do: lead the computation, or
/// follow the current leader's broadcast.
#[derive(Clone, Copy, Debug, PartialEq, Eq, Structural)]
pub enum Role {
    Leader,
    Follower,
}

/// Whether a key is in flight in the model.
pub open spec fn sf_contains(m: Seq<Seq<u8>>, k: Seq<u8>) -> bool {
    exists|i: int| 0 <= i < m.len() && m[i] == k
}

/// The model after a caller enters for `k`: unchanged when a flight exists,
/// extended by `k` when the caller becomes leader.
pub open spec fn enter_model(m: Seq<Seq<u8>>, k: Seq<u8>) -> Seq<Seq<u8>> {
    if sf_contains(m, k) {
        m
    } else {
        m.push(k)
    }
}

/// Whether entering for `k` grants leadership.
pub open spec fn enter_is_leader(m: Seq<Seq<u8>>, k: Seq<u8>) -> bool {
    !sf_contains(m, k)
}

/// The model after the leader for `k` exits: every flight for `k` is gone.
pub open spec fn exit_model(m: Seq<Seq<u8>>, k: Seq<u8>) -> Seq<Seq<u8>> {
    m.filter(|x: Seq<u8>| x != k)
}

/// The registry of in-flight computations, keyed by canonical fingerprint
/// bytes.
pub struct Group {
    keys: Vec<Vec<u8>>,
}

impl Group {
    /// The in-flight keys.
    pub closed spec fn model(&self) -> Seq<Seq<u8>> {
        self.keys@.map_values(|k: Vec<u8>| k@)
    }

    /// No key is registered twice.
    pub closed spec fn wf(&self) -> bool {
        forall|i: int, j: int|
            0 <= i < j < self.model().len() ==> self.model()[i] != self.model()[j]
    }

    /// An empty registry: nothing is in flight.
    pub fn new() -> (r: Group)
        ensures
            r.wf(),
            r.model() == Seq::<Seq<u8>>::empty(),
    {
        let r = Group { keys: Vec::new() };
        proof {
            assert(r.model() =~= Seq::<Seq<u8>>::empty());
        }
        r
    }

    /// Whether a flight for `key` exists, and its index.
    fn find(&self, key: &[u8]) -> (r: Option<usize>)
        ensures
            match r {
                Some(i) => i < self.model().len() && self.model()[i as int] == key@,
                None => !sf_contains(self.model(), key@),
            },
    {
        let mut i: usize = 0;
        while i < self.keys.len()
            invariant
                0 <= i <= self.model().len(),
                self.model().len() == self.keys@.len(),
                forall|j: int| 0 <= j < i ==> self.model()[j] != key@,
            decreases self.keys@.len() - i,
        {
            proof {
                assert(self.model()[i as int] == self.keys@[i as int]@);
            }
            if bytes_eq(self.keys[i].as_slice(), key) {
                return Some(i);
            }
            i += 1;
        }
        None
    }

    /// Enter the registry for `key`. The caller becomes leader exactly when
    /// no flight for `key` exists; a leader's key is registered, a
    /// follower's entry changes nothing.
    pub fn enter(&mut self, key: &[u8]) -> (r: Role)
        requires
            old(self).wf(),
        ensures
            final(self).wf(),
            r == Role::Leader <==> enter_is_leader(old(self).model(), key@),
            final(self).model() == enter_model(old(self).model(), key@),
    {
        match self.find(key) {
            Some(_) => Role::Follower,
            None => {
                let mut k: Vec<u8> = Vec::new();
                crate::jsontext::append_bytes(&mut k, key);
                proof {
                    assert(k@ =~= key@);
                }
                self.keys.push(k);
                proof {
                    assert(self.model() =~= old(self).model().push(key@));
                    assert forall|i: int, j: int|
                        0 <= i < j < self.model().len() implies self.model()[i]
                        != self.model()[j] by {
                        if j < self.model().len() - 1 {
                            assert(self.model()[i] == old(self).model()[i]);
                            assert(self.model()[j] == old(self).model()[j]);
                        } else {
                            assert(self.model()[i] == old(self).model()[i]);
                            assert(!sf_contains(old(self).model(), key@));
                        }
                    }
                }
                Role::Leader
            },
        }
    }

    /// Remove the flight for `key`. Every leader exit path — success,
    /// failure, abandonment — runs this before followers settle, so a new
    /// arrival starts a new computation.
    pub fn exit(&mut self, key: &[u8])
        requires
            old(self).wf(),
        ensures
            final(self).wf(),
            final(self).model() == exit_model(old(self).model(), key@),
            !sf_contains(final(self).model(), key@),
    {
        let ghost m0 = self.model();
        match self.find(key) {
            Some(i) => {
                self.keys.remove(i);
                proof {
                    lemma_remove_at_unique(m0, key@, i as int);
                    assert(self.model() =~= m0.remove(i as int));
                }
            },
            None => {
                proof {
                    lemma_exit_absent(m0, key@);
                }
            },
        }
        proof {
            lemma_exit_no_dup(m0, key@);
            lemma_exit_gone(self.model(), m0, key@);
        }
    }
}

/// The filter behind `exit_model` unfolds over `drop_last` like this.
proof fn lemma_exit_unfold(m: Seq<Seq<u8>>, k: Seq<u8>)
    requires
        m.len() > 0,
    ensures
        exit_model(m, k) == if m.last() != k {
            exit_model(m.drop_last(), k).push(m.last())
        } else {
            exit_model(m.drop_last(), k)
        },
{
    reveal(Seq::filter);
}

/// Removing the unique occurrence of `k` equals filtering `k` out.
proof fn lemma_remove_at_unique(m: Seq<Seq<u8>>, k: Seq<u8>, i: int)
    requires
        0 <= i < m.len(),
        m[i] == k,
        forall|a: int, b: int| 0 <= a < b < m.len() ==> m[a] != m[b],
    ensures
        m.remove(i) == exit_model(m, k),
    decreases m.len(),
{
    let d = m.drop_last();
    lemma_exit_unfold(m, k);
    if i == m.len() - 1 {
        assert(m.last() == k);
        assert(!sf_contains(d, k)) by {
            if sf_contains(d, k) {
                let j = choose|j: int| 0 <= j < d.len() && d[j] == k;
                assert(m[j] == k && m[i] == k && j < i);
            }
        }
        lemma_filter_all_kept(d, k);
        assert(m.remove(i) =~= d);
    } else {
        assert(m.last() != k) by {
            assert(m[i] == k && m[m.len() - 1] == m.last());
        }
        assert(forall|a: int, b: int| 0 <= a < b < d.len() ==> d[a] == m[a] && d[b] == m[b]);
        lemma_remove_at_unique(d, k, i);
        assert(m.remove(i) =~= d.remove(i).push(m.last()));
    }
}

/// Filtering out an absent key keeps everything.
proof fn lemma_filter_all_kept(m: Seq<Seq<u8>>, k: Seq<u8>)
    requires
        !sf_contains(m, k),
    ensures
        exit_model(m, k) == m,
    decreases m.len(),
{
    reveal(Seq::filter);
    if m.len() == 0 {
        assert(exit_model(m, k) =~= m);
    } else {
        let d = m.drop_last();
        assert(!sf_contains(d, k)) by {
            if sf_contains(d, k) {
                let i = choose|i: int| 0 <= i < d.len() && d[i] == k;
                assert(m[i] == k);
            }
        }
        lemma_filter_all_kept(d, k);
        assert(m.last() != k) by {
            assert(m[m.len() - 1] == m.last());
        }
        lemma_exit_unfold(m, k);
        assert(d.push(m.last()) =~= m);
    }
}

/// Exiting an absent key changes nothing.
proof fn lemma_exit_absent(m: Seq<Seq<u8>>, k: Seq<u8>)
    requires
        !sf_contains(m, k),
    ensures
        exit_model(m, k) == m,
{
    lemma_filter_all_kept(m, k);
}

/// Exit keeps keys unique.
proof fn lemma_exit_no_dup(m: Seq<Seq<u8>>, k: Seq<u8>)
    requires
        forall|a: int, b: int| 0 <= a < b < m.len() ==> m[a] != m[b],
    ensures
        forall|a: int, b: int|
            0 <= a < b < exit_model(m, k).len() ==> exit_model(m, k)[a] != exit_model(m, k)[b],
    decreases m.len(),
{
    if m.len() > 0 {
        let d = m.drop_last();
        assert(forall|a: int, b: int| 0 <= a < b < d.len() ==> d[a] == m[a] && d[b] == m[b]);
        lemma_exit_no_dup(d, k);
        lemma_exit_unfold(m, k);
        let f = exit_model(m, k);
        let fd = exit_model(d, k);
        if m.last() != k {
            assert forall|a: int, b: int| 0 <= a < b < f.len() implies f[a] != f[b] by {
                if b < fd.len() {
                    assert(f[a] == fd[a] && f[b] == fd[b]);
                } else {
                    assert(f[a] == fd[a]);
                    lemma_filter_member(d, k, a);
                    let i = choose|i: int| 0 <= i < d.len() && d[i] == fd[a];
                    assert(m[i] == d[i]);
                    assert(m[i] != m[m.len() - 1]);
                }
            }
        }
    }
}

/// Every filtered entry stands in the original list.
proof fn lemma_filter_member(m: Seq<Seq<u8>>, k: Seq<u8>, a: int)
    requires
        0 <= a < exit_model(m, k).len(),
    ensures
        exists|i: int| 0 <= i < m.len() && m[i] == exit_model(m, k)[a],
    decreases m.len(),
{
    reveal(Seq::filter);
    if m.len() > 0 {
        let d = m.drop_last();
        let f = exit_model(m, k);
        let fd = exit_model(d, k);
        lemma_exit_unfold(m, k);
        if m.last() != k {
            if a < fd.len() {
                assert(f[a] == fd[a]);
                lemma_filter_member(d, k, a);
                let i = choose|i: int| 0 <= i < d.len() && d[i] == fd[a];
                assert(m[i] == d[i]);
            } else {
                assert(f[a] == m.last());
                assert(m[m.len() - 1] == m.last());
            }
        } else {
            assert(f[a] == fd[a]);
            lemma_filter_member(d, k, a);
            let i = choose|i: int| 0 <= i < d.len() && d[i] == fd[a];
            assert(m[i] == d[i]);
        }
    } else {
        assert(exit_model(m, k) =~= m);
    }
}

/// After an exit, nothing for the key is in flight.
proof fn lemma_exit_gone(f: Seq<Seq<u8>>, m: Seq<Seq<u8>>, k: Seq<u8>)
    requires
        f == exit_model(m, k),
    ensures
        !sf_contains(f, k),
    decreases m.len(),
{
    if m.len() > 0 {
        lemma_exit_unfold(m, k);
        let d = m.drop_last();
        lemma_exit_gone(exit_model(d, k), d, k);
        let fd = exit_model(d, k);
        if sf_contains(f, k) {
            let i = choose|i: int| 0 <= i < f.len() && f[i] == k;
            if m.last() != k {
                if i < fd.len() {
                    assert(fd[i] == k);
                } else {
                    assert(f[i] == m.last());
                }
            } else {
                assert(fd[i] == k);
            }
        }
    } else {
        reveal(Seq::filter);
        assert(exit_model(m, k) =~= m);
    }
}

/// The model after `n` callers enter for `k`, one at a time.
pub open spec fn apply_enters(m: Seq<Seq<u8>>, k: Seq<u8>, n: nat) -> Seq<Seq<u8>>
    decreases n,
{
    if n == 0 {
        m
    } else {
        apply_enters(enter_model(m, k), k, (n - 1) as nat)
    }
}

/// How many of `n` callers entering for `k`, one at a time, become leader.
pub open spec fn leaders_granted(m: Seq<Seq<u8>>, k: Seq<u8>, n: nat) -> nat
    decreases n,
{
    if n == 0 {
        0
    } else {
        (if enter_is_leader(m, k) {
            1nat
        } else {
            0nat
        }) + leaders_granted(enter_model(m, k), k, (n - 1) as nat)
    }
}

/// Once a flight for `k` exists, it persists across further enters, and no
/// further caller becomes leader.
proof fn lemma_no_second_leader(m: Seq<Seq<u8>>, k: Seq<u8>, n: nat)
    requires
        sf_contains(m, k),
    ensures
        leaders_granted(m, k, n) == 0,
    decreases n,
{
    if n > 0 {
        assert(enter_model(m, k) == m);
        lemma_no_second_leader(m, k, (n - 1) as nat);
    }
}

/// Law: for any number of callers entering for the same key while no flight
/// for it exists and none exits, exactly one becomes leader — the
/// computation is invoked exactly once.
pub proof fn lemma_exactly_one_leader(m: Seq<Seq<u8>>, k: Seq<u8>, n: nat)
    requires
        !sf_contains(m, k),
        n >= 1,
    ensures
        leaders_granted(m, k, n) == 1,
{
    let m1 = enter_model(m, k);
    assert(m1 == m.push(k));
    assert(m1[m1.len() - 1] == k);
    assert(sf_contains(m1, k));
    lemma_no_second_leader(m1, k, (n - 1) as nat);
}

/// Law: work for distinct keys proceeds without serialization — entering or
/// exiting for one key neither creates nor removes a flight for another.
pub proof fn lemma_isolation(m: Seq<Seq<u8>>, k1: Seq<u8>, k2: Seq<u8>)
    requires
        k1 != k2,
    ensures
        sf_contains(enter_model(m, k1), k2) == sf_contains(m, k2),
        sf_contains(exit_model(m, k1), k2) == sf_contains(m, k2),
{
    let pred = |x: Seq<u8>| x != k1;
    if sf_contains(enter_model(m, k1), k2) {
        let i = choose|i: int| 0 <= i < enter_model(m, k1).len() && enter_model(m, k1)[i] == k2;
        if sf_contains(m, k1) {
            assert(m[i] == k2);
        } else {
            if i < m.len() {
                assert(m[i] == k2);
            } else {
                assert(enter_model(m, k1)[i] == k1);
            }
        }
    }
    if sf_contains(m, k2) {
        let i = choose|i: int| 0 <= i < m.len() && m[i] == k2;
        if !sf_contains(m, k1) {
            assert(enter_model(m, k1)[i] == k2);
        }
    }
    lemma_exit_isolation(m, k1, k2);
}

/// Exit for one key keeps exactly the flights for every other key.
proof fn lemma_exit_isolation(m: Seq<Seq<u8>>, k1: Seq<u8>, k2: Seq<u8>)
    requires
        k1 != k2,
    ensures
        sf_contains(exit_model(m, k1), k2) == sf_contains(m, k2),
    decreases m.len(),
{
    if m.len() == 0 {
        reveal(Seq::filter);
        assert(exit_model(m, k1) =~= m);
    } else {
        let d = m.drop_last();
        lemma_exit_isolation(d, k1, k2);
        lemma_exit_unfold(m, k1);
        let f = exit_model(m, k1);
        let fd = exit_model(d, k1);
        if sf_contains(f, k2) {
            let i = choose|i: int| 0 <= i < f.len() && f[i] == k2;
            if m.last() != k1 && i == f.len() - 1 {
                assert(m[m.len() - 1] == k2);
            } else {
                assert(f[i] == fd[i]);
                assert(sf_contains(fd, k2));
                assert(sf_contains(d, k2));
                let j = choose|j: int| 0 <= j < d.len() && d[j] == k2;
                assert(m[j] == k2);
            }
        }
        if sf_contains(m, k2) {
            let i = choose|i: int| 0 <= i < m.len() && m[i] == k2;
            if i == m.len() - 1 {
                assert(m.last() == k2);
                assert(f[f.len() - 1] == k2);
            } else {
                assert(d[i] == k2);
                assert(sf_contains(fd, k2));
                let j = choose|j: int| 0 <= j < fd.len() && fd[j] == k2;
                assert(f[j] == fd[j]);
            }
        }
    }
}

} // verus!

//! The disk cache's size accounting and eviction planning.
//!
//! The store itself is files on disk; what is verified here is the logic
//! that drives it: the approximate size counter, the decision to clean, the
//! removal target, and the choice of eviction victims from a random sample —
//! lowest access score first, at most ten per batch, stopping as soon as the
//! target is met.

use vstd::prelude::*;
use vstd::multiset::Multiset;

verus! {

/// How many files one removal batch may delete.
pub const BATCH_LIMIT: usize = 10;

/// The size accounting of the on-disk store. The runtime shares it behind
/// an atomic counter; every transition of that counter is one of these
/// methods.
pub struct DiskCacheState {
    max_size: u64,
    cur_size: u64,
}

impl DiskCacheState {
    /// The configured byte budget.
    pub closed spec fn max(&self) -> u64 {
        self.max_size
    }

    /// The tracked approximate store size.
    pub closed spec fn cur(&self) -> u64 {
        self.cur_size
    }

    /// Fresh accounting for a store with the given byte budget.
    pub fn new(max_size: u64) -> (r: DiskCacheState)
        requires
            max_size > 0,
        ensures
            r.max() == max_size,
            r.cur() == 0,
    {
        DiskCacheState { max_size, cur_size: 0 }
    }

    /// Record bytes written by a store or found by the initial scan. The
    /// counter saturates rather than wrap; it is approximate by design.
    pub fn record_add(&mut self, added: u64)
        ensures
            final(self).max() == old(self).max(),
            final(self).cur() == if old(self).cur() + added <= u64::MAX {
                old(self).cur() + added
            } else {
                u64::MAX as int
            },
    {
        if added <= u64::MAX - self.cur_size {
            self.cur_size = self.cur_size + added;
        } else {
            self.cur_size = u64::MAX;
        }
    }

    /// Whether a cleaning pass must run: the tracked size exceeds the
    /// budget.
    pub fn needs_clean(&self) -> (r: bool)
        ensures
            r == (self.cur() > self.max()),
    {
        self.cur_size > self.max_size
    }

    /// How many bytes a cleaning pass must remove.
    pub fn removal_target(&self) -> (r: u64)
        requires
            self.cur() > self.max(),
        ensures
            r == self.cur() - self.max(),
    {
        self.cur_size - self.max_size
    }

    /// The tracked approximate store size, in bytes.
    pub fn cur_bytes(&self) -> (r: u64)
        ensures
            r == self.cur(),
    {
        self.cur_size
    }

    /// Record bytes freed by deleting files. Removing more than is tracked
    /// is an accounting bug; callers check and abort instead, as the
    /// underflow detection demands.
    pub fn record_removed(&mut self, removed: u64)
        requires
            removed <= old(self).cur(),
        ensures
            final(self).max() == old(self).max(),
            final(self).cur() == old(self).cur() - removed,
    {
        self.cur_size = self.cur_size - removed;
    }
}

/// One eviction candidate from the random sample: its access score (time of
/// last access, falling back to modification then creation; files with no
/// score at all sort first) and its size in bytes.
#[derive(Clone, Copy, Debug, PartialEq, Eq, Structural)]
pub struct Candidate {
    /// 0 when no timestamp is available, 1 otherwise; unscored files sort
    /// before every scored one.
    pub score_kind: u64,
    /// The timestamp used for ordering, oldest first.
    pub score: u64,
    /// The candidate file's length in bytes.
    pub size: u64,
}

/// Candidate order: unscored files first, then oldest access first.
pub open spec fn cand_le(a: Candidate, b: Candidate) -> bool {
    if a.score_kind != b.score_kind {
        a.score_kind < b.score_kind
    } else {
        a.score <= b.score
    }
}

/// Whether a candidate list is sorted, lowest score first.
pub open spec fn sorted_cands(s: Seq<Candidate>) -> bool {
    forall|i: int, j: int| 0 <= i < j < s.len() ==> cand_le(s[i], s[j])
}

/// Candidate order holds between any two candidates, one way or the other.
fn cand_le_exec(a: &Candidate, b: &Candidate) -> (r: bool)
    ensures
        r == cand_le(*a, *b),
{
    if a.score_kind != b.score_kind {
        a.score_kind < b.score_kind
    } else {
        a.score <= b.score
    }
}

/// Sort eviction candidates by score, lowest first. The result holds the
/// same candidates.
pub fn sort_candidates(cands: &Vec<Candidate>) -> (r: Vec<Candidate>)
    ensures
        sorted_cands(r@),
        r@.to_multiset() == cands@.to_multiset(),
        r@.len() == cands@.len(),
{
    broadcast use vstd::seq_lib::group_to_multiset_ensures;
    broadcast use vstd::multiset::group_multiset_axioms;

    let ghost orig = cands@;
    let mut v: Vec<Candidate> = Vec::new();
    let mut ci: usize = 0;
    while ci < cands.len()
        invariant
            0 <= ci <= cands@.len(),
            v@ =~= cands@.take(ci as int),
        decreases cands@.len() - ci,
    {
        v.push(cands[ci]);
        ci += 1;
    }
    proof {
        assert(v@ =~= orig);
    }
    let mut out: Vec<Candidate> = Vec::new();
    while v.len() > 0
        invariant
            sorted_cands(out@),
            out@.to_multiset().add(v@.to_multiset()) =~= orig.to_multiset(),
            out@.len() + v@.len() == orig.len(),
            forall|i: int, j: int|
                0 <= i < out@.len() && 0 <= j < v@.len() ==> cand_le(out@[i], v@[j]),
        decreases v@.len(),
    {
        // find the least remaining candidate
        let mut imin: usize = 0;
        let mut i: usize = 1;
        while i < v.len()
            invariant
                0 <= imin < v@.len(),
                imin < i <= v@.len(),
                forall|j: int| 0 <= j < i ==> cand_le(v@[imin as int], v@[j]),
            decreases v@.len() - i,
        {
            if !cand_le_exec(&v[imin], &v[i]) {
                proof {
                    lemma_cand_total(v@[imin as int], v@[i as int]);
                    assert forall|j: int| 0 <= j < i + 1 implies cand_le(
                        v@[i as int],
                        v@[j],
                    ) by {
                        if j < i {
                            lemma_cand_trans(v@[i as int], v@[imin as int], v@[j]);
                        }
                    }
                }
                imin = i;
            }
            i += 1;
        }
        let ghost before = v@;
        let ghost out_before = out@;
        let c = v.remove(imin);
        out.push(c);
        proof {
            assert(before[imin as int] == c);
            assert(before.contains(c));
            vstd::seq_lib::to_multiset_remove::<Candidate>(before, imin as int);
            vstd::seq_lib::to_multiset_contains::<Candidate>(before, c);
            vstd::seq_lib::to_multiset_build::<Candidate>(out_before, c);
            assert(out@ == out_before.push(c));
            assert(before.remove(imin as int).to_multiset() == before.to_multiset().remove(c));
            assert forall|j: int| 0 <= j < v@.len() implies cand_le(c, v@[j]) by {
                if j < imin {
                    assert(v@[j] == before[j]);
                } else {
                    assert(v@[j] == before[j + 1]);
                }
            }
            assert forall|i2: int, j2: int|
                0 <= i2 < j2 < out@.len() implies cand_le(out@[i2], out@[j2]) by {
                if j2 < out@.len() - 1 {
                } else {
                    assert(out@[j2] == c);
                }
            }
            assert forall|x: Candidate|
                (out@.to_multiset().add(v@.to_multiset())).count(x) == orig.to_multiset().count(
                    x,
                ) by {
                let om = out_before.to_multiset();
                let bm = before.to_multiset();
                assert(out@.to_multiset() == om.insert(c));
                assert(v@.to_multiset() == bm.remove(c));
                assert(om.add(bm).count(x) == orig.to_multiset().count(x));
            }
            assert(out@.to_multiset().add(v@.to_multiset()) =~= orig.to_multiset());
        }
    }
    proof {
        assert(v@.to_multiset() =~= Multiset::<Candidate>::empty());
        assert(out@.to_multiset() =~= orig.to_multiset());
    }
    out
}

/// The order on candidates is total.
proof fn lemma_cand_total(a: Candidate, b: Candidate)
    ensures
        cand_le(a, b) || cand_le(b, a),
{
}

/// The order on candidates is transitive.
proof fn lemma_cand_trans(a: Candidate, b: Candidate, c: Candidate)
    requires
        cand_le(a, b),
        cand_le(b, c),
    ensures
        cand_le(a, c),
{
}

/// The removal plan over a sorted candidate list: how many of the first
/// `limit` candidates to delete, and how many bytes that frees. Deletion
/// stops as soon as the freed bytes meet the target.
pub open spec fn plan(c: Seq<Candidate>, target: int, limit: nat) -> (nat, int)
    decreases limit,
{
    if limit == 0 || c.len() == 0 || target <= 0 {
        (0nat, 0int)
    } else {
        let rest = plan(c.drop_first(), target - c[0].size, (limit - 1) as nat);
        ((rest.0 + 1) as nat, rest.1 + c[0].size)
    }
}

/// Compute the removal plan for one batch: walk the sorted candidates in
/// order, stop after `BATCH_LIMIT` files or as soon as the target is met.
/// Returns how many leading candidates to delete and the bytes freed.
pub fn plan_removals(cands: &Vec<Candidate>, target: u64) -> (r: (usize, u128))
    ensures
        ({
            let p = plan(cands@, target as int, BATCH_LIMIT as nat);
            r.0 == p.0 && r.1 == p.1 && r.0 <= cands@.len() && r.0 <= BATCH_LIMIT
        }),
{
    let mut count: usize = 0;
    let mut freed: u128 = 0;
    let ghost whole = cands@;
    proof {
        assert(whole.skip(0) =~= whole);
    }
    while count < BATCH_LIMIT && count < cands.len() && freed < target as u128
        invariant
            0 <= count <= whole.len(),
            count <= BATCH_LIMIT,
            cands@ == whole,
            freed <= count * (u64::MAX as u128),
            plan(whole, target as int, BATCH_LIMIT as nat) == ({
                let rest = plan(
                    whole.skip(count as int),
                    target - freed,
                    (BATCH_LIMIT - count) as nat,
                );
                ((rest.0 + count) as nat, rest.1 + freed)
            }),
        decreases whole.len() - count,
    {
        let sz = cands[count].size;
        proof {
            let t = whole.skip(count as int);
            assert(t[0] == whole[count as int]);
            assert(t.drop_first() =~= whole.skip(count as int + 1));
            assert(count * (u64::MAX as u128) + (u64::MAX as u128) == (count + 1) * (
            u64::MAX as u128)) by (nonlinear_arith);
        }
        freed = freed + sz as u128;
        count = count + 1;
    }
    proof {
        let t = whole.skip(count as int);
        if count >= BATCH_LIMIT || count >= whole.len() || freed >= target as u128 {
            assert(plan(t, target - freed, (BATCH_LIMIT - count) as nat) == (0nat, 0int));
        }
    }
    (count, freed)
}

/// Law: a removal batch frees at least the target, unless it ran out of
/// candidates or hit the per-batch cap.
pub proof fn lemma_plan_meets_target(c: Seq<Candidate>, target: int, limit: nat)
    ensures
        ({
            let p = plan(c, target, limit);
            p.1 >= target || p.0 == c.len() || p.0 == limit
        }),
    decreases limit,
{
    if limit == 0 || c.len() == 0 || target <= 0 {
    } else {
        lemma_plan_meets_target(c.drop_first(), target - c[0].size, (limit - 1) as nat);
    }
}

/// Law: a removal batch frees exactly the total size of the deleted
/// candidates, so the counter decrement matches the bytes removed.
pub proof fn lemma_plan_is_prefix_sum(c: Seq<Candidate>, target: int, limit: nat)
    ensures
        ({
            let p = plan(c, target, limit);
            p.0 <= c.len() && p.0 <= limit && p.1 == prefix_size(c, p.0 as int)
        }),
    decreases limit,
{
    let p = plan(c, target, limit);
    if limit == 0 || c.len() == 0 || target <= 0 {
    } else {
        lemma_plan_meets_target(c.drop_first(), target - c[0].size, (limit - 1) as nat);
        lemma_plan_is_prefix_sum(c.drop_first(), target - c[0].size, (limit - 1) as nat);
        let rest = plan(c.drop_first(), target - c[0].size, (limit - 1) as nat);
        assert(prefix_size(c, p.0 as int) == c[0].size + prefix_size(
            c.drop_first(),
            rest.0 as int,
        )) by {
            lemma_prefix_size_step(c, rest.0 as int);
        }
    }
}

/// The total size of the first `n` candidates.
pub open spec fn prefix_size(c: Seq<Candidate>, n: int) -> int
    decreases n,
{
    if n <= 0 || c.len() == 0 {
        0
    } else {
        c[0].size + prefix_size(c.drop_first(), n - 1)
    }
}

/// Peeling the first candidate off a prefix sum.
proof fn lemma_prefix_size_step(c: Seq<Candidate>, n: int)
    requires
        c.len() > 0,
        0 <= n,
    ensures
        prefix_size(c, n + 1) == c[0].size + prefix_size(c.drop_first(), n),
{
}

} // verus!

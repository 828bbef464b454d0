//! The miner service: uncle bookkeeping and block-template assembly.
//!
//! The miner keeps a candidate-uncle map keyed by block identity and the
//! height currently being mined. Submitted uncles stay in the candidate
//! set until the mining height advances beyond their age limit; template
//! assembly takes the transactions the pool selected and the eligible
//! uncles, capped in count and age by the consensus parameters.

use std::sync::Arc;
use vstd::prelude::*;

use crate::util::{
    arc_clone, BlockNumber, ChainStore, H256, IndexedBlock, IndexedTransaction, PowEngine,
    ServiceUnavailable, Shared,
};

verus! {

/// One assembled block template: what a sealed block at this height
/// would carry.
pub struct BlockTemplate {
    /// The height being mined.
    pub number: BlockNumber,
    /// Proposal-stage transactions, as the pool selected them.
    pub proposals: Vec<IndexedTransaction>,
    /// Commit-stage transactions, as the pool selected them.
    pub commits: Vec<IndexedTransaction>,
    /// Identities of the included uncles.
    pub uncles: Vec<H256>,
}

/// Index of the first candidate uncle with the given identity, or -1.
pub open spec fn find_uncle(us: Seq<Arc<IndexedBlock>>, h: H256) -> int
    decreases us.len(),
{
    if us.len() == 0 {
        -1
    } else if us[0].hash == h {
        0
    } else {
        let r = find_uncle(us.drop_first(), h);
        if r < 0 {
            -1
        } else {
            r + 1
        }
    }
}

/// Some candidate uncle carries the identity `h`.
pub open spec fn has_uncle(us: Seq<Arc<IndexedBlock>>, h: H256) -> bool {
    exists|i: int| 0 <= i < us.len() && #[trigger] us[i].hash == h
}

/// What an uncle submission does: a new identity is appended, a known
/// one replaces its slot.
pub open spec fn insert_uncle(us: Seq<Arc<IndexedBlock>>, b: Arc<IndexedBlock>) -> Seq<
    Arc<IndexedBlock>,
> {
    let i = find_uncle(us, b.hash);
    if i >= 0 {
        us.update(i, b)
    } else {
        us.push(b)
    }
}

/// An uncle is still fresh at mining height `n`: it trails by at most
/// `max_age` blocks.
pub open spec fn fresh_uncle(u: Arc<IndexedBlock>, n: BlockNumber, max_age: u64) -> bool {
    u.number + max_age >= n
}

/// The candidate set once the mining height has advanced to `n`: stale
/// uncles are evicted, order kept.
pub open spec fn evict_stale(us: Seq<Arc<IndexedBlock>>, n: BlockNumber, max_age: u64) -> Seq<
    Arc<IndexedBlock>,
>
    decreases us.len(),
{
    if us.len() == 0 {
        Seq::empty()
    } else {
        let rest = evict_stale(us.drop_last(), n, max_age);
        if fresh_uncle(us.last(), n, max_age) {
            rest.push(us.last())
        } else {
            rest
        }
    }
}

/// The uncles a template at height `n` includes: the first `max` fresh
/// candidates, in submission order.
pub open spec fn take_uncles(
    us: Seq<Arc<IndexedBlock>>,
    n: BlockNumber,
    max_age: u64,
    max: int,
) -> Seq<H256>
    decreases us.len(),
{
    if us.len() == 0 || max <= 0 {
        Seq::empty()
    } else if fresh_uncle(us[0], n, max_age) {
        seq![us[0].hash] + take_uncles(us.drop_first(), n, max_age, max - 1)
    } else {
        take_uncles(us.drop_first(), n, max_age, max)
    }
}

/// A template never includes a stale uncle: every identity it lists
/// belongs to a fresh candidate.
pub proof fn lemma_template_uncles_fresh(
    us: Seq<Arc<IndexedBlock>>,
    n: BlockNumber,
    max_age: u64,
    max: int,
    h: H256,
)
    requires
        take_uncles(us, n, max_age, max).contains(h),
    ensures
        exists|i: int|
            0 <= i < us.len() && #[trigger] us[i].hash == h && fresh_uncle(us[i], n, max_age),
    decreases us.len(),
{
    if us.len() > 0 && max > 0 && fresh_uncle(us[0], n, max_age) {
        if us[0].hash == h {
        } else {
            let picked = take_uncles(us, n, max_age, max);
            let rest = take_uncles(us.drop_first(), n, max_age, max - 1);
            assert(rest.contains(h)) by {
                let j = choose|j: int| 0 <= j < picked.len() && picked[j] == h;
                assert(rest[j - 1] == picked[j]);
            }
            lemma_template_uncles_fresh(us.drop_first(), n, max_age, max - 1, h);
            let i = choose|i: int|
                0 <= i < us.drop_first().len() && #[trigger] us.drop_first()[i].hash == h
                    && fresh_uncle(us.drop_first()[i], n, max_age);
            assert(us[i + 1] == us.drop_first()[i]);
        }
    } else if us.len() > 0 && max > 0 {
        lemma_template_uncles_fresh(us.drop_first(), n, max_age, max, h);
        let i = choose|i: int|
            0 <= i < us.drop_first().len() && #[trigger] us.drop_first()[i].hash == h
                && fresh_uncle(us.drop_first()[i], n, max_age);
        assert(us[i + 1] == us.drop_first()[i]);
    }
}

/// An uncle stays in the candidate set across a height advance exactly
/// while it is fresh at the new height.
pub proof fn lemma_eviction_keeps_fresh(
    us: Seq<Arc<IndexedBlock>>,
    n: BlockNumber,
    max_age: u64,
    h: H256,
)
    ensures
        has_uncle(evict_stale(us, n, max_age), h) == exists|i: int|
            0 <= i < us.len() && #[trigger] us[i].hash == h && fresh_uncle(us[i], n, max_age),
    decreases us.len(),
{
    if us.len() > 0 {
        let pre = us.drop_last();
        let last = us.last();
        let rest = evict_stale(pre, n, max_age);
        let result = evict_stale(us, n, max_age);
        lemma_eviction_keeps_fresh(pre, n, max_age, h);
        assert(us[us.len() - 1] == last);
        assert(forall|i: int| 0 <= i < pre.len() ==> us[i] == #[trigger] pre[i]);
        if has_uncle(result, h) {
            let j = choose|j: int| 0 <= j < result.len() && #[trigger] result[j].hash == h;
            if fresh_uncle(last, n, max_age) {
                if j == rest.len() {
                    assert(result[j] == last);
                    assert(us[us.len() - 1].hash == h && fresh_uncle(us[us.len() - 1], n, max_age));
                } else {
                    assert(result[j] == rest[j]);
                    assert(has_uncle(rest, h));
                    let i = choose|i: int|
                        0 <= i < pre.len() && #[trigger] pre[i].hash == h && fresh_uncle(
                            pre[i],
                            n,
                            max_age,
                        );
                    assert(us[i].hash == h && fresh_uncle(us[i], n, max_age));
                }
            } else {
                assert(result[j] == rest[j]);
                assert(has_uncle(rest, h));
                let i = choose|i: int|
                    0 <= i < pre.len() && #[trigger] pre[i].hash == h && fresh_uncle(
                        pre[i],
                        n,
                        max_age,
                    );
                assert(us[i].hash == h && fresh_uncle(us[i], n, max_age));
            }
        }
        if exists|i: int|
            0 <= i < us.len() && #[trigger] us[i].hash == h && fresh_uncle(us[i], n, max_age) {
            let i = choose|i: int|
                0 <= i < us.len() && #[trigger] us[i].hash == h && fresh_uncle(us[i], n, max_age);
            if i == us.len() - 1 {
                assert(fresh_uncle(last, n, max_age));
                assert(result[rest.len() as int] == last);
                assert(has_uncle(result, h));
            } else {
                assert(pre[i].hash == h && fresh_uncle(pre[i], n, max_age));
                assert(has_uncle(rest, h));
                let j = choose|j: int| 0 <= j < rest.len() && #[trigger] rest[j].hash == h;
                if fresh_uncle(last, n, max_age) {
                    assert(result[j] == rest[j]);
                } else {
                    assert(result[j] == rest[j]);
                }
                assert(has_uncle(result, h));
            }
        }
    }
}

/// The miner service's private state.
pub struct MinerService<S, P> {
    pub shared: Shared<S>,
    pub pow: P,
    /// Candidate uncles keyed by identity, in submission order.
    pub candidate_uncles: Vec<Arc<IndexedBlock>>,
    /// The height currently being mined.
    pub mining_number: BlockNumber,
    pub stopped: bool,
}

impl<S: ChainStore, P: PowEngine> MinerService<S, P> {
    /// The candidate-uncle set.
    pub open spec fn uncles(&self) -> Seq<Arc<IndexedBlock>> {
        self.candidate_uncles@
    }

    /// A miner at the given height with an empty candidate set; the
    /// proof-of-work capability is initialised for that height.
    pub fn new(shared: Shared<S>, pow: P, mining_number: BlockNumber) -> (r: MinerService<S, P>)
        ensures
            r.uncles().len() == 0,
            r.mining_number == mining_number,
            !r.stopped,
            r.shared == shared,
    {
        pow.init(mining_number);
        MinerService {
            shared,
            pow,
            candidate_uncles: Vec::new(),
            mining_number,
            stopped: false,
        }
    }

    /// Handle the shutdown signal.
    pub fn stop(&mut self)
        ensures
            final(self).stopped,
            final(self).candidate_uncles == old(self).candidate_uncles,
            final(self).mining_number == old(self).mining_number,
            final(self).shared == old(self).shared,
    {
        self.stopped = true;
    }

    /// Take one submitted uncle candidate into the set, keyed by its
    /// identity; fire-and-forget, so a stopped miner drops it silently.
    #[verifier::loop_isolation(false)]
    pub fn add_uncle(&mut self, uncle_block: Arc<IndexedBlock>)
        ensures
            old(self).stopped ==> *final(self) == *old(self),
            !old(self).stopped ==> {
                &&& final(self).uncles() == insert_uncle(old(self).uncles(), uncle_block)
                &&& has_uncle(final(self).uncles(), uncle_block.hash)
                &&& final(self).mining_number == old(self).mining_number
                &&& final(self).shared == old(self).shared
                &&& !final(self).stopped
            },
    {
        if self.stopped {
            return ;
        }
        let ghost orig = self.candidate_uncles@;
        let h = uncle_block.hash;
        let mut i: usize = 0;
        while i < self.candidate_uncles.len()
            invariant
                i <= orig.len(),
                self.candidate_uncles@ == orig,
                forall|j: int| 0 <= j < i ==> orig[j].hash != h,
                !self.stopped,
                self.mining_number == old(self).mining_number,
                self.shared == old(self).shared,
            decreases orig.len() - i,
        {
            if self.candidate_uncles[i].hash == h {
                proof {
                    lemma_find_uncle_found(orig, h, i as int);
                }
                self.candidate_uncles[i] = uncle_block;
                assert(self.candidate_uncles@[i as int].hash == h);
                return ;
            }
            i = i + 1;
        }
        proof {
            lemma_find_uncle_absent(orig, h);
        }
        self.candidate_uncles.push(uncle_block);
        assert(self.candidate_uncles@[orig.len() as int].hash == h);
    }

    /// Advance the height being mined; uncles that now trail by more
    /// than the age limit are evicted and the proof-of-work capability
    /// is re-initialised.
    #[verifier::loop_isolation(false)]
    pub fn update_mining_number(&mut self, n: BlockNumber)
        ensures
            old(self).stopped ==> *final(self) == *old(self),
            !old(self).stopped ==> {
                &&& final(self).mining_number == n
                &&& final(self).uncles() == evict_stale(
                    old(self).uncles(),
                    n,
                    old(self).shared.consensus.max_uncles_age,
                )
                &&& final(self).shared == old(self).shared
                &&& !final(self).stopped
            },
    {
        if self.stopped {
            return ;
        }
        let ghost orig = self.candidate_uncles@;
        let max_age = self.shared.consensus.max_uncles_age;
        let mut kept: Vec<Arc<IndexedBlock>> = Vec::new();
        let mut i: usize = 0;
        proof {
            assert(orig.subrange(0, 0) =~= Seq::<Arc<IndexedBlock>>::empty());
            assert(kept@ =~= evict_stale(orig.subrange(0, 0), n, max_age));
        }
        while i < self.candidate_uncles.len()
            invariant
                i <= orig.len(),
                self.candidate_uncles@ == orig,
                kept@ == evict_stale(orig.subrange(0, i as int), n, max_age),
                max_age == self.shared.consensus.max_uncles_age,
            decreases orig.len() - i,
        {
            let ghost pre = orig.subrange(0, i as int + 1);
            proof {
                assert(pre.drop_last() =~= orig.subrange(0, i as int));
                assert(pre.last() == orig[i as int]);
            }
            let u = &self.candidate_uncles[i];
            let fresh = u.number >= n || n - u.number <= max_age;
            proof {
                assert(fresh == fresh_uncle(orig[i as int], n, max_age));
            }
            if fresh {
                let copy = arc_clone(&self.candidate_uncles[i]);
                kept.push(copy);
            }
            i = i + 1;
        }
        proof {
            assert(orig.subrange(0, orig.len() as int) =~= orig);
        }
        self.candidate_uncles = kept;
        self.mining_number = n;
        self.pow.init(n);
    }

    /// Assemble one block template from the pool's selections and the
    /// eligible uncles: fresh candidates only, in submission order,
    /// capped at the consensus uncle count.
    #[verifier::loop_isolation(false)]
    pub fn build_template(
        &self,
        proposals: Vec<IndexedTransaction>,
        commits: Vec<IndexedTransaction>,
    ) -> (r: Result<BlockTemplate, ServiceUnavailable>)
        ensures
            self.stopped ==> r is Err,
            !self.stopped ==> (r matches Ok(t) && {
                &&& t.number == self.mining_number
                &&& t.proposals == proposals
                &&& t.commits == commits
                &&& t.uncles@ == take_uncles(
                    self.uncles(),
                    self.mining_number,
                    self.shared.consensus.max_uncles_age,
                    self.shared.consensus.max_uncles_len as int,
                )
            }),
    {
        if self.stopped {
            return Err(ServiceUnavailable);
        }
        let n = self.mining_number;
        let max_age = self.shared.consensus.max_uncles_age;
        let max_len = self.shared.consensus.max_uncles_len;
        let ghost us = self.candidate_uncles@;
        let mut uncles: Vec<H256> = Vec::new();
        let mut i: usize = 0;
        proof {
            assert(us.subrange(0, us.len() as int) =~= us);
            assert(uncles@ + take_uncles(us, n, max_age, max_len as int) =~= take_uncles(
                us,
                n,
                max_age,
                max_len as int,
            ));
        }
        while i < self.candidate_uncles.len() && uncles.len() < max_len
            invariant
                i <= us.len(),
                uncles@.len() <= max_len,
                us == self.candidate_uncles@,
                take_uncles(us, n, max_age, max_len as int) == uncles@ + take_uncles(
                    us.subrange(i as int, us.len() as int),
                    n,
                    max_age,
                    max_len - uncles@.len(),
                ),
            decreases us.len() - i,
        {
            let ghost suf = us.subrange(i as int, us.len() as int);
            proof {
                assert(suf[0] == us[i as int]);
                assert(suf.drop_first() =~= us.subrange(i as int + 1, us.len() as int));
            }
            let u = &self.candidate_uncles[i];
            let fresh = u.number >= n || n - u.number <= max_age;
            proof {
                assert(fresh == fresh_uncle(us[i as int], n, max_age));
            }
            if fresh {
                uncles.push(u.hash);
            }
            i = i + 1;
        }
        proof {
            if i == us.len() {
                assert(us.subrange(i as int, us.len() as int) =~= Seq::<
                    Arc<IndexedBlock>,
                >::empty());
            }
            assert(uncles@ =~= uncles@ + take_uncles(
                us.subrange(i as int, us.len() as int),
                n,
                max_age,
                max_len - uncles@.len(),
            ));
        }
        Ok(BlockTemplate { number: n, proposals, commits, uncles })
    }
}

proof fn lemma_find_uncle_found(us: Seq<Arc<IndexedBlock>>, h: H256, i: int)
    requires
        0 <= i < us.len(),
        us[i].hash == h,
        forall|j: int| 0 <= j < i ==> us[j].hash != h,
    ensures
        find_uncle(us, h) == i,
    decreases i,
{
    if i > 0 {
        assert forall|j: int| 0 <= j < i - 1 implies us.drop_first()[j].hash != h by {
            assert(us.drop_first()[j] == us[j + 1]);
        }
        assert(us.drop_first()[i - 1] == us[i]);
        lemma_find_uncle_found(us.drop_first(), h, i - 1);
    }
}

proof fn lemma_find_uncle_absent(us: Seq<Arc<IndexedBlock>>, h: H256)
    requires
        forall|j: int| 0 <= j < us.len() ==> us[j].hash != h,
    ensures
        find_uncle(us, h) == -1,
    decreases us.len(),
{
    if us.len() > 0 {
        assert forall|j: int| 0 <= j < us.drop_first().len() implies us.drop_first()[j].hash
            != h by {
            assert(us.drop_first()[j] == us[j + 1]);
        }
        lemma_find_uncle_absent(us.drop_first(), h);
    }
}

} // verus!

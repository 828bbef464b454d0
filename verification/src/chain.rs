//! The chain service: sole owner of the canonical chain state.
//!
//! Every admitted block is stored together with its cumulative
//! proof-of-work; the canonical chain is the ancestor path of the stored
//! block the tip index points at. `process_block` decides, for one
//! already verified candidate, whether it extends the best chain, wins a
//! reorg, or is only an uncle candidate, and hands back the action the
//! surrounding worker must publish. Ties in cumulative work keep the
//! current tip: only strictly greater work switches the chain
//! (first-seen-wins, the documented deterministic tie-break).

use std::sync::Arc;
use vstd::prelude::*;

use crate::notify::ForkBlocks;
use crate::util::{arc_clone, BlockNumber, ChainStore, H256, IndexedBlock, ServiceUnavailable, Shared};

verus! {

/// Snapshot of the best chain tip, returned by value: a point-in-time
/// read, not a live reference.
#[derive(Clone, Copy, PartialEq, Eq, Structural, Debug)]
pub struct TipHeader {
    pub number: BlockNumber,
    pub hash: H256,
}

impl TipHeader {
    /// Height of the tip this snapshot was taken from.
    pub fn number(&self) -> (r: BlockNumber)
        ensures
            r == self.number,
    {
        self.number
    }
}

/// Why a candidate block was not admitted. Faults of the storage engine
/// itself belong to the storage capability outside this library; the
/// admission rules here are total.
#[derive(Clone, Copy, PartialEq, Eq, Structural, Debug)]
pub enum ChainError {
    /// A block with this identity is already stored.
    KnownBlock,
    /// The parent is not stored, so the candidate cannot be placed.
    UnknownParent,
    /// The height is not one more than the parent's height.
    InvalidNumber,
    /// The branch's cumulative work does not fit the accumulator.
    WorkOverflow,
}

/// What the worker loop must do after a successful admission.
#[derive(PartialEq, Eq, Debug)]
pub enum ChainAction {
    /// The candidate extended the best chain: publish it as the new tip.
    PublishNewTip(Arc<IndexedBlock>),
    /// A heavier branch won: publish the blocks the reorg moved.
    PublishSwitchFork(Arc<ForkBlocks>),
    /// The candidate lost to the current tip: offer it to the miner as
    /// an uncle candidate.
    OfferUncle(Arc<IndexedBlock>),
}

/// One admitted block with the cumulative proof-of-work of its branch.
pub struct StoredBlock {
    pub block: Arc<IndexedBlock>,
    pub cum_work: u128,
}

/// Index of the first stored block with the given identity, or -1.
pub open spec fn find_hash(stored: Seq<StoredBlock>, h: H256) -> int
    decreases stored.len(),
{
    if stored.len() == 0 {
        -1
    } else if stored[0].block.hash == h {
        0
    } else {
        let r = find_hash(stored.drop_first(), h);
        if r < 0 {
            -1
        } else {
            r + 1
        }
    }
}

/// Index of the stored parent of the block stored at `i`.
pub open spec fn parent_idx(stored: Seq<StoredBlock>, i: int) -> int {
    find_hash(stored, stored[i].block.parent_hash)
}

/// The stored parent link of the block stored at `i` is sound: the
/// parent is stored, one level lower, and the cumulative work adds up.
pub open spec fn wf_link(stored: Seq<StoredBlock>, i: int) -> bool {
    let p = parent_idx(stored, i);
    &&& 0 <= p < stored.len()
    &&& stored[p].block.number + 1 == stored[i].block.number
    &&& stored[p].cum_work + stored[i].block.work == stored[i].cum_work
}

/// Well-formed block store: genesis first, identities distinct, and
/// every later block soundly linked to its stored parent.
pub open spec fn wf_stored(stored: Seq<StoredBlock>) -> bool {
    &&& stored.len() >= 1
    &&& stored[0].block.number == 0
    &&& stored[0].cum_work == stored[0].block.work
    &&& forall|i: int, j: int|
        0 <= i < j < stored.len() ==> stored[i].block.hash != stored[j].block.hash
    &&& forall|i: int| 1 <= i < stored.len() ==> stored[i].block.number >= 1
    &&& forall|i: int| 1 <= i < stored.len() ==> #[trigger] wf_link(stored, i)
}

/// The ancestor path of the block stored at `i`, genesis first, that
/// block last: the canonical chain when `i` is the tip.
pub open spec fn chain_of(stored: Seq<StoredBlock>, i: int) -> Seq<StoredBlock>
    decreases (if 0 <= i < stored.len() {
        stored[i].block.number
    } else {
        0
    }),
{
    if 0 <= i < stored.len() {
        if stored[i].block.number == 0 {
            seq![stored[i]]
        } else {
            let p = parent_idx(stored, i);
            if 0 <= p < stored.len() && stored[p].block.number < stored[i].block.number {
                chain_of(stored, p).push(stored[i])
            } else {
                seq![stored[i]]
            }
        }
    } else {
        Seq::empty()
    }
}

/// `k` is the fork point of the reorg from the chain of `old_tip` to the
/// chain of `new_tip`, and `fb` holds exactly the block suffixes above
/// it: detached from the old path, attached from the new one.
pub open spec fn fork_at(
    stored: Seq<StoredBlock>,
    old_tip: int,
    new_tip: int,
    k: int,
    fb: ForkBlocks,
) -> bool {
    let oldc = chain_of(stored, old_tip);
    let newc = chain_of(stored, new_tip);
    &&& 0 <= k < oldc.len()
    &&& k < newc.len()
    &&& oldc[k] == newc[k]
    &&& (k + 1 < oldc.len() && k + 1 < newc.len() ==> oldc[k + 1] != newc[k + 1])
    &&& fb.detached@ == oldc.subrange(k + 1, oldc.len() as int).map_values(
        |s: StoredBlock| s.block,
    )
    &&& fb.attached@ == newc.subrange(k + 1, newc.len() as int).map_values(
        |s: StoredBlock| s.block,
    )
}

/// `fb` describes the reorg from `old_tip`'s chain to `new_tip`'s chain.
pub open spec fn is_fork_switch(
    stored: Seq<StoredBlock>,
    old_tip: int,
    new_tip: int,
    fb: ForkBlocks,
) -> bool {
    exists|k: int| #[trigger] fork_at(stored, old_tip, new_tip, k, fb)
}

proof fn lemma_find_hash_props(stored: Seq<StoredBlock>, h: H256)
    ensures
        find_hash(stored, h) >= 0 ==> find_hash(stored, h) < stored.len() && stored[find_hash(
            stored,
            h,
        )].block.hash == h,
        find_hash(stored, h) < 0 ==> forall|j: int|
            0 <= j < stored.len() ==> stored[j].block.hash != h,
    decreases stored.len(),
{
    if stored.len() > 0 && stored[0].block.hash != h {
        lemma_find_hash_props(stored.drop_first(), h);
        if find_hash(stored.drop_first(), h) < 0 {
            assert forall|j: int| 0 <= j < stored.len() implies stored[j].block.hash != h by {
                if j > 0 {
                    assert(stored.drop_first()[j - 1] == stored[j]);
                }
            }
        } else {
            assert(stored.drop_first()[find_hash(stored.drop_first(), h)] == stored[find_hash(
                stored,
                h,
            )]);
        }
    }
}

proof fn lemma_find_hash_found(stored: Seq<StoredBlock>, h: H256, i: int)
    requires
        0 <= i < stored.len(),
        stored[i].block.hash == h,
        forall|j: int| 0 <= j < i ==> stored[j].block.hash != h,
    ensures
        find_hash(stored, h) == i,
    decreases i,
{
    if i > 0 {
        assert forall|j: int| 0 <= j < i - 1 implies stored.drop_first()[j].block.hash != h by {
            assert(stored.drop_first()[j] == stored[j + 1]);
        }
        assert(stored.drop_first()[i - 1] == stored[i]);
        lemma_find_hash_found(stored.drop_first(), h, i - 1);
    }
}

proof fn lemma_find_hash_push(stored: Seq<StoredBlock>, x: StoredBlock, h: H256)
    ensures
        find_hash(stored, h) >= 0 ==> find_hash(stored.push(x), h) == find_hash(stored, h),
        find_hash(stored, h) < 0 && x.block.hash == h ==> find_hash(stored.push(x), h)
            == stored.len(),
        find_hash(stored, h) < 0 && x.block.hash != h ==> find_hash(stored.push(x), h) < 0,
    decreases stored.len(),
{
    if stored.len() == 0 {
        assert(stored.push(x)[0] == x);
        assert(stored.push(x).len() == 1);
        assert(stored.push(x).drop_first() =~= Seq::<StoredBlock>::empty());
        assert(find_hash(Seq::<StoredBlock>::empty(), h) == -1);
        if x.block.hash != h {
            assert(find_hash(stored.push(x), h) == -1);
        }
    } else {
        assert(stored.push(x)[0] == stored[0]);
        lemma_find_hash_push(stored.drop_first(), x, h);
        assert(stored.push(x).drop_first() =~= stored.drop_first().push(x));
        if stored[0].block.hash != h && find_hash(stored.drop_first(), h) < 0 && x.block.hash
            != h {
            assert(find_hash(stored.drop_first().push(x), h) < 0);
            assert(find_hash(stored.push(x), h) == -1);
        }
    }
}

/// The canonical chain of the block at `i` steps to the chain of its
/// parent, and its shape follows the block's height.
proof fn lemma_chain_shape(stored: Seq<StoredBlock>, i: int)
    requires
        wf_stored(stored),
        0 <= i < stored.len(),
    ensures
        chain_of(stored, i).len() == stored[i].block.number + 1,
        chain_of(stored, i).last() == stored[i],
        stored[i].block.number >= 1 ==> chain_of(stored, i) == chain_of(
            stored,
            parent_idx(stored, i),
        ).push(stored[i]),
        i == 0 <==> stored[i].block.number == 0,
    decreases stored[i].block.number,
{
    if stored[i].block.number >= 1 {
        assert(wf_link(stored, i));
        lemma_chain_shape(stored, parent_idx(stored, i));
    }
}

/// Shape of a canonical chain: positions match heights, each element
/// follows its stored parent, and the tip comes last.
proof fn lemma_chain_elements(stored: Seq<StoredBlock>, t: int)
    requires
        wf_stored(stored),
        0 <= t < stored.len(),
    ensures
        chain_of(stored, t).len() == stored[t].block.number + 1,
        chain_of(stored, t).last() == stored[t],
        forall|i: int|
            0 <= i < chain_of(stored, t).len() ==> #[trigger] chain_of(stored, t)[i].block.number
                == i,
        forall|i: int|
            1 <= i < chain_of(stored, t).len() ==> #[trigger] chain_of(stored, t)[i - 1]
                == stored[find_hash(stored, chain_of(stored, t)[i].block.parent_hash)],
    decreases stored[t].block.number,
{
    lemma_chain_shape(stored, t);
    if stored[t].block.number >= 1 {
        assert(wf_link(stored, t));
        let p = parent_idx(stored, t);
        lemma_chain_elements(stored, p);
        let c = chain_of(stored, t);
        let cp = chain_of(stored, p);
        assert forall|i: int| 1 <= i < c.len() implies #[trigger] c[i - 1] == stored[find_hash(
            stored,
            c[i].block.parent_hash,
        )] by {
            if i < c.len() - 1 {
                assert(c[i] == cp[i]);
                assert(c[i - 1] == cp[i - 1]);
            } else {
                assert(c[i] == stored[t]);
                assert(c[i - 1] == cp.last());
            }
        }
    }
}

/// Two canonical chains that share the block at one position share
/// every position below it.
proof fn lemma_chains_agree_below(stored: Seq<StoredBlock>, a: int, b: int, n: int)
    requires
        wf_stored(stored),
        0 <= a < stored.len(),
        0 <= b < stored.len(),
        0 <= n < chain_of(stored, a).len(),
        n < chain_of(stored, b).len(),
        chain_of(stored, a)[n] == chain_of(stored, b)[n],
    ensures
        forall|i: int| 0 <= i <= n ==> chain_of(stored, a)[i] == chain_of(stored, b)[i],
    decreases n,
{
    lemma_chain_elements(stored, a);
    lemma_chain_elements(stored, b);
    if n > 0 {
        assert(chain_of(stored, a)[n - 1] == chain_of(stored, b)[n - 1]);
        lemma_chains_agree_below(stored, a, b, n - 1);
    }
}

/// What a fork record holds is exactly the set difference the reorg
/// moves: no detached block sits on the new path, no attached block
/// sat on the old one, and the paths agree up to the fork point.
pub proof fn lemma_fork_suffixes_are_differences(
    stored: Seq<StoredBlock>,
    old_tip: int,
    new_tip: int,
    k: int,
    fb: ForkBlocks,
)
    requires
        wf_stored(stored),
        0 <= old_tip < stored.len(),
        0 <= new_tip < stored.len(),
        fork_at(stored, old_tip, new_tip, k, fb),
    ensures
        forall|i: int| 0 <= i <= k ==> chain_of(stored, old_tip)[i] == chain_of(stored, new_tip)[i],
        forall|i: int|
            k < i < chain_of(stored, old_tip).len() ==> !chain_of(stored, new_tip).contains(
                #[trigger] chain_of(stored, old_tip)[i],
            ),
        forall|i: int|
            k < i < chain_of(stored, new_tip).len() ==> !chain_of(stored, old_tip).contains(
                #[trigger] chain_of(stored, new_tip)[i],
            ),
{
    let oldc = chain_of(stored, old_tip);
    let newc = chain_of(stored, new_tip);
    lemma_chain_elements(stored, old_tip);
    lemma_chain_elements(stored, new_tip);
    lemma_chains_agree_below(stored, old_tip, new_tip, k);
    assert forall|i: int| k < i < oldc.len() implies !newc.contains(#[trigger] oldc[i]) by {
        if newc.contains(oldc[i]) {
            let j = choose|j: int| 0 <= j < newc.len() && newc[j] == oldc[i];
            assert(newc[j].block.number == j);
            assert(oldc[i].block.number == i);
            assert(j == i);
            lemma_chains_agree_below(stored, old_tip, new_tip, i);
            assert(oldc[k + 1] == newc[k + 1]);
            assert(false);
        }
    }
    assert forall|i: int| k < i < newc.len() implies !oldc.contains(#[trigger] newc[i]) by {
        if oldc.contains(newc[i]) {
            let j = choose|j: int| 0 <= j < oldc.len() && oldc[j] == newc[i];
            assert(oldc[j].block.number == j);
            assert(newc[i].block.number == i);
            assert(j == i);
            lemma_chains_agree_below(stored, old_tip, new_tip, i);
            assert(oldc[k + 1] == newc[k + 1]);
            assert(false);
        }
    }
}

/// Two stored blocks with the same identity sit at the same index.
proof fn lemma_hash_unique(stored: Seq<StoredBlock>, i: int, j: int)
    requires
        wf_stored(stored),
        0 <= i < stored.len(),
        0 <= j < stored.len(),
        stored[i].block.hash == stored[j].block.hash,
    ensures
        i == j,
{
}

/// Some stored block carries the identity `h`.
pub open spec fn has_hash(stored: Seq<StoredBlock>, h: H256) -> bool {
    exists|j: int| 0 <= j < stored.len() && #[trigger] stored[j].block.hash == h
}

/// A candidate block can be admitted: unknown identity, stored parent,
/// the right height, and a branch work that fits the accumulator.
pub open spec fn admissible(stored: Seq<StoredBlock>, b: IndexedBlock) -> bool {
    let pi = find_hash(stored, b.parent_hash);
    &&& !has_hash(stored, b.hash)
    &&& pi >= 0
    &&& stored[pi].block.number + 1 == b.number
    &&& stored[pi].cum_work + b.work <= u128::MAX
}

/// The error an inadmissible candidate is rejected with; the checks run
/// in this fixed order.
pub open spec fn admission_error(stored: Seq<StoredBlock>, b: IndexedBlock) -> ChainError {
    let pi = find_hash(stored, b.parent_hash);
    if has_hash(stored, b.hash) {
        ChainError::KnownBlock
    } else if pi < 0 {
        ChainError::UnknownParent
    } else if stored[pi].block.number + 1 != b.number {
        ChainError::InvalidNumber
    } else {
        ChainError::WorkOverflow
    }
}

/// Appending a soundly linked, unknown block keeps the store
/// well-formed.
proof fn lemma_wf_push(stored: Seq<StoredBlock>, nb: StoredBlock, pi: int)
    requires
        wf_stored(stored),
        0 <= pi < stored.len(),
        pi == find_hash(stored, nb.block.parent_hash),
        stored[pi].block.number + 1 == nb.block.number,
        stored[pi].cum_work + nb.block.work == nb.cum_work,
        forall|j: int| 0 <= j < stored.len() ==> stored[j].block.hash != nb.block.hash,
    ensures
        wf_stored(stored.push(nb)),
{
    let s2 = stored.push(nb);
    assert(s2[0] == stored[0]);
    assert forall|i: int, j: int| 0 <= i < j < s2.len() implies s2[i].block.hash
        != s2[j].block.hash by {
        if j < stored.len() {
            assert(s2[i] == stored[i] && s2[j] == stored[j]);
        } else {
            assert(s2[i] == stored[i] && s2[j] == nb);
        }
    }
    assert forall|i: int| 1 <= i < s2.len() implies s2[i].block.number >= 1 by {
        if i < stored.len() {
            assert(s2[i] == stored[i]);
        }
    }
    assert forall|i: int| 1 <= i < s2.len() implies #[trigger] wf_link(s2, i) by {
        if i < stored.len() {
            assert(wf_link(stored, i));
            let p = parent_idx(stored, i);
            lemma_find_hash_push(stored, nb, stored[i].block.parent_hash);
            assert(s2[i] == stored[i]);
            assert(s2[p] == stored[p]);
        } else {
            lemma_find_hash_push(stored, nb, nb.block.parent_hash);
            assert(s2[i] == nb);
            assert(parent_idx(s2, i) == pi);
            assert(s2[pi] == stored[pi]);
        }
    }
}

/// The chain service's private state: the block store, the tip index,
/// and the stopped flag.
pub struct ChainService<S> {
    pub shared: Shared<S>,
    pub stored: Vec<StoredBlock>,
    pub tip: usize,
    pub stopped: bool,
}

impl<S: ChainStore> ChainService<S> {
    /// The block the tip index points at.
    pub open spec fn tip_block(&self) -> IndexedBlock {
        *self.stored@[self.tip as int].block
    }

    /// Cumulative work of the canonical chain.
    pub open spec fn tip_cum(&self) -> int {
        self.stored@[self.tip as int].cum_work as int
    }

    /// Well-formed service state: sound block store and a valid tip.
    pub open spec fn wf(&self) -> bool {
        &&& wf_stored(self.stored@)
        &&& self.tip < self.stored@.len()
    }

    /// A chain holding only the genesis block of the given consensus.
    pub fn new(shared: Shared<S>) -> (r: ChainService<S>)
        requires
            shared.consensus.genesis_block.number == 0,
        ensures
            r.wf(),
            !r.stopped,
            r.stored@.len() == 1,
            r.tip == 0,
            r.tip_block().hash == shared.consensus.genesis_block.hash,
            r.tip_block().number == 0,
            r.tip_block().work == shared.consensus.genesis_block.work,
            r.tip_cum() == shared.consensus.genesis_block.work,
            r.shared == shared,
    {
        let work = shared.consensus.genesis_block.work;
        let genesis = Arc::new(crate::util::dup_block(&shared.consensus.genesis_block));
        let mut stored: Vec<StoredBlock> = Vec::new();
        stored.push(StoredBlock { block: genesis, cum_work: work as u128 });
        ChainService { shared, stored, tip: 0, stopped: false }
    }

    /// Handle the shutdown signal: every later call surfaces
    /// `ServiceUnavailable`.
    pub fn stop(&mut self)
        ensures
            final(self).stopped,
            final(self).stored == old(self).stored,
            final(self).tip == old(self).tip,
    {
        self.stopped = true;
    }

    /// Snapshot of the current best tip.
    pub fn tip_header(&self) -> (r: Result<TipHeader, ServiceUnavailable>)
        requires
            self.wf(),
        ensures
            self.stopped ==> r == Err::<TipHeader, ServiceUnavailable>(ServiceUnavailable),
            !self.stopped ==> r == Ok::<TipHeader, ServiceUnavailable>(
                TipHeader { number: self.tip_block().number, hash: self.tip_block().hash },
            ),
    {
        if self.stopped {
            return Err(ServiceUnavailable);
        }
        let sb = &self.stored[self.tip];
        Ok(TipHeader { number: sb.block.number, hash: sb.block.hash })
    }
}

/// First stored index holding the identity `h`, if any.
#[verifier::loop_isolation(false)]
fn find_stored(stored: &Vec<StoredBlock>, h: H256) -> (r: Option<usize>)
    ensures
        r matches Some(i) ==> find_hash(stored@, h) == i as int && i < stored@.len(),
        r is None ==> find_hash(stored@, h) < 0,
{
    let mut i: usize = 0;
    while i < stored.len()
        invariant
            i <= stored@.len(),
            forall|j: int| 0 <= j < i ==> stored@[j].block.hash != h,
        decreases stored@.len() - i,
    {
        if stored[i].block.hash == h {
            proof {
                lemma_find_hash_found(stored@, h, i as int);
            }
            return Some(i);
        }
        i = i + 1;
    }
    proof {
        lemma_find_hash_props(stored@, h);
        if find_hash(stored@, h) >= 0 {
            assert(stored@[find_hash(stored@, h)].block.hash == h);
            assert(false);
        }
    }
    None
}

/// Stored index of the parent of the block stored at `i`; total under
/// well-formedness.
#[verifier::loop_isolation(false)]
fn parent_of_stored(stored: &Vec<StoredBlock>, i: usize) -> (p: usize)
    requires
        wf_stored(stored@),
        i < stored@.len(),
        stored@[i as int].block.number >= 1,
    ensures
        p as int == parent_idx(stored@, i as int),
        p < stored@.len(),
        stored@[p as int].block.number + 1 == stored@[i as int].block.number,
{
    let h = stored[i].block.parent_hash;
    proof {
        assert(wf_link(stored@, i as int));
    }
    match find_stored(stored, h) {
        Some(p) => p,
        None => {
            proof {
                assert(false);
            }
            0
        },
    }
}

/// Walk the old and the new chain down to their last common block and
/// collect the suffixes above it: what the reorg detaches and attaches.
#[verifier::loop_isolation(false)]
#[verifier::rlimit(100)]
fn compute_fork(stored: &Vec<StoredBlock>, old_tip: usize, new_tip: usize) -> (fb: ForkBlocks)
    requires
        wf_stored(stored@),
        old_tip < stored@.len(),
        new_tip < stored@.len(),
    ensures
        is_fork_switch(stored@, old_tip as int, new_tip as int, fb),
{
    let ghost st = stored@;
    let ghost oldc = chain_of(st, old_tip as int);
    let ghost newc = chain_of(st, new_tip as int);
    let mut oa: usize = old_tip;
    let mut nb: usize = new_tip;
    let mut detached: Vec<Arc<IndexedBlock>> = Vec::new();
    let mut attached: Vec<Arc<IndexedBlock>> = Vec::new();
    let ghost mut dg: Seq<StoredBlock> = Seq::empty();
    let ghost mut ag: Seq<StoredBlock> = Seq::empty();
    proof {
        assert(oldc =~= chain_of(st, oa as int) + dg);
        assert(newc =~= chain_of(st, nb as int) + ag);
        assert(detached@ =~= dg.map_values(|s: StoredBlock| s.block));
        assert(attached@ =~= ag.map_values(|s: StoredBlock| s.block));
    }
    while stored[nb].block.number > stored[oa].block.number
        invariant
            oa < st.len(),
            nb < st.len(),
            oldc == chain_of(st, oa as int) + dg,
            newc == chain_of(st, nb as int) + ag,
            detached@ == dg.map_values(|s: StoredBlock| s.block),
            attached@ == ag.map_values(|s: StoredBlock| s.block),
            dg.len() == 0,
            ag.len() > 0 ==> st[nb as int].block.number >= st[oa as int].block.number,
        decreases st[nb as int].block.number,
    {
        attached.insert(0, arc_clone(&stored[nb].block));
        proof {
            lemma_chain_shape(st, nb as int);
        }
        let p = parent_of_stored(stored, nb);
        proof {
            let sb = st[nb as int];
            ag = seq![sb] + ag;
            assert(attached@ =~= ag.map_values(|s: StoredBlock| s.block));
            assert(chain_of(st, nb as int) == chain_of(st, p as int).push(sb));
            assert(newc =~= chain_of(st, p as int) + ag);
        }
        nb = p;
    }
    while stored[oa].block.number > stored[nb].block.number
        invariant
            oa < st.len(),
            nb < st.len(),
            oldc == chain_of(st, oa as int) + dg,
            newc == chain_of(st, nb as int) + ag,
            detached@ == dg.map_values(|s: StoredBlock| s.block),
            attached@ == ag.map_values(|s: StoredBlock| s.block),
            st[nb as int].block.number <= st[oa as int].block.number,
            ag.len() > 0 ==> st[oa as int].block.number <= st[nb as int].block.number,
            dg.len() > 0 ==> ag.len() == 0,
        decreases st[oa as int].block.number,
    {
        detached.insert(0, arc_clone(&stored[oa].block));
        proof {
            lemma_chain_shape(st, oa as int);
        }
        let p = parent_of_stored(stored, oa);
        proof {
            let sb = st[oa as int];
            dg = seq![sb] + dg;
            assert(detached@ =~= dg.map_values(|s: StoredBlock| s.block));
            assert(chain_of(st, oa as int) == chain_of(st, p as int).push(sb));
            assert(oldc =~= chain_of(st, p as int) + dg);
        }
        oa = p;
    }
    while stored[oa].block.hash != stored[nb].block.hash
        invariant
            oa < st.len(),
            nb < st.len(),
            st[oa as int].block.number == st[nb as int].block.number,
            oldc == chain_of(st, oa as int) + dg,
            newc == chain_of(st, nb as int) + ag,
            detached@ == dg.map_values(|s: StoredBlock| s.block),
            attached@ == ag.map_values(|s: StoredBlock| s.block),
            dg.len() > 0 && ag.len() > 0 ==> dg[0].block.hash != ag[0].block.hash,
        decreases st[oa as int].block.number,
    {
        proof {
            if st[oa as int].block.number == 0 {
                assert(oa == 0 && nb == 0);
                assert(false);
            }
        }
        detached.insert(0, arc_clone(&stored[oa].block));
        attached.insert(0, arc_clone(&stored[nb].block));
        proof {
            lemma_chain_shape(st, oa as int);
            lemma_chain_shape(st, nb as int);
        }
        let po = parent_of_stored(stored, oa);
        let pn = parent_of_stored(stored, nb);
        proof {
            let so = st[oa as int];
            let sn = st[nb as int];
            dg = seq![so] + dg;
            ag = seq![sn] + ag;
            assert(detached@ =~= dg.map_values(|s: StoredBlock| s.block));
            assert(attached@ =~= ag.map_values(|s: StoredBlock| s.block));
            assert(chain_of(st, oa as int) == chain_of(st, po as int).push(so));
            assert(chain_of(st, nb as int) == chain_of(st, pn as int).push(sn));
            assert(oldc =~= chain_of(st, po as int) + dg);
            assert(newc =~= chain_of(st, pn as int) + ag);
        }
        oa = po;
        nb = pn;
    }
    let fb = ForkBlocks { detached, attached };
    proof {
        lemma_hash_unique(st, oa as int, nb as int);
        lemma_chain_shape(st, oa as int);
        let k = st[oa as int].block.number as int;
        assert(chain_of(st, oa as int).len() == k + 1);
        assert(oldc[k] == chain_of(st, oa as int)[k]);
        assert(newc[k] == chain_of(st, oa as int)[k]);
        assert(oldc.subrange(k + 1, oldc.len() as int) =~= dg);
        assert(newc.subrange(k + 1, newc.len() as int) =~= ag);
        if k + 1 < oldc.len() && k + 1 < newc.len() {
            assert(oldc[k + 1] == dg[0]);
            assert(newc[k + 1] == ag[0]);
        }
        assert(fb.detached@ == oldc.subrange(k + 1, oldc.len() as int).map_values(
            |s: StoredBlock| s.block,
        ));
        assert(fb.attached@ == newc.subrange(k + 1, newc.len() as int).map_values(
            |s: StoredBlock| s.block,
        ));
        assert(fork_at(st, old_tip as int, new_tip as int, k, fb));
    }
    fb
}

impl<S: ChainStore> ChainService<S> {
    /// Decide what one already verified candidate block does to the
    /// canonical chain. In one logical step the block is committed to
    /// the store and the tip moves (or does not), and the action the
    /// worker must publish is handed back: the new tip, the fork
    /// record, or the uncle offer for the miner. A candidate that ties
    /// the current tip's cumulative work never switches the chain:
    /// first seen wins.
    pub fn process_block(&mut self, block: Arc<IndexedBlock>) -> (r: Result<
        Result<ChainAction, ChainError>,
        ServiceUnavailable,
    >)
        requires
            old(self).wf(),
        ensures
            final(self).wf(),
            final(self).shared == old(self).shared,
            old(self).stopped ==> r == Err::<Result<ChainAction, ChainError>, ServiceUnavailable>(
                ServiceUnavailable,
            ) && *final(self) == *old(self),
            !old(self).stopped ==> ({
                let st = old(self).stored@;
                let pi = find_hash(st, block.parent_hash);
                &&& !final(self).stopped
                &&& (!admissible(st, *block) ==> r == Ok::<
                    Result<ChainAction, ChainError>,
                    ServiceUnavailable,
                >(Err(admission_error(st, *block))) && final(self).stored@ == st && final(self).tip == old(self).tip)
                &&& (admissible(st, *block) ==> ({
                    let cum = st[pi].cum_work + block.work;
                    let nst = st.push(StoredBlock { block, cum_work: cum as u128 });
                    &&& final(self).stored@ == nst
                    &&& final(self).tip_cum() >= old(self).tip_cum()
                    &&& (block.parent_hash == old(self).tip_block().hash ==> {
                        &&& final(self).tip == st.len()
                        &&& r == Ok::<Result<ChainAction, ChainError>, ServiceUnavailable>(
                            Ok(ChainAction::PublishNewTip(block)),
                        )
                        &&& final(self).tip_block().number == old(self).tip_block().number + 1
                    })
                    &&& (block.parent_hash != old(self).tip_block().hash && cum > old(self).tip_cum() ==> {
                        &&& final(self).tip == st.len()
                        &&& r matches Ok(Ok(ChainAction::PublishSwitchFork(fb)))
                            && is_fork_switch(nst, old(self).tip as int, st.len() as int, *fb)
                    })
                    &&& (block.parent_hash != old(self).tip_block().hash && cum <= old(self).tip_cum() ==> {
                        &&& final(self).tip == old(self).tip
                        &&& r == Ok::<Result<ChainAction, ChainError>, ServiceUnavailable>(
                            Ok(ChainAction::OfferUncle(block)),
                        )
                    })
                }))
            }),
    {
        if self.stopped {
            return Err(ServiceUnavailable);
        }
        let ghost st = self.stored@;
        if let Some(_) = find_stored(&self.stored, block.hash) {
            proof {
                lemma_find_hash_props(st, block.hash);
            }
            return Ok(Err(ChainError::KnownBlock));
        }
        proof {
            lemma_find_hash_props(st, block.hash);
        }
        let pi = match find_stored(&self.stored, block.parent_hash) {
            None => {
                return Ok(Err(ChainError::UnknownParent));
            },
            Some(p) => p,
        };
        proof {
            lemma_find_hash_props(st, block.parent_hash);
        }
        let pnum = self.stored[pi].block.number;
        if pnum == u64::MAX || block.number != pnum + 1 {
            return Ok(Err(ChainError::InvalidNumber));
        }
        let pcum = self.stored[pi].cum_work;
        if pcum > u128::MAX - (block.work as u128) {
            return Ok(Err(ChainError::WorkOverflow));
        }
        let cum = pcum + (block.work as u128);
        let old_tip = self.tip;
        let tip_hash = self.stored[old_tip].block.hash;
        let tip_cum = self.stored[old_tip].cum_work;
        let new_idx = self.stored.len();
        let nb = StoredBlock { block: arc_clone(&block), cum_work: cum };
        proof {
            lemma_wf_push(st, nb, pi as int);
        }
        self.stored.push(nb);
        if block.parent_hash == tip_hash {
            proof {
                lemma_hash_unique(st, pi as int, old_tip as int);
            }
            self.tip = new_idx;
            return Ok(Ok(ChainAction::PublishNewTip(block)));
        }
        if cum > tip_cum {
            let fork = compute_fork(&self.stored, old_tip, new_idx);
            self.tip = new_idx;
            return Ok(Ok(ChainAction::PublishSwitchFork(Arc::new(fork))));
        }
        Ok(Ok(ChainAction::OfferUncle(block)))
    }
}

} // verus!

//! The transaction pool service: the mempool, reconciled against chain
//! events.
//!
//! The pool keeps pending transactions in admission order, which is also
//! its readiness order for block-template selection. Admission applies a
//! fixed sequence of checks (coinbase exclusion, structural validity,
//! propagation-window rules, duplicate identity, double spend, duplicate
//! output, capacity) and each rejection names the first check that
//! failed. A new tip removes the transactions it confirmed; a fork
//! switch removes those confirmed by attached blocks and re-offers every
//! transaction unique to detached blocks exactly once, in block order.

use vstd::prelude::*;

use crate::notify::ForkBlocks;
use crate::util::{
    collect_tx_hashes, dup_in, dup_tx, has_dup, vec_contains, BlockNumber, ChainStore, H256, IndexedBlock, IndexedTransaction, InsertionResult,
    ServiceUnavailable, Shared, TxModel,
};

verus! {

/// Why a transaction is structurally invalid on its own.
#[derive(Clone, Copy, PartialEq, Eq, Structural, Debug)]
pub enum TransactionError {
    /// A pool transaction must consume at least one cell.
    NoInputs,
    /// A pool transaction must create at least one cell.
    NoOutputs,
}

/// Why a transaction was refused admission to the pool.
#[derive(Clone, Copy, PartialEq, Eq, Structural, Debug)]
pub enum PoolError {
    /// An invalid pool entry caused by underlying tx validation error
    InvalidTx(TransactionError),
    /// An entry already in the pool
    AlreadyInPool,
    /// A double spend
    DoubleSpent,
    /// Transaction pool is over capacity, can't accept more transactions
    OverCapacity,
    /// A duplicate output
    DuplicateOutput,
    /// Coinbase transaction
    CellBase,
    /// TimeOut
    TimeOut,
    /// Blocknumber is not right
    InvalidBlockNumber,
}

/// The models of a sequence of transactions.
pub open spec fn tx_models(txs: Seq<IndexedTransaction>) -> Seq<TxModel> {
    txs.map_values(|t: IndexedTransaction| t@)
}

/// The identities of a sequence of transaction models.
pub open spec fn hashes_of(txs: Seq<TxModel>) -> Seq<H256> {
    txs.map_values(|t: TxModel| t.hash)
}

/// Some pool transaction carries the identity `h`.
pub open spec fn contains_hash(pool: Seq<TxModel>, h: H256) -> bool {
    exists|i: int| 0 <= i < pool.len() && #[trigger] pool[i].hash == h
}

/// Some pool transaction already consumes the cell `c`.
pub open spec fn spends(pool: Seq<TxModel>, c: H256) -> bool {
    exists|i: int| 0 <= i < pool.len() && #[trigger] pool[i].inputs.contains(c)
}

/// Some pool transaction already creates the cell `c`.
pub open spec fn creates(pool: Seq<TxModel>, c: H256) -> bool {
    exists|i: int| 0 <= i < pool.len() && #[trigger] pool[i].outputs.contains(c)
}

/// Some listed cell is already consumed by the pool.
pub open spec fn spends_any(pool: Seq<TxModel>, cells: Seq<H256>) -> bool {
    exists|k: int| 0 <= k < cells.len() && #[trigger] spends(pool, cells[k])
}

/// Some listed cell is already created by the pool.
pub open spec fn creates_any(pool: Seq<TxModel>, cells: Seq<H256>) -> bool {
    exists|k: int| 0 <= k < cells.len() && #[trigger] creates(pool, cells[k])
}

/// The admission rules, in their fixed order: the first failing check
/// names the error, and `None` admits the transaction.
pub open spec fn admit_error(
    pool: Seq<TxModel>,
    tip: BlockNumber,
    capacity: usize,
    timeout: BlockNumber,
    t: TxModel,
) -> Option<PoolError> {
    if t.cellbase {
        Some(PoolError::CellBase)
    } else if t.inputs.len() == 0 {
        Some(PoolError::InvalidTx(TransactionError::NoInputs))
    } else if t.outputs.len() == 0 {
        Some(PoolError::InvalidTx(TransactionError::NoOutputs))
    } else if t.broadcast_number > tip {
        Some(PoolError::InvalidBlockNumber)
    } else if tip - t.broadcast_number > timeout {
        Some(PoolError::TimeOut)
    } else if contains_hash(pool, t.hash) {
        Some(PoolError::AlreadyInPool)
    } else if spends_any(pool, t.inputs) || dup_in(t.inputs) {
        Some(PoolError::DoubleSpent)
    } else if dup_in(t.outputs) || creates_any(pool, t.outputs) {
        Some(PoolError::DuplicateOutput)
    } else if pool.len() >= capacity {
        Some(PoolError::OverCapacity)
    } else {
        None
    }
}

/// A transaction is commit-eligible once it has aged
/// `propagation_time` blocks since broadcast; younger ones are still in
/// the proposal stage.
pub open spec fn is_commit_stage(t: TxModel, tip: BlockNumber, ptime: BlockNumber) -> bool {
    t.broadcast_number + ptime <= tip
}

/// The first `max` pool transactions satisfying `pred`, in pool order.
pub open spec fn take_matching(
    pool: Seq<TxModel>,
    pred: spec_fn(TxModel) -> bool,
    max: int,
) -> Seq<TxModel>
    decreases pool.len(),
{
    if pool.len() == 0 || max <= 0 {
        Seq::empty()
    } else if pred(pool[0]) {
        seq![pool[0]] + take_matching(pool.drop_first(), pred, max - 1)
    } else {
        take_matching(pool.drop_first(), pred, max)
    }
}

/// The pool with every transaction confirmed by `hashes` removed, order
/// kept.
pub open spec fn remove_confirmed(pool: Seq<TxModel>, hashes: Seq<H256>) -> Seq<TxModel>
    decreases pool.len(),
{
    if pool.len() == 0 {
        Seq::empty()
    } else {
        let rest = remove_confirmed(pool.drop_last(), hashes);
        if hashes.contains(pool.last().hash) {
            rest
        } else {
            rest.push(pool.last())
        }
    }
}

/// The transactions of detached blocks that are re-offered after a fork
/// switch: those not confirmed by an attached block, first occurrence
/// only, in block order.
pub open spec fn reoffer_list(detached: Seq<TxModel>, attached_hashes: Seq<H256>) -> Seq<TxModel>
    decreases detached.len(),
{
    if detached.len() == 0 {
        Seq::empty()
    } else {
        let rest = reoffer_list(detached.drop_last(), attached_hashes);
        let t = detached.last();
        if !attached_hashes.contains(t.hash) && !contains_hash(detached.drop_last(), t.hash) {
            rest.push(t)
        } else {
            rest
        }
    }
}

/// One admission pass over the offered transactions: each is admitted
/// exactly when the admission rules accept it against the pool built so
/// far.
pub open spec fn readmit(
    pool: Seq<TxModel>,
    tip: BlockNumber,
    capacity: usize,
    timeout: BlockNumber,
    offers: Seq<TxModel>,
) -> Seq<TxModel>
    decreases offers.len(),
{
    if offers.len() == 0 {
        pool
    } else {
        let p1 = if admit_error(pool, tip, capacity, timeout, offers[0]) is None {
            pool.push(offers[0])
        } else {
            pool
        };
        readmit(p1, tip, capacity, timeout, offers.drop_first())
    }
}

/// The models of all transactions confirmed by a run of blocks, in
/// block order.
pub open spec fn blocks_tx_models(bs: Seq<std::sync::Arc<IndexedBlock>>) -> Seq<TxModel>
    decreases bs.len(),
{
    if bs.len() == 0 {
        Seq::empty()
    } else {
        blocks_tx_models(bs.drop_last()) + (*bs.last()).txs()
    }
}

/// The identities of all transactions confirmed by a run of blocks.
pub open spec fn blocks_tx_hashes(bs: Seq<std::sync::Arc<IndexedBlock>>) -> Seq<H256>
    decreases bs.len(),
{
    if bs.len() == 0 {
        Seq::empty()
    } else {
        blocks_tx_hashes(bs.drop_last()) + (*bs.last()).tx_hashes()
    }
}

#[verifier::loop_isolation(false)]
fn pool_contains_hash(txs: &Vec<IndexedTransaction>, h: H256) -> (b: bool)
    ensures
        b == contains_hash(tx_models(txs@), h),
{
    let mut i: usize = 0;
    while i < txs.len()
        invariant
            i <= txs@.len(),
            forall|j: int| 0 <= j < i ==> tx_models(txs@)[j].hash != h,
        decreases txs@.len() - i,
    {
        if txs[i].hash == h {
            assert(tx_models(txs@)[i as int].hash == h);
            return true;
        }
        i = i + 1;
    }
    false
}

#[verifier::loop_isolation(false)]
fn pool_spends(txs: &Vec<IndexedTransaction>, c: H256) -> (b: bool)
    ensures
        b == spends(tx_models(txs@), c),
{
    let mut i: usize = 0;
    while i < txs.len()
        invariant
            i <= txs@.len(),
            forall|j: int| 0 <= j < i ==> !(#[trigger] tx_models(txs@)[j].inputs.contains(c)),
        decreases txs@.len() - i,
    {
        if vec_contains(&txs[i].inputs, c) {
            assert(tx_models(txs@)[i as int].inputs.contains(c));
            return true;
        }
        i = i + 1;
    }
    false
}

#[verifier::loop_isolation(false)]
fn pool_creates(txs: &Vec<IndexedTransaction>, c: H256) -> (b: bool)
    ensures
        b == creates(tx_models(txs@), c),
{
    let mut i: usize = 0;
    while i < txs.len()
        invariant
            i <= txs@.len(),
            forall|j: int| 0 <= j < i ==> !(#[trigger] tx_models(txs@)[j].outputs.contains(c)),
        decreases txs@.len() - i,
    {
        if vec_contains(&txs[i].outputs, c) {
            assert(tx_models(txs@)[i as int].outputs.contains(c));
            return true;
        }
        i = i + 1;
    }
    false
}

#[verifier::loop_isolation(false)]
fn any_spent(txs: &Vec<IndexedTransaction>, cells: &Vec<H256>) -> (b: bool)
    ensures
        b == spends_any(tx_models(txs@), cells@),
{
    let mut k: usize = 0;
    while k < cells.len()
        invariant
            k <= cells@.len(),
            forall|j: int| 0 <= j < k ==> !(#[trigger] spends(tx_models(txs@), cells@[j])),
        decreases cells@.len() - k,
    {
        if pool_spends(txs, cells[k]) {
            return true;
        }
        k = k + 1;
    }
    false
}

#[verifier::loop_isolation(false)]
fn any_created(txs: &Vec<IndexedTransaction>, cells: &Vec<H256>) -> (b: bool)
    ensures
        b == creates_any(tx_models(txs@), cells@),
{
    let mut k: usize = 0;
    while k < cells.len()
        invariant
            k <= cells@.len(),
            forall|j: int| 0 <= j < k ==> !(#[trigger] creates(tx_models(txs@), cells@[j])),
        decreases cells@.len() - k,
    {
        if pool_creates(txs, cells[k]) {
            return true;
        }
        k = k + 1;
    }
    false
}

/// Decide admission of one transaction against a pool state, exactly as
/// `admit_error` says.
fn admit_check(
    txs: &Vec<IndexedTransaction>,
    tip: BlockNumber,
    capacity: usize,
    timeout: BlockNumber,
    tx: &IndexedTransaction,
) -> (e: Option<PoolError>)
    ensures
        e == admit_error(tx_models(txs@), tip, capacity, timeout, tx@),
{
    if tx.cellbase {
        return Some(PoolError::CellBase);
    }
    if tx.inputs.len() == 0 {
        return Some(PoolError::InvalidTx(TransactionError::NoInputs));
    }
    if tx.outputs.len() == 0 {
        return Some(PoolError::InvalidTx(TransactionError::NoOutputs));
    }
    if tx.broadcast_number > tip {
        return Some(PoolError::InvalidBlockNumber);
    }
    if tip - tx.broadcast_number > timeout {
        return Some(PoolError::TimeOut);
    }
    if pool_contains_hash(txs, tx.hash) {
        return Some(PoolError::AlreadyInPool);
    }
    if any_spent(txs, &tx.inputs) || has_dup(&tx.inputs) {
        return Some(PoolError::DoubleSpent);
    }
    if has_dup(&tx.outputs) || any_created(txs, &tx.outputs) {
        return Some(PoolError::DuplicateOutput);
    }
    if txs.len() >= capacity {
        return Some(PoolError::OverCapacity);
    }
    None
}

/// The mempool service's private state.
pub struct TransactionPoolService<S> {
    pub shared: Shared<S>,
    /// Pending transactions in admission order: the readiness order
    /// used for template selection.
    pub txs: Vec<IndexedTransaction>,
    /// Height of the chain tip the pool was last reconciled against.
    pub tip_number: BlockNumber,
    /// Most transactions the pool will hold.
    pub capacity: usize,
    pub stopped: bool,
}

impl<S: ChainStore> TransactionPoolService<S> {
    /// The models of the pending transactions, in readiness order.
    pub open spec fn pool(&self) -> Seq<TxModel> {
        tx_models(self.txs@)
    }

    /// The propagation timeout the pool admits under.
    pub open spec fn timeout(&self) -> BlockNumber {
        self.shared.consensus.transaction_propagation_timeout
    }

    /// The aging window for commit eligibility.
    pub open spec fn ptime(&self) -> BlockNumber {
        self.shared.consensus.transaction_propagation_time
    }

    /// An empty pool, reconciled against the genesis tip.
    pub fn new(shared: Shared<S>, capacity: usize) -> (r: TransactionPoolService<S>)
        ensures
            r.pool().len() == 0,
            r.tip_number == shared.consensus.genesis_block.number,
            r.capacity == capacity,
            !r.stopped,
            r.shared == shared,
    {
        let tip_number = shared.consensus.genesis_block.number;
        TransactionPoolService { shared, txs: Vec::new(), tip_number, capacity, stopped: false }
    }

    /// Handle the shutdown signal: every later call surfaces
    /// `ServiceUnavailable`.
    pub fn stop(&mut self)
        ensures
            final(self).stopped,
            final(self).txs == old(self).txs,
            final(self).tip_number == old(self).tip_number,
            final(self).capacity == old(self).capacity,
            final(self).shared == old(self).shared,
    {
        self.stopped = true;
    }

    /// Admit one transaction, or name the first admission rule it
    /// breaks; the pool changes exactly when the result is `Ok(Ok(..))`.
    pub fn add_transaction(&mut self, tx: IndexedTransaction) -> (r: Result<
        Result<InsertionResult, PoolError>,
        ServiceUnavailable,
    >)
        ensures
            old(self).stopped ==> r == Err::<
                Result<InsertionResult, PoolError>,
                ServiceUnavailable,
            >(ServiceUnavailable) && *final(self) == *old(self),
            !old(self).stopped ==> ({
                let e = admit_error(
                    old(self).pool(),
                    old(self).tip_number,
                    old(self).capacity,
                    old(self).timeout(),
                    tx@,
                );
                &&& final(self).tip_number == old(self).tip_number
                &&& final(self).capacity == old(self).capacity
                &&& final(self).shared == old(self).shared
                &&& !final(self).stopped
                &&& (e matches Some(err) ==> r == Ok::<
                    Result<InsertionResult, PoolError>,
                    ServiceUnavailable,
                >(Err(err)) && final(self).txs == old(self).txs)
                &&& (e is None ==> r == Ok::<Result<InsertionResult, PoolError>,
                    ServiceUnavailable,
                >(Ok(InsertionResult::Unknown)) && final(self).txs@ == old(self).txs@.push(tx))
            }),
    {
        if self.stopped {
            return Err(ServiceUnavailable);
        }
        match admit_check(
            &self.txs,
            self.tip_number,
            self.capacity,
            self.shared.consensus.transaction_propagation_timeout,
            &tx,
        ) {
            Some(err) => Ok(Err(err)),
            None => {
                self.txs.push(tx);
                Ok(Ok(InsertionResult::Unknown))
            },
        }
    }
}

/// The stage filter used for template selection: commit-eligible
/// transactions or proposal-stage ones.
pub open spec fn stage_pred(commit: bool, tip: BlockNumber, ptime: BlockNumber) -> spec_fn(
    TxModel,
) -> bool {
    |t: TxModel|
        if commit {
            is_commit_stage(t, tip, ptime)
        } else {
            !is_commit_stage(t, tip, ptime)
        }
}

/// Select up to `max` transactions of one stage, in pool order, exactly
/// as `take_matching` says.
#[verifier::loop_isolation(false)]
fn select_txs(
    txs: &Vec<IndexedTransaction>,
    commit: bool,
    tip: BlockNumber,
    ptime: BlockNumber,
    max: usize,
) -> (r: Vec<IndexedTransaction>)
    ensures
        tx_models(r@) == take_matching(tx_models(txs@), stage_pred(commit, tip, ptime), max as int),
{
    let ghost whole = tx_models(txs@);
    let ghost pred = stage_pred(commit, tip, ptime);
    let mut r: Vec<IndexedTransaction> = Vec::new();
    let mut i: usize = 0;
    proof {
        assert(tx_models(r@) =~= Seq::<TxModel>::empty());
        assert(whole.subrange(0, whole.len() as int) =~= whole);
        assert(tx_models(r@) + take_matching(whole, pred, max as int) =~= take_matching(
            whole,
            pred,
            max as int,
        ));
    }
    while i < txs.len() && r.len() < max
        invariant
            i <= txs@.len(),
            r@.len() <= max,
            take_matching(whole, pred, max as int) == tx_models(r@) + take_matching(
                whole.subrange(i as int, whole.len() as int),
                pred,
                max - r@.len(),
            ),
        decreases txs@.len() - i,
    {
        let ghost suf = whole.subrange(i as int, whole.len() as int);
        proof {
            assert(suf[0] == whole[i as int]);
            assert(suf.drop_first() =~= whole.subrange(i as int + 1, whole.len() as int));
        }
        let eligible = ptime <= tip && txs[i].broadcast_number <= tip - ptime;
        proof {
            assert(eligible == is_commit_stage(whole[i as int], tip, ptime));
        }
        let want = if commit {
            eligible
        } else {
            !eligible
        };
        if want {
            r.push(dup_tx(&txs[i]));
            proof {
                assert(tx_models(r@) =~= tx_models(r@.drop_last()).push(whole[i as int]));
            }
        }
        i = i + 1;
        proof {
            assert(take_matching(whole, pred, max as int) == tx_models(r@) + take_matching(
                whole.subrange(i as int, whole.len() as int),
                pred,
                max - r@.len(),
            ));
        }
    }
    proof {
        if i == txs@.len() {
            assert(whole.subrange(i as int, whole.len() as int) =~= Seq::<TxModel>::empty());
        }
        assert(tx_models(r@) =~= tx_models(r@) + take_matching(
            whole.subrange(i as int, whole.len() as int),
            pred,
            max - r@.len(),
        ));
    }
    r
}

/// Keep exactly the transactions not confirmed by `hashes`, in order,
/// as `remove_confirmed` says.
#[verifier::loop_isolation(false)]
fn retain_unconfirmed(txs: &Vec<IndexedTransaction>, hashes: &Vec<H256>) -> (r: Vec<
    IndexedTransaction,
>)
    ensures
        tx_models(r@) == remove_confirmed(tx_models(txs@), hashes@),
{
    let ghost whole = tx_models(txs@);
    let mut r: Vec<IndexedTransaction> = Vec::new();
    let mut j: usize = 0;
    while j < txs.len()
        invariant
            j <= txs@.len(),
            tx_models(r@) == remove_confirmed(whole.subrange(0, j as int), hashes@),
        decreases txs@.len() - j,
    {
        let ghost pre = whole.subrange(0, j as int + 1);
        proof {
            assert(pre.drop_last() =~= whole.subrange(0, j as int));
            assert(pre.last() == whole[j as int]);
        }
        if !vec_contains(hashes, txs[j].hash) {
            r.push(dup_tx(&txs[j]));
            proof {
                assert(tx_models(r@) =~= tx_models(r@.drop_last()).push(whole[j as int]));
            }
        }
        j = j + 1;
    }
    proof {
        assert(whole.subrange(0, txs@.len() as int) =~= whole);
    }
    r
}

/// A sequence of transaction models holds an identity exactly when its
/// identity sequence does.
proof fn lemma_hashes_contains(s: Seq<TxModel>, h: H256)
    ensures
        hashes_of(s).contains(h) == contains_hash(s, h),
{
    if hashes_of(s).contains(h) {
        let i = choose|i: int| 0 <= i < hashes_of(s).len() && hashes_of(s)[i] == h;
        assert(s[i].hash == h);
    }
    if contains_hash(s, h) {
        let i = choose|i: int| 0 <= i < s.len() && #[trigger] s[i].hash == h;
        assert(hashes_of(s)[i] == h);
    }
}

impl<S: ChainStore> TransactionPoolService<S> {
    /// Select up to `max_prop` proposal-stage and `max_tx`
    /// commit-stage transactions, each by the pool's readiness order; a
    /// request for zero of either side yields an empty sequence for
    /// that side, never an error.
    pub fn get_proposal_commit_txs(&self, max_prop: usize, max_tx: usize) -> (r: Result<
        (Vec<IndexedTransaction>, Vec<IndexedTransaction>),
        ServiceUnavailable,
    >)
        ensures
            self.stopped ==> r == Err::<
                (Vec<IndexedTransaction>, Vec<IndexedTransaction>),
                ServiceUnavailable,
            >(ServiceUnavailable),
            !self.stopped ==> (r matches Ok(pair) && {
                &&& tx_models(pair.0@) == take_matching(
                    self.pool(),
                    stage_pred(false, self.tip_number, self.ptime()),
                    max_prop as int,
                )
                &&& tx_models(pair.1@) == take_matching(
                    self.pool(),
                    stage_pred(true, self.tip_number, self.ptime()),
                    max_tx as int,
                )
            }),
    {
        if self.stopped {
            return Err(ServiceUnavailable);
        }
        let ptime = self.shared.consensus.transaction_propagation_time;
        let proposals = select_txs(&self.txs, false, self.tip_number, ptime, max_prop);
        let commits = select_txs(&self.txs, true, self.tip_number, ptime, max_tx);
        Ok((proposals, commits))
    }

    /// Reconcile against a freshly published tip: drop every pool
    /// transaction the block confirmed and move the pool's tip height.
    pub fn reconcile_block(&mut self, block: &IndexedBlock)
        ensures
            old(self).stopped ==> *final(self) == *old(self),
            !old(self).stopped ==> ({
                &&& final(self).pool() == remove_confirmed(old(self).pool(), block.tx_hashes())
                &&& final(self).tip_number == block.number
                &&& final(self).capacity == old(self).capacity
                &&& final(self).shared == old(self).shared
                &&& !final(self).stopped
            }),
    {
        if self.stopped {
            return ;
        }
        let bh = collect_tx_hashes(&block.transactions);
        let kept = retain_unconfirmed(&self.txs, &bh);
        self.txs = kept;
        self.tip_number = block.number;
    }

    /// Reconcile against a fork switch: drop what the attached blocks
    /// confirmed, then re-offer each transaction unique to the detached
    /// blocks exactly once, in block order, admitting those the rules
    /// accept against the new tip.
    #[verifier::loop_isolation(false)]
    pub fn switch_fork(&mut self, fork: &ForkBlocks)
        ensures
            old(self).stopped ==> *final(self) == *old(self),
            !old(self).stopped ==> ({
                let ah = blocks_tx_hashes(fork.attached@);
                let dt = blocks_tx_models(fork.detached@);
                let tip2 = if fork.attached@.len() > 0 {
                    fork.attached@.last().number
                } else {
                    old(self).tip_number
                };
                let base = remove_confirmed(old(self).pool(), ah);
                &&& final(self).tip_number == tip2
                &&& final(self).pool() == readmit(
                    base,
                    tip2,
                    old(self).capacity,
                    old(self).timeout(),
                    reoffer_list(dt, ah),
                )
                &&& final(self).capacity == old(self).capacity
                &&& final(self).shared == old(self).shared
                &&& !final(self).stopped
            }),
    {
        if self.stopped {
            return ;
        }
        // All identities the attached blocks confirmed.
        let mut ah: Vec<H256> = Vec::new();
        let mut bi: usize = 0;
        proof {
            assert(ah@ =~= blocks_tx_hashes(fork.attached@.subrange(0, 0)));
        }
        while bi < fork.attached.len()
            invariant
                bi <= fork.attached@.len(),
                ah@ == blocks_tx_hashes(fork.attached@.subrange(0, bi as int)),
            decreases fork.attached@.len() - bi,
        {
            let mut bhs = collect_tx_hashes(&fork.attached[bi].transactions);
            ah.append(&mut bhs);
            proof {
                let pre = fork.attached@.subrange(0, bi as int + 1);
                assert(pre.drop_last() =~= fork.attached@.subrange(0, bi as int));
                assert(pre.last() == fork.attached@[bi as int]);
                assert(ah@ =~= blocks_tx_hashes(pre));
            }
            bi = bi + 1;
        }
        proof {
            assert(fork.attached@.subrange(0, fork.attached@.len() as int) =~= fork.attached@);
        }
        // The pool's new tip height: the top of the attached path.
        let tip2 = if fork.attached.len() > 0 {
            fork.attached[fork.attached.len() - 1].number
        } else {
            self.tip_number
        };
        // Drop everything the attached blocks confirmed.
        let kept = retain_unconfirmed(&self.txs, &ah);
        self.txs = kept;
        self.tip_number = tip2;
        // Collect the re-offers: detached transactions not confirmed by
        // an attached block, first occurrence only, in block order.
        let mut offers: Vec<IndexedTransaction> = Vec::new();
        let mut seen: Vec<H256> = Vec::new();
        let mut di: usize = 0;
        proof {
            assert(blocks_tx_models(fork.detached@.subrange(0, 0)) =~= Seq::<TxModel>::empty());
            assert(seen@ =~= hashes_of(blocks_tx_models(fork.detached@.subrange(0, 0))));
            assert(tx_models(offers@) =~= reoffer_list(
                blocks_tx_models(fork.detached@.subrange(0, 0)),
                ah@,
            ));
        }
        while di < fork.detached.len()
            invariant
                di <= fork.detached@.len(),
                seen@ == hashes_of(blocks_tx_models(fork.detached@.subrange(0, di as int))),
                tx_models(offers@) == reoffer_list(
                    blocks_tx_models(fork.detached@.subrange(0, di as int)),
                    ah@,
                ),
            decreases fork.detached@.len() - di,
        {
            let ghost dpre = blocks_tx_models(fork.detached@.subrange(0, di as int));
            let ghost btxs = fork.detached@[di as int].txs();
            let mut ti: usize = 0;
            proof {
                assert(btxs.subrange(0, 0) =~= Seq::<TxModel>::empty());
                assert(dpre + btxs.subrange(0, 0) =~= dpre);
            }
            while ti < fork.detached[di].transactions.len()
                invariant
                    di < fork.detached@.len(),
                    ti <= fork.detached@[di as int].transactions@.len(),
                    btxs == fork.detached@[di as int].txs(),
                    dpre == blocks_tx_models(fork.detached@.subrange(0, di as int)),
                    seen@ == hashes_of(dpre + btxs.subrange(0, ti as int)),
                    tx_models(offers@) == reoffer_list(dpre + btxs.subrange(0, ti as int), ah@),
                decreases fork.detached@[di as int].transactions@.len() - ti,
            {
                let ghost dcur = dpre + btxs.subrange(0, ti as int);
                let tx = dup_tx(&fork.detached[di].transactions[ti]);
                proof {
                    assert(btxs[ti as int] == tx@);
                    assert((dpre + btxs.subrange(0, ti as int + 1)).drop_last() =~= dcur);
                    assert((dpre + btxs.subrange(0, ti as int + 1)).last() == tx@);
                    lemma_hashes_contains(dcur, tx@.hash);
                }
                let fresh = !vec_contains(&ah, tx.hash) && !vec_contains(&seen, tx.hash);
                if fresh {
                    offers.push(tx);
                    proof {
                        assert(tx_models(offers@) =~= tx_models(offers@.drop_last()).push(
                            offers@.last()@,
                        ));
                    }
                    seen.push(offers[offers.len() - 1].hash);
                } else {
                    seen.push(tx.hash);
                }
                proof {
                    assert(seen@ =~= hashes_of(dpre + btxs.subrange(0, ti as int + 1)));
                    assert(tx_models(offers@) =~= reoffer_list(
                        dpre + btxs.subrange(0, ti as int + 1),
                        ah@,
                    ));
                }
                ti = ti + 1;
            }
            proof {
                let pre = fork.detached@.subrange(0, di as int + 1);
                assert(pre.drop_last() =~= fork.detached@.subrange(0, di as int));
                assert(pre.last() == fork.detached@[di as int]);
                assert(btxs.subrange(0, fork.detached@[di as int].transactions@.len() as int)
                    =~= btxs);
                assert(dpre + btxs == blocks_tx_models(pre));
            }
            di = di + 1;
        }
        proof {
            assert(fork.detached@.subrange(0, fork.detached@.len() as int) =~= fork.detached@);
        }
        // One admission pass over the re-offers, against the new tip.
        let ghost base = tx_models(self.txs@);
        let ghost allo = tx_models(offers@);
        let capacity = self.capacity;
        let timeout = self.shared.consensus.transaction_propagation_timeout;
        let mut oi: usize = 0;
        proof {
            assert(allo.subrange(0, allo.len() as int) =~= allo);
        }
        while oi < offers.len()
            invariant
                oi <= offers@.len(),
                readmit(base, tip2, capacity, timeout, allo) == readmit(
                    tx_models(self.txs@),
                    tip2,
                    capacity,
                    timeout,
                    allo.subrange(oi as int, allo.len() as int),
                ),
                allo == tx_models(offers@),
                self.capacity == capacity,
                self.tip_number == tip2,
                self.shared == old(self).shared,
                !self.stopped,
            decreases offers@.len() - oi,
        {
            let ghost suf = allo.subrange(oi as int, allo.len() as int);
            let ghost prepool = tx_models(self.txs@);
            proof {
                assert(suf[0] == allo[oi as int]);
                assert(suf.drop_first() =~= allo.subrange(oi as int + 1, allo.len() as int));
            }
            match admit_check(&self.txs, tip2, capacity, timeout, &offers[oi]) {
                None => {
                    let t = dup_tx(&offers[oi]);
                    self.txs.push(t);
                    proof {
                        assert(tx_models(self.txs@) =~= prepool.push(allo[oi as int]));
                        assert(readmit(prepool, tip2, capacity, timeout, suf) == readmit(
                            prepool.push(allo[oi as int]),
                            tip2,
                            capacity,
                            timeout,
                            suf.drop_first(),
                        ));
                    }
                },
                Some(_) => {
                    proof {
                        assert(readmit(prepool, tip2, capacity, timeout, suf) == readmit(
                            prepool,
                            tip2,
                            capacity,
                            timeout,
                            suf.drop_first(),
                        ));
                    }
                },
            }
            oi = oi + 1;
        }
        proof {
            assert(allo.subrange(offers@.len() as int, allo.len() as int) =~= Seq::<
                TxModel,
            >::empty());
            assert(readmit(
                tx_models(self.txs@),
                tip2,
                capacity,
                timeout,
                Seq::<TxModel>::empty(),
            ) == tx_models(self.txs@));
            if fork.attached@.len() > 0 {
                assert(fork.attached@[fork.attached@.len() - 1] == fork.attached@.last());
            }
        }
    }
}

/// How often an identity occurs in a sequence of transactions.
pub open spec fn count_hash(s: Seq<TxModel>, h: H256) -> int
    decreases s.len(),
{
    if s.len() == 0 {
        0int
    } else {
        count_hash(s.drop_last(), h) + if s.last().hash == h {
            1int
        } else {
            0int
        }
    }
}

proof fn lemma_count_push(s: Seq<TxModel>, t: TxModel, h: H256)
    ensures
        count_hash(s.push(t), h) == count_hash(s, h) + if t.hash == h {
            1int
        } else {
            0int
        },
{
    assert(s.push(t).drop_last() =~= s);
    assert(s.push(t).last() == t);
}

proof fn lemma_reoffer_absent(dt: Seq<TxModel>, ah: Seq<H256>, h: H256)
    requires
        !contains_hash(dt, h),
    ensures
        count_hash(reoffer_list(dt, ah), h) == 0,
    decreases dt.len(),
{
    if dt.len() > 0 {
        assert forall|i: int| 0 <= i < dt.drop_last().len() implies #[trigger] dt.drop_last()[
            i
        ].hash != h by {
            assert(dt[i] == dt.drop_last()[i]);
        }
        lemma_reoffer_absent(dt.drop_last(), ah, h);
        assert(dt.last().hash != h) by {
            assert(dt[dt.len() - 1] == dt.last());
        }
        let rest = reoffer_list(dt.drop_last(), ah);
        lemma_count_push(rest, dt.last(), h);
    }
}

/// After a fork switch, a transaction unique to the detached blocks is
/// re-offered to the pool exactly once: it occurs once in the re-offer
/// list, however many detached blocks carried it.
pub proof fn lemma_reoffer_exactly_once(dt: Seq<TxModel>, ah: Seq<H256>, h: H256)
    requires
        contains_hash(dt, h),
        !ah.contains(h),
    ensures
        count_hash(reoffer_list(dt, ah), h) == 1,
    decreases dt.len(),
{
    let pre = dt.drop_last();
    let t = dt.last();
    let rest = reoffer_list(pre, ah);
    lemma_count_push(rest, t, h);
    if t.hash == h {
        if contains_hash(pre, h) {
            lemma_reoffer_exactly_once(pre, ah, h);
        } else {
            lemma_reoffer_absent(pre, ah, h);
        }
    } else {
        let i = choose|i: int| 0 <= i < dt.len() && #[trigger] dt[i].hash == h;
        assert(dt[dt.len() - 1] == dt.last());
        assert(i < dt.len() - 1);
        assert(pre[i] == dt[i]);
        assert(contains_hash(pre, h));
        lemma_reoffer_exactly_once(pre, ah, h);
    }
}

/// Reconciling against confirmed identities removes each confirmed
/// transaction entirely and keeps every other exactly as often as the
/// pool held it, in order.
pub proof fn lemma_remove_confirmed_count(pool: Seq<TxModel>, hashes: Seq<H256>, h: H256)
    ensures
        count_hash(remove_confirmed(pool, hashes), h) == if hashes.contains(h) {
            0int
        } else {
            count_hash(pool, h)
        },
    decreases pool.len(),
{
    if pool.len() > 0 {
        lemma_remove_confirmed_count(pool.drop_last(), hashes, h);
        let rest = remove_confirmed(pool.drop_last(), hashes);
        lemma_count_push(rest, pool.last(), h);
    }
}

/// No two pool transactions consume the same cell, and no transaction
/// consumes a cell twice.
pub open spec fn no_double_spend(pool: Seq<TxModel>) -> bool {
    &&& forall|i: int, j: int, c: H256|
        0 <= i < j < pool.len() && #[trigger] pool[i].inputs.contains(c) ==> !(
        #[trigger] pool[j].inputs.contains(c))
    &&& forall|i: int| 0 <= i < pool.len() ==> !dup_in(#[trigger] pool[i].inputs)
}

/// Admission preserves the pool's double-spend freedom: an admitted
/// transaction consumes no cell the pool already consumes, and none
/// twice itself.
pub proof fn lemma_admission_keeps_spend_freedom(
    pool: Seq<TxModel>,
    tip: BlockNumber,
    capacity: usize,
    timeout: BlockNumber,
    t: TxModel,
)
    requires
        no_double_spend(pool),
        admit_error(pool, tip, capacity, timeout, t) is None,
    ensures
        no_double_spend(pool.push(t)),
{
    assert(!spends_any(pool, t.inputs));
    assert(!dup_in(t.inputs));
    let p2 = pool.push(t);
    assert forall|i: int, j: int, c: H256|
        0 <= i < j < p2.len() && #[trigger] p2[i].inputs.contains(c) implies !(#[trigger] p2[
        j
    ].inputs.contains(c)) by {
        if j < pool.len() {
            assert(p2[i] == pool[i] && p2[j] == pool[j]);
        } else {
            assert(p2[i] == pool[i] && p2[j] == t);
            if t.inputs.contains(c) {
                let k = choose|k: int| 0 <= k < t.inputs.len() && t.inputs[k] == c;
                assert(spends(pool, t.inputs[k]));
                assert(false);
            }
        }
    }
    assert forall|i: int| 0 <= i < p2.len() implies !dup_in(#[trigger] p2[i].inputs) by {
        if i < pool.len() {
            assert(p2[i] == pool[i]);
        } else {
            assert(p2[i] == t);
        }
    }
}

/// Re-admission after a fork never disturbs the surviving pool: it
/// stays in place as a prefix, in its original order, and everything
/// behind it came from the offered transactions.
pub proof fn lemma_readmit_appends_only(
    pool: Seq<TxModel>,
    tip: BlockNumber,
    capacity: usize,
    timeout: BlockNumber,
    offers: Seq<TxModel>,
)
    ensures
        ({
            let r = readmit(pool, tip, capacity, timeout, offers);
            &&& r.len() >= pool.len()
            &&& r.subrange(0, pool.len() as int) == pool
            &&& forall|i: int| pool.len() <= i < r.len() ==> offers.contains(#[trigger] r[i])
        }),
    decreases offers.len(),
{
    if offers.len() > 0 {
        let p1 = if admit_error(pool, tip, capacity, timeout, offers[0]) is None {
            pool.push(offers[0])
        } else {
            pool
        };
        lemma_readmit_appends_only(p1, tip, capacity, timeout, offers.drop_first());
        let r = readmit(pool, tip, capacity, timeout, offers);
        assert(r == readmit(p1, tip, capacity, timeout, offers.drop_first()));
        assert(r.subrange(0, p1.len() as int) == p1);
        assert forall|i: int| 0 <= i < pool.len() implies r[i] == pool[i] by {
            assert(r[i] == r.subrange(0, p1.len() as int)[i]);
            if p1.len() > pool.len() {
                assert(p1[i] == pool[i]);
            }
        }
        assert(r.subrange(0, pool.len() as int) =~= pool);
        assert forall|i: int| pool.len() <= i < r.len() implies offers.contains(
            #[trigger] r[i],
        ) by {
            if i < p1.len() {
                assert(r[i] == r.subrange(0, p1.len() as int)[i]);
                assert(r[i] == offers[0]);
            } else {
                assert(offers.drop_first().contains(r[i]));
                let j = choose|j: int|
                    0 <= j < offers.drop_first().len() && offers.drop_first()[j] == r[i];
                assert(offers[j + 1] == offers.drop_first()[j]);
            }
        }
    }
}

/// The mempool stays keyed by identity: admitting a transaction into a
/// pool of distinct identities keeps them distinct.
pub proof fn lemma_admission_keeps_distinct(
    pool: Seq<TxModel>,
    tip: BlockNumber,
    capacity: usize,
    timeout: BlockNumber,
    t: TxModel,
)
    requires
        forall|i: int, j: int| 0 <= i < j < pool.len() ==> pool[i].hash != pool[j].hash,
        admit_error(pool, tip, capacity, timeout, t) is None,
    ensures
        forall|i: int, j: int|
            0 <= i < j < pool.push(t).len() ==> pool.push(t)[i].hash != pool.push(t)[j].hash,
{
    assert(!contains_hash(pool, t.hash));
    assert forall|i: int, j: int| 0 <= i < j < pool.push(t).len() implies pool.push(t)[i].hash
        != pool.push(t)[j].hash by {
        if j < pool.len() {
            assert(pool.push(t)[i] == pool[i] && pool.push(t)[j] == pool[j]);
        } else {
            assert(pool.push(t)[i] == pool[i] && pool.push(t)[j] == t);
            assert(pool[i].hash != t.hash);
        }
    }
}

/// Admitting a transaction and then offering the very same transaction
/// again always fails with `AlreadyInPool`: no identity enters the pool
/// twice.
pub proof fn lemma_no_double_admission(
    pool: Seq<TxModel>,
    tip: BlockNumber,
    capacity: usize,
    timeout: BlockNumber,
    t: TxModel,
)
    requires
        admit_error(pool, tip, capacity, timeout, t) is None,
    ensures
        admit_error(pool.push(t), tip, capacity, timeout, t) == Some(PoolError::AlreadyInPool),
{
    assert(pool.push(t)[pool.len() as int].hash == t.hash);
    assert(contains_hash(pool.push(t), t.hash));
}

} // verus!

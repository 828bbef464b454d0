//! Domain types shared by every service: identities, blocks, transactions,
//! consensus parameters, and the capability traits for storage and
//! proof-of-work.

use std::sync::Arc;
use vstd::prelude::*;

verus! {

/// Relies on std's `Arc::clone`: the returned handle refers to the same
/// allocation as the argument, so it carries the same value.
#[verifier::external_body]
pub fn arc_clone<T>(v: &Arc<T>) -> (r: Arc<T>)
    ensures
        r == *v,
{
    Arc::clone(v)
}

/// Unsigned value quantity (block rewards, fees).
pub type Capacity = u64;

/// Height of a block in a chain.
pub type BlockNumber = u64;

/// 256-bit identity value, kept as four 64-bit words. Equality is
/// structural, so hash-based dedup and keying can be reasoned about
/// directly in specifications.
#[derive(Clone, Copy, PartialEq, Eq, Structural, Hash, Debug)]
pub struct H256 {
    pub w0: u64,
    pub w1: u64,
    pub w2: u64,
    pub w3: u64,
}

/// The failure every cross-service call can surface when the owning
/// worker has stopped: the caller gets this value back instead of
/// blocking forever.
#[derive(Clone, Copy, PartialEq, Eq, Structural, Debug)]
pub struct ServiceUnavailable;

/// A transaction together with its derived identity; never mutated after
/// construction.
#[derive(Clone, PartialEq, Eq, Debug)]
pub struct IndexedTransaction {
    /// Derived identity of the transaction.
    pub hash: H256,
    /// True for the block-reward (coinbase) transaction of a block; such
    /// transactions are never admitted to the pool.
    pub cellbase: bool,
    /// Identities of the cells this transaction consumes.
    pub inputs: Vec<H256>,
    /// Identities of the cells this transaction creates.
    pub outputs: Vec<H256>,
    /// Height of the chain when the transaction was first broadcast;
    /// admission applies the propagation-timeout rules to it.
    pub broadcast_number: BlockNumber,
}

/// Mathematical model of a transaction: the same data with sequences in
/// place of vectors.
#[verifier::ext_equal]
pub ghost struct TxModel {
    pub hash: H256,
    pub cellbase: bool,
    pub inputs: Seq<H256>,
    pub outputs: Seq<H256>,
    pub broadcast_number: BlockNumber,
}

impl View for IndexedTransaction {
    type V = TxModel;

    open spec fn view(&self) -> TxModel {
        TxModel {
            hash: self.hash,
            cellbase: self.cellbase,
            inputs: self.inputs@,
            outputs: self.outputs@,
            broadcast_number: self.broadcast_number,
        }
    }
}

/// A block together with its derived identity and position data; never
/// mutated after construction and shared by reference across services.
#[derive(Clone, PartialEq, Eq, Debug)]
pub struct IndexedBlock {
    /// Derived identity of the block.
    pub hash: H256,
    /// Height: one more than its parent's height, zero for genesis.
    pub number: BlockNumber,
    /// Identity of the parent block.
    pub parent_hash: H256,
    /// Proof-of-work weight claimed by this single block; chain selection
    /// compares the cumulative sum of these along each branch.
    pub work: u64,
    /// The transactions the block confirms.
    pub transactions: Vec<IndexedTransaction>,
}

impl IndexedBlock {
    /// Derived identity of the block.
    pub fn hash(&self) -> (r: H256)
        ensures
            r == self.hash,
    {
        self.hash
    }

    /// The models of the transactions this block confirms.
    pub open spec fn txs(&self) -> Seq<TxModel> {
        self.transactions@.map_values(|t: IndexedTransaction| t@)
    }

    /// The identities of the transactions this block confirms.
    pub open spec fn tx_hashes(&self) -> Seq<H256> {
        self.transactions@.map_values(|t: IndexedTransaction| t.hash)
    }
}

/// Immutable consensus configuration, constructed once at startup and
/// handed to every service. The orphan-rate target is kept as a rational
/// number (numerator over denominator) so that it stays within the
/// integer-only value domain of this library.
#[derive(Clone, PartialEq, Debug)]
pub struct Consensus {
    pub genesis_block: IndexedBlock,
    pub initial_block_reward: Capacity,
    /// How far behind the current mining height an uncle candidate may
    /// trail before it is evicted.
    pub max_uncles_age: u64,
    /// Upper bound on the uncles included in one block template.
    pub max_uncles_len: usize,
    pub orphan_rate_target_numer: u64,
    pub orphan_rate_target_denom: u64,
    pub pow_time_span: u64,
    pub pow_spacing: u64,
    /// Blocks a transaction must age before it is commit-eligible.
    pub transaction_propagation_time: BlockNumber,
    /// Blocks after which an unconfirmed transaction is too old to admit.
    pub transaction_propagation_timeout: BlockNumber,
}

/// Outcome taxonomy for a successful pool admission.
#[derive(Clone, PartialEq, Eq, Structural, Debug)]
pub enum InsertionResult {
    Unknown,
}

/// Capability handle for the persistent storage engine. Its internals are
/// out of scope here: the chain service is the single writer of the
/// canonical state it abstracts.
pub trait ChainStore {
}

/// Storage capability backed by an on-disk key-value store; the engine
/// itself lives outside this library.
pub struct RocksDBStore {
}

impl ChainStore for RocksDBStore {
}

/// Consensus parameters plus the storage capability, cheaply handed into
/// every service. Values of this type are never mutated after
/// construction.
#[derive(Clone, Debug)]
pub struct Shared<S> {
    pub consensus: Consensus,
    pub store: S,
}

impl<S: ChainStore> Shared<S> {
    pub fn new(consensus: Consensus, store: S) -> (r: Shared<S>)
        ensures
            r.consensus == consensus,
            r.store == store,
    {
        Shared { consensus, store }
    }
}

/// Parameters of the cuckoo-cycle proof-of-work puzzle.
#[derive(Clone, PartialEq, Eq, Structural, Debug)]
pub struct Cuckoo {
    pub max_vertex: usize,
    pub max_edge: usize,
    pub cycle_length: usize,
}

/// Proof-of-work capability backed by the cuckoo-cycle puzzle. The
/// cycle-finding algorithm itself is out of scope; this engine stands in
/// for it with the weakest meaningful gate: a block must claim positive
/// work.
#[derive(Clone, PartialEq, Eq, Structural, Debug)]
pub struct CuckooEngine {
    pub cuckoo: Cuckoo,
}

/// Pluggable proof-of-work capability: the miner initialises it at the
/// height being mined, the block verifier consults it to gate admission.
pub trait PowEngine {
    /// What this engine accepts as proof-of-work-valid.
    spec fn pow_valid(&self, block: &IndexedBlock) -> bool;

    /// Prepare the engine for mining at the given height.
    fn init(&self, number: BlockNumber);

    /// Decide proof-of-work validity of one block.
    fn verify_block(&self, block: &IndexedBlock) -> (r: bool)
        ensures
            r == self.pow_valid(block),
    ;
}

impl PowEngine for CuckooEngine {
    open spec fn pow_valid(&self, block: &IndexedBlock) -> bool {
        block.work >= 1
    }

    fn init(&self, number: BlockNumber) {
    }

    fn verify_block(&self, block: &IndexedBlock) -> (r: bool)
        ensures
            r == self.pow_valid(block),
    {
        block.work >= 1
    }
}

/// Copy a vector of identities; the result holds the same sequence.
#[verifier::loop_isolation(false)]
pub fn dup_hashes(v: &Vec<H256>) -> (r: Vec<H256>)
    ensures
        r@ == v@,
{
    let mut r: Vec<H256> = Vec::new();
    let mut i: usize = 0;
    while i < v.len()
        invariant
            i <= v.len(),
            r@ == v@.subrange(0, i as int),
        decreases v.len() - i,
    {
        r.push(v[i]);
        i = i + 1;
    }
    assert(r@ == v@);
    r
}

/// Copy a transaction; the result has the same model.
pub fn dup_tx(t: &IndexedTransaction) -> (r: IndexedTransaction)
    ensures
        r@ == t@,
{
    IndexedTransaction {
        hash: t.hash,
        cellbase: t.cellbase,
        inputs: dup_hashes(&t.inputs),
        outputs: dup_hashes(&t.outputs),
        broadcast_number: t.broadcast_number,
    }
}

/// Copy a vector of transactions; the result has the same models.
#[verifier::loop_isolation(false)]
pub fn dup_txs(v: &Vec<IndexedTransaction>) -> (r: Vec<IndexedTransaction>)
    ensures
        r@.map_values(|t: IndexedTransaction| t@) == v@.map_values(|t: IndexedTransaction| t@),
        r@.len() == v@.len(),
        forall|j: int| 0 <= j < v@.len() ==> r@[j]@ == v@[j]@,
{
    let mut r: Vec<IndexedTransaction> = Vec::new();
    let mut i: usize = 0;
    while i < v.len()
        invariant
            i <= v@.len(),
            r@.len() == i,
            forall|j: int| 0 <= j < i ==> r@[j]@ == v@[j]@,
        decreases v@.len() - i,
    {
        r.push(dup_tx(&v[i]));
        i = i + 1;
    }
    assert(r@.map_values(|t: IndexedTransaction| t@) =~= v@.map_values(
        |t: IndexedTransaction| t@,
    ));
    r
}

/// Copy a block; the result has the same identity, position data and
/// transaction models.
pub fn dup_block(b: &IndexedBlock) -> (r: IndexedBlock)
    ensures
        r.hash == b.hash,
        r.number == b.number,
        r.parent_hash == b.parent_hash,
        r.work == b.work,
        r.txs() == b.txs(),
        r.tx_hashes() == b.tx_hashes(),
{
    let r = IndexedBlock {
        hash: b.hash,
        number: b.number,
        parent_hash: b.parent_hash,
        work: b.work,
        transactions: dup_txs(&b.transactions),
    };
    assert(r.txs() =~= b.txs());
    assert(r.tx_hashes() =~= b.tx_hashes()) by {
        assert forall|j: int| 0 <= j < r.transactions@.len() implies r.tx_hashes()[j]
            == b.tx_hashes()[j] by {
            assert(r.transactions@[j]@ == b.transactions@[j]@);
        }
    }
    r
}

/// The sequence holds the same identity twice.
pub open spec fn dup_in(s: Seq<H256>) -> bool {
    exists|i: int, j: int| #![trigger s[i], s[j]] 0 <= i < j < s.len() && s[i] == s[j]
}

/// Whether the list holds the identity `c`.
#[verifier::loop_isolation(false)]
pub(crate) fn vec_contains(v: &Vec<H256>, c: H256) -> (b: bool)
    ensures
        b == v@.contains(c),
{
    let mut i: usize = 0;
    while i < v.len()
        invariant
            i <= v@.len(),
            forall|j: int| 0 <= j < i ==> v@[j] != c,
        decreases v@.len() - i,
    {
        if v[i] == c {
            return true;
        }
        i = i + 1;
    }
    false
}

/// Whether the list holds some identity twice.
#[verifier::loop_isolation(false)]
pub(crate) fn has_dup(v: &Vec<H256>) -> (b: bool)
    ensures
        b == dup_in(v@),
{
    let mut i: usize = 0;
    while i < v.len()
        invariant
            i <= v@.len(),
            forall|p: int, q: int| 0 <= p < q < v@.len() && p < i ==> v@[p] != v@[q],
        decreases v@.len() - i,
    {
        let mut j: usize = i + 1;
        while j < v.len()
            invariant
                i < v@.len(),
                i < j <= v@.len(),
                forall|q: int| i < q < j ==> v@[i as int] != v@[q],
            decreases v@.len() - j,
        {
            if v[i] == v[j] {
                assert(dup_in(v@));
                return true;
            }
            j = j + 1;
        }
        i = i + 1;
    }
    false
}

/// The identities of a list of transactions, in order.
#[verifier::loop_isolation(false)]
pub(crate) fn collect_tx_hashes(txs: &Vec<IndexedTransaction>) -> (r: Vec<H256>)
    ensures
        r@ == txs@.map_values(|t: IndexedTransaction| t.hash),
{
    let mut r: Vec<H256> = Vec::new();
    let mut i: usize = 0;
    while i < txs.len()
        invariant
            i <= txs@.len(),
            r@.len() == i,
            forall|j: int| 0 <= j < i ==> r@[j] == txs@[j].hash,
        decreases txs@.len() - i,
    {
        r.push(txs[i].hash);
        i = i + 1;
    }
    assert(r@ =~= txs@.map_values(|t: IndexedTransaction| t.hash));
    r
}

} // verus!

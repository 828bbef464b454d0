//! The block verifier: the stateless gate a candidate block must pass
//! before it may reach the chain service.
//!
//! A block is checked for structural well-formedness (a single leading
//! coinbase transaction and no duplicate transaction identity), for
//! proof-of-work validity through the pluggable capability, and for
//! referenced-cell validity against a snapshot of the known cells. The
//! checks run in that fixed order and the first failing one names the
//! error.

use vstd::prelude::*;

use crate::util::{
    collect_tx_hashes, dup_in, has_dup, vec_contains, ChainStore, H256, IndexedBlock, PowEngine,
    ServiceUnavailable, Shared, TxModel,
};

verus! {

/// Why a candidate block failed verification.
#[derive(Clone, Copy, PartialEq, Eq, Structural, Debug)]
pub enum VerifyError {
    /// The block is not structurally well formed.
    InvalidStructure,
    /// The proof-of-work capability rejected the block.
    InvalidPow,
    /// A consumed cell is not known to the storage snapshot.
    InvalidReference,
}

/// Structural well-formedness: at least one transaction, the first and
/// only the first is the coinbase, and no transaction identity repeats.
pub open spec fn structure_ok(b: IndexedBlock) -> bool {
    &&& b.txs().len() >= 1
    &&& b.txs()[0].cellbase
    &&& forall|i: int| 1 <= i < b.txs().len() ==> !(#[trigger] b.txs()[i].cellbase)
    &&& !dup_in(b.tx_hashes())
}

/// Every cell the transaction consumes is in the snapshot.
pub open spec fn inputs_known(t: TxModel, cells: Seq<H256>) -> bool {
    forall|k: int| 0 <= k < t.inputs.len() ==> cells.contains(#[trigger] t.inputs[k])
}

/// Every cell consumed by a non-coinbase transaction of the block is in
/// the snapshot.
pub open spec fn references_ok(b: IndexedBlock, cells: Seq<H256>) -> bool {
    forall|i: int| 1 <= i < b.txs().len() ==> inputs_known(#[trigger] b.txs()[i], cells)
}

/// The verdict on one block, checks in their fixed order.
pub open spec fn verify_verdict(b: IndexedBlock, cells: Seq<H256>, pow_ok: bool) -> Result<
    (),
    VerifyError,
> {
    if !structure_ok(b) {
        Err(VerifyError::InvalidStructure)
    } else if !pow_ok {
        Err(VerifyError::InvalidPow)
    } else if !references_ok(b, cells) {
        Err(VerifyError::InvalidReference)
    } else {
        Ok(())
    }
}

/// The block verifier's state: read-only capabilities and the stopped
/// flag; nothing mutable is kept across calls.
pub struct BlockVerifierService<S, P> {
    pub shared: Shared<S>,
    pub pow: P,
    pub stopped: bool,
}

/// Whether every cell the transaction consumes is in the snapshot.
#[verifier::loop_isolation(false)]
fn tx_inputs_known(t: &crate::util::IndexedTransaction, cells: &Vec<H256>) -> (b: bool)
    ensures
        b == inputs_known(t@, cells@),
{
    let mut k: usize = 0;
    while k < t.inputs.len()
        invariant
            k <= t.inputs@.len(),
            forall|j: int| 0 <= j < k ==> cells@.contains(#[trigger] t.inputs@[j]),
        decreases t.inputs@.len() - k,
    {
        if !vec_contains(cells, t.inputs[k]) {
            assert(!inputs_known(t@, cells@)) by {
                assert(!cells@.contains(t@.inputs[k as int]));
            }
            return false;
        }
        k = k + 1;
    }
    true
}

impl<S: ChainStore, P: PowEngine> BlockVerifierService<S, P> {
    /// A verifier over the given capabilities, ready to serve.
    pub fn new(shared: Shared<S>, pow: P) -> (r: BlockVerifierService<S, P>)
        ensures
            !r.stopped,
            r.shared == shared,
            r.pow == pow,
    {
        BlockVerifierService { shared, pow, stopped: false }
    }

    /// Handle the shutdown signal.
    pub fn stop(&mut self)
        ensures
            final(self).stopped,
            final(self).shared == old(self).shared,
            final(self).pow == old(self).pow,
    {
        self.stopped = true;
    }

    /// Gate one candidate block: structure, then proof-of-work, then
    /// referenced cells against the given storage snapshot.
    #[verifier::loop_isolation(false)]
    pub fn verify(&self, block: &IndexedBlock, cells: &Vec<H256>) -> (r: Result<
        Result<(), VerifyError>,
        ServiceUnavailable,
    >)
        ensures
            self.stopped ==> r == Err::<Result<(), VerifyError>, ServiceUnavailable>(
                ServiceUnavailable,
            ),
            !self.stopped ==> r == Ok::<Result<(), VerifyError>, ServiceUnavailable>(
                verify_verdict(*block, cells@, self.pow.pow_valid(block)),
            ),
    {
        if self.stopped {
            return Err(ServiceUnavailable);
        }
        // Structure: a single leading coinbase, no repeated identity.
        if block.transactions.len() == 0 {
            return Ok(Err(VerifyError::InvalidStructure));
        }
        if !block.transactions[0].cellbase {
            assert(!block.txs()[0].cellbase);
            return Ok(Err(VerifyError::InvalidStructure));
        }
        let mut i: usize = 1;
        while i < block.transactions.len()
            invariant
                1 <= i <= block.transactions@.len(),
                forall|j: int| 1 <= j < i ==> !(#[trigger] block.txs()[j].cellbase),
            decreases block.transactions@.len() - i,
        {
            if block.transactions[i].cellbase {
                assert(block.txs()[i as int].cellbase);
                return Ok(Err(VerifyError::InvalidStructure));
            }
            i = i + 1;
        }
        let hashes = collect_tx_hashes(&block.transactions);
        if has_dup(&hashes) {
            return Ok(Err(VerifyError::InvalidStructure));
        }
        assert(structure_ok(*block));
        // Proof of work, through the capability.
        if !self.pow.verify_block(block) {
            return Ok(Err(VerifyError::InvalidPow));
        }
        // Referenced cells against the snapshot.
        let mut t: usize = 1;
        while t < block.transactions.len()
            invariant
                1 <= t <= block.transactions@.len(),
                forall|j: int| 1 <= j < t ==> inputs_known(#[trigger] block.txs()[j], cells@),
            decreases block.transactions@.len() - t,
        {
            if !tx_inputs_known(&block.transactions[t], cells) {
                assert(!inputs_known(block.txs()[t as int], cells@));
                return Ok(Err(VerifyError::InvalidReference));
            }
            t = t + 1;
        }
        assert(references_ok(*block, cells@));
        Ok(Ok(()))
    }
}

} // verus!

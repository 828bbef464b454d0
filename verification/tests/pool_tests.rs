use std::sync::Arc;

use nodecore::notify::ForkBlocks;
use nodecore::tx_pool::{PoolError, TransactionError, TransactionPoolService};
use nodecore::util::{
    Consensus, IndexedBlock, IndexedTransaction, InsertionResult, RocksDBStore, Shared, H256,
};

fn h(n: u64) -> H256 {
    H256 { w0: n, w1: 0, w2: 0, w3: 0 }
}

fn tx(hash: u64, inputs: Vec<u64>, outputs: Vec<u64>, broadcast_number: u64) -> IndexedTransaction {
    IndexedTransaction {
        hash: h(hash),
        cellbase: false,
        inputs: inputs.into_iter().map(h).collect(),
        outputs: outputs.into_iter().map(h).collect(),
        broadcast_number,
    }
}

fn block_with(hash: u64, number: u64, parent: u64, txs: Vec<IndexedTransaction>) -> IndexedBlock {
    IndexedBlock { hash: h(hash), number, parent_hash: h(parent), work: 1, transactions: txs }
}

fn consensus() -> Consensus {
    Consensus {
        genesis_block: block_with(0, 0, 9999, vec![]),
        initial_block_reward: 50,
        max_uncles_age: 6,
        max_uncles_len: 2,
        orphan_rate_target_numer: 1,
        orphan_rate_target_denom: 10,
        pow_time_span: 600,
        pow_spacing: 15,
        transaction_propagation_time: 2,
        transaction_propagation_timeout: 50,
    }
}

fn pool(capacity: usize) -> TransactionPoolService<RocksDBStore> {
    TransactionPoolService::new(Shared::new(consensus(), RocksDBStore {}), capacity)
}

#[test]
fn double_admission_is_refused() {
    let mut p = pool(16);
    let tx1 = tx(1, vec![100], vec![200], 0);
    let r = p.add_transaction(tx1.clone()).unwrap();
    assert!(matches!(r, Ok(InsertionResult::Unknown)));
    let r = p.add_transaction(tx1).unwrap();
    assert_eq!(r, Err(PoolError::AlreadyInPool));
}

#[test]
fn zero_selection_is_empty_not_an_error() {
    let mut p = pool(16);
    p.add_transaction(tx(1, vec![100], vec![200], 0)).unwrap().unwrap();
    let (proposals, commits) = p.get_proposal_commit_txs(0, 0).unwrap();
    assert!(proposals.is_empty());
    assert!(commits.is_empty());
}

#[test]
fn each_admission_rule_names_its_error() {
    let mut p = pool(2);

    let mut coinbase = tx(1, vec![], vec![200], 0);
    coinbase.cellbase = true;
    assert_eq!(p.add_transaction(coinbase).unwrap(), Err(PoolError::CellBase));

    assert_eq!(
        p.add_transaction(tx(2, vec![], vec![200], 0)).unwrap(),
        Err(PoolError::InvalidTx(TransactionError::NoInputs))
    );
    assert_eq!(
        p.add_transaction(tx(3, vec![100], vec![], 0)).unwrap(),
        Err(PoolError::InvalidTx(TransactionError::NoOutputs))
    );

    // Broadcast height above the pool's tip.
    assert_eq!(
        p.add_transaction(tx(4, vec![100], vec![200], 7)).unwrap(),
        Err(PoolError::InvalidBlockNumber)
    );

    // Too old: reconcile the pool to a high tip first.
    p.reconcile_block(&block_with(90, 60, 89, vec![]));
    assert_eq!(
        p.add_transaction(tx(5, vec![100], vec![200], 1)).unwrap(),
        Err(PoolError::TimeOut)
    );

    p.add_transaction(tx(6, vec![100], vec![200], 59)).unwrap().unwrap();

    // Double spend of cell 100; in-transaction duplicate input too.
    assert_eq!(
        p.add_transaction(tx(7, vec![100], vec![201], 59)).unwrap(),
        Err(PoolError::DoubleSpent)
    );
    assert_eq!(
        p.add_transaction(tx(8, vec![101, 101], vec![202], 59)).unwrap(),
        Err(PoolError::DoubleSpent)
    );

    // Duplicate output, against the pool and within the transaction.
    assert_eq!(
        p.add_transaction(tx(9, vec![102], vec![200], 59)).unwrap(),
        Err(PoolError::DuplicateOutput)
    );
    assert_eq!(
        p.add_transaction(tx(10, vec![103], vec![203, 203], 59)).unwrap(),
        Err(PoolError::DuplicateOutput)
    );

    // Fill the pool to its capacity of two, then overflow it.
    p.add_transaction(tx(11, vec![104], vec![204], 59)).unwrap().unwrap();
    assert_eq!(
        p.add_transaction(tx(12, vec![105], vec![205], 59)).unwrap(),
        Err(PoolError::OverCapacity)
    );
}

#[test]
fn new_tip_removes_confirmed_transactions() {
    let mut p = pool(16);
    let tx1 = tx(1, vec![100], vec![200], 0);
    let tx2 = tx(2, vec![101], vec![201], 0);
    p.add_transaction(tx1.clone()).unwrap().unwrap();
    p.add_transaction(tx2).unwrap().unwrap();

    p.reconcile_block(&block_with(5, 1, 0, vec![tx1]));
    let hashes: Vec<u64> = p.txs.iter().map(|t| t.hash.w0).collect();
    assert_eq!(hashes, vec![2]);
    assert_eq!(p.tip_number, 1);
}

#[test]
fn fork_switch_reoffers_detached_only_transactions_once() {
    let mut p = pool(16);
    let tx_shared = tx(1, vec![100], vec![200], 0);
    let tx_detached = tx(2, vec![101], vec![201], 0);
    let tx_confirmed = tx(3, vec![102], vec![202], 0);
    p.add_transaction(tx_confirmed.clone()).unwrap().unwrap();

    // The detached side carried tx1 and tx2 (tx2 twice); the attached
    // side confirms tx1 and tx3.
    let fork = ForkBlocks {
        detached: vec![
            Arc::new(block_with(10, 1, 0, vec![tx_shared.clone(), tx_detached.clone()])),
            Arc::new(block_with(11, 2, 10, vec![tx_detached.clone()])),
        ],
        attached: vec![
            Arc::new(block_with(20, 1, 0, vec![tx_shared.clone(), tx_confirmed.clone()])),
            Arc::new(block_with(21, 2, 20, vec![])),
        ],
    };
    p.switch_fork(&fork);

    // tx3 was confirmed by an attached block and left the pool; tx2 was
    // unique to detached blocks and re-entered exactly once; tx1 was
    // re-confirmed on the new path and stayed out.
    let hashes: Vec<u64> = p.txs.iter().map(|t| t.hash.w0).collect();
    assert_eq!(hashes, vec![2]);
    assert_eq!(p.tip_number, 2);
}

#[test]
fn selection_respects_stage_and_order() {
    let mut p = pool(16);
    // Tip height 10; propagation time 2: broadcast at 8 or earlier is
    // commit-eligible, later is proposal-stage.
    p.reconcile_block(&block_with(5, 10, 0, vec![]));
    p.add_transaction(tx(1, vec![100], vec![200], 8)).unwrap().unwrap();
    p.add_transaction(tx(2, vec![101], vec![201], 10)).unwrap().unwrap();
    p.add_transaction(tx(3, vec![102], vec![202], 7)).unwrap().unwrap();
    p.add_transaction(tx(4, vec![103], vec![203], 9)).unwrap().unwrap();

    let (proposals, commits) = p.get_proposal_commit_txs(10, 10).unwrap();
    let prop_hashes: Vec<u64> = proposals.iter().map(|t| t.hash.w0).collect();
    let commit_hashes: Vec<u64> = commits.iter().map(|t| t.hash.w0).collect();
    assert_eq!(prop_hashes, vec![2, 4]);
    assert_eq!(commit_hashes, vec![1, 3]);

    let (proposals, commits) = p.get_proposal_commit_txs(1, 1).unwrap();
    assert_eq!(proposals.len(), 1);
    assert_eq!(proposals[0].hash, h(2));
    assert_eq!(commits.len(), 1);
    assert_eq!(commits[0].hash, h(1));
}

#[test]
fn stopped_pool_is_unavailable() {
    let mut p = pool(16);
    p.stop();
    assert!(p.add_transaction(tx(1, vec![100], vec![200], 0)).is_err());
    assert!(p.get_proposal_commit_txs(1, 1).is_err());
}

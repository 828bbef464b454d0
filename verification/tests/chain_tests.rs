use std::sync::Arc;

use nodecore::chain::{ChainAction, ChainError, ChainService};
use nodecore::miner::MinerService;
use nodecore::util::{
    Consensus, Cuckoo, CuckooEngine, IndexedBlock, RocksDBStore, Shared, H256,
};

fn h(n: u64) -> H256 {
    H256 { w0: n, w1: 0, w2: 0, w3: 0 }
}

fn block(hash: u64, number: u64, parent: u64, work: u64) -> IndexedBlock {
    IndexedBlock {
        hash: h(hash),
        number,
        parent_hash: h(parent),
        work,
        transactions: vec![],
    }
}

fn consensus() -> Consensus {
    Consensus {
        genesis_block: block(0, 0, 9999, 1),
        initial_block_reward: 50,
        max_uncles_age: 6,
        max_uncles_len: 2,
        orphan_rate_target_numer: 1,
        orphan_rate_target_denom: 10,
        pow_time_span: 600,
        pow_spacing: 15,
        transaction_propagation_time: 2,
        transaction_propagation_timeout: 50,
    }
}

fn shared() -> Shared<RocksDBStore> {
    Shared::new(consensus(), RocksDBStore {})
}

fn pow() -> CuckooEngine {
    CuckooEngine { cuckoo: Cuckoo { max_vertex: 8, max_edge: 4, cycle_length: 6 } }
}

#[test]
fn extending_the_chain_advances_the_tip() {
    let mut chain = ChainService::new(shared());
    assert_eq!(chain.tip_header().unwrap().number(), 0);

    let genesis_child = Arc::new(block(1, 1, 0, 10));
    let r = chain.process_block(genesis_child).unwrap().unwrap();
    assert!(matches!(r, ChainAction::PublishNewTip(_)));
    assert_eq!(chain.tip_header().unwrap().number(), 1);

    let child_of_child = Arc::new(block(2, 2, 1, 10));
    let r = chain.process_block(child_of_child).unwrap().unwrap();
    assert!(matches!(r, ChainAction::PublishNewTip(_)));
    assert_eq!(chain.tip_header().unwrap().number(), 2);
}

#[test]
fn lower_work_block_becomes_an_uncle_candidate() {
    let mut chain = ChainService::new(shared());
    chain.process_block(Arc::new(block(1, 1, 0, 10))).unwrap().unwrap();
    chain.process_block(Arc::new(block(2, 2, 1, 10))).unwrap().unwrap();
    let tip_before = chain.tip_header().unwrap();

    // A competing child of genesis with far less cumulative work.
    let lower_work_block = Arc::new(block(3, 1, 0, 1));
    let action = chain.process_block(lower_work_block).unwrap().unwrap();
    let uncle = match action {
        ChainAction::OfferUncle(u) => u,
        other => panic!("expected an uncle offer, got {:?}", other),
    };
    assert_eq!(chain.tip_header().unwrap(), tip_before);

    let mut miner = MinerService::new(shared(), pow(), tip_before.number());
    miner.add_uncle(uncle);
    assert!(miner.candidate_uncles.iter().any(|u| u.hash == h(3)));
}

#[test]
fn heavier_branch_switches_the_fork() {
    let mut chain = ChainService::new(shared());
    chain.process_block(Arc::new(block(1, 1, 0, 10))).unwrap().unwrap();
    chain.process_block(Arc::new(block(2, 2, 1, 10))).unwrap().unwrap();

    // A competing branch from genesis: lighter at first, then heavier.
    let r = chain.process_block(Arc::new(block(11, 1, 0, 12))).unwrap().unwrap();
    assert!(matches!(r, ChainAction::OfferUncle(_)));
    let action = chain.process_block(Arc::new(block(12, 2, 11, 30))).unwrap().unwrap();
    let fork = match action {
        ChainAction::PublishSwitchFork(f) => f,
        other => panic!("expected a fork switch, got {:?}", other),
    };
    let detached: Vec<u64> = fork.detached.iter().map(|b| b.hash.w0).collect();
    let attached: Vec<u64> = fork.attached.iter().map(|b| b.hash.w0).collect();
    assert_eq!(detached, vec![1, 2]);
    assert_eq!(attached, vec![11, 12]);
    assert_eq!(chain.tip_header().unwrap().number(), 2);
    assert_eq!(chain.tip_header().unwrap().hash, h(12));
}

#[test]
fn fork_above_genesis_moves_only_the_divergent_suffix() {
    let mut chain = ChainService::new(shared());
    chain.process_block(Arc::new(block(1, 1, 0, 10))).unwrap().unwrap();
    chain.process_block(Arc::new(block(2, 2, 1, 10))).unwrap().unwrap();
    chain.process_block(Arc::new(block(3, 3, 2, 10))).unwrap().unwrap();

    // A branch from height one, heavier once its third block lands.
    chain.process_block(Arc::new(block(21, 2, 1, 10))).unwrap().unwrap();
    chain.process_block(Arc::new(block(22, 3, 21, 10))).unwrap().unwrap();
    let action = chain.process_block(Arc::new(block(23, 4, 22, 15))).unwrap().unwrap();
    let fork = match action {
        ChainAction::PublishSwitchFork(f) => f,
        other => panic!("expected a fork switch, got {:?}", other),
    };
    let detached: Vec<u64> = fork.detached.iter().map(|b| b.hash.w0).collect();
    let attached: Vec<u64> = fork.attached.iter().map(|b| b.hash.w0).collect();
    assert_eq!(detached, vec![2, 3]);
    assert_eq!(attached, vec![21, 22, 23]);
    assert_eq!(chain.tip_header().unwrap().number(), 4);
}

#[test]
fn equal_work_keeps_the_first_seen_tip() {
    let mut chain = ChainService::new(shared());
    chain.process_block(Arc::new(block(1, 1, 0, 10))).unwrap().unwrap();
    let tip_before = chain.tip_header().unwrap();

    // Same cumulative work as the current tip: first seen wins.
    let action = chain.process_block(Arc::new(block(5, 1, 0, 10))).unwrap().unwrap();
    assert!(matches!(action, ChainAction::OfferUncle(_)));
    assert_eq!(chain.tip_header().unwrap(), tip_before);
}

#[test]
fn admission_errors_are_named() {
    let mut chain = ChainService::new(shared());
    chain.process_block(Arc::new(block(1, 1, 0, 10))).unwrap().unwrap();

    // Same identity again.
    let e = chain.process_block(Arc::new(block(1, 1, 0, 10))).unwrap();
    assert_eq!(e, Err(ChainError::KnownBlock));

    // Unknown parent.
    let e = chain.process_block(Arc::new(block(9, 2, 777, 10))).unwrap();
    assert_eq!(e, Err(ChainError::UnknownParent));

    // Height not one above the parent.
    let e = chain.process_block(Arc::new(block(9, 5, 1, 10))).unwrap();
    assert_eq!(e, Err(ChainError::InvalidNumber));
}

#[test]
fn stopped_chain_is_unavailable() {
    let mut chain = ChainService::new(shared());
    chain.stop();
    assert!(chain.process_block(Arc::new(block(1, 1, 0, 10))).is_err());
    assert!(chain.tip_header().is_err());
}

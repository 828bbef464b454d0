use std::sync::Arc;

use nodecore::block_verifier::{BlockVerifierService, VerifyError};
use nodecore::miner::MinerService;
use nodecore::util::{
    Consensus, Cuckoo, CuckooEngine, IndexedBlock, IndexedTransaction, RocksDBStore, Shared, H256,
};

fn h(n: u64) -> H256 {
    H256 { w0: n, w1: 0, w2: 0, w3: 0 }
}

fn block(hash: u64, number: u64, parent: u64, work: u64) -> IndexedBlock {
    IndexedBlock {
        hash: h(hash),
        number,
        parent_hash: h(parent),
        work,
        transactions: vec![],
    }
}

fn cellbase(hash: u64) -> IndexedTransaction {
    IndexedTransaction {
        hash: h(hash),
        cellbase: true,
        inputs: vec![],
        outputs: vec![h(hash + 1000)],
        broadcast_number: 0,
    }
}

fn plain_tx(hash: u64, input: u64) -> IndexedTransaction {
    IndexedTransaction {
        hash: h(hash),
        cellbase: false,
        inputs: vec![h(input)],
        outputs: vec![h(hash + 1000)],
        broadcast_number: 0,
    }
}

fn consensus() -> Consensus {
    Consensus {
        genesis_block: block(0, 0, 9999, 1),
        initial_block_reward: 50,
        max_uncles_age: 3,
        max_uncles_len: 2,
        orphan_rate_target_numer: 1,
        orphan_rate_target_denom: 10,
        pow_time_span: 600,
        pow_spacing: 15,
        transaction_propagation_time: 2,
        transaction_propagation_timeout: 50,
    }
}

fn shared() -> Shared<RocksDBStore> {
    Shared::new(consensus(), RocksDBStore {})
}

fn pow() -> CuckooEngine {
    CuckooEngine { cuckoo: Cuckoo { max_vertex: 8, max_edge: 4, cycle_length: 6 } }
}

#[test]
fn submitted_uncle_stays_until_too_old() {
    let mut miner = MinerService::new(shared(), pow(), 2);
    miner.add_uncle(Arc::new(block(7, 1, 0, 1)));
    assert!(miner.candidate_uncles.iter().any(|u| u.hash == h(7)));

    // Still within max_uncles_age of 3 at height 4.
    miner.update_mining_number(4);
    assert!(miner.candidate_uncles.iter().any(|u| u.hash == h(7)));

    // At height 5 the uncle of height 1 trails by 4: evicted.
    miner.update_mining_number(5);
    assert!(!miner.candidate_uncles.iter().any(|u| u.hash == h(7)));
}

#[test]
fn resubmitting_an_uncle_replaces_its_slot() {
    let mut miner = MinerService::new(shared(), pow(), 2);
    miner.add_uncle(Arc::new(block(7, 1, 0, 1)));
    miner.add_uncle(Arc::new(block(8, 2, 7, 1)));
    miner.add_uncle(Arc::new(block(7, 1, 0, 9)));
    assert_eq!(miner.candidate_uncles.len(), 2);
    assert_eq!(miner.candidate_uncles[0].work, 9);
}

#[test]
fn template_takes_fresh_uncles_up_to_the_cap() {
    let mut miner = MinerService::new(shared(), pow(), 6);
    miner.add_uncle(Arc::new(block(1, 1, 0, 1)));
    miner.add_uncle(Arc::new(block(4, 4, 3, 1)));
    miner.add_uncle(Arc::new(block(5, 5, 4, 1)));
    miner.add_uncle(Arc::new(block(6, 5, 4, 2)));

    let t = miner
        .build_template(vec![plain_tx(100, 500)], vec![plain_tx(101, 501)])
        .unwrap();
    assert_eq!(t.number, 6);
    assert_eq!(t.proposals.len(), 1);
    assert_eq!(t.commits.len(), 1);
    // The height-1 uncle trails by 5 (> 3) and is excluded; the cap of
    // two keeps the first two fresh candidates in submission order.
    let uncle_ids: Vec<u64> = t.uncles.iter().map(|u| u.w0).collect();
    assert_eq!(uncle_ids, vec![4, 5]);
}

#[test]
fn stopped_miner_is_unavailable() {
    let mut miner = MinerService::new(shared(), pow(), 1);
    miner.stop();
    assert!(miner.build_template(vec![], vec![]).is_err());
    // Fire-and-forget submission is dropped silently.
    miner.add_uncle(Arc::new(block(7, 1, 0, 1)));
    assert!(miner.candidate_uncles.is_empty());
}

#[test]
fn verifier_checks_structure_pow_and_references() {
    let verifier = BlockVerifierService::new(shared(), pow());
    let cells = vec![h(500), h(501)];

    // No coinbase leads the block.
    let mut b = block(9, 1, 0, 5);
    b.transactions = vec![plain_tx(100, 500)];
    assert_eq!(verifier.verify(&b, &cells).unwrap(), Err(VerifyError::InvalidStructure));

    // A second coinbase.
    b.transactions = vec![cellbase(1), cellbase(2)];
    assert_eq!(verifier.verify(&b, &cells).unwrap(), Err(VerifyError::InvalidStructure));

    // A repeated transaction identity.
    b.transactions = vec![cellbase(1), plain_tx(100, 500), plain_tx(100, 501)];
    assert_eq!(verifier.verify(&b, &cells).unwrap(), Err(VerifyError::InvalidStructure));

    // The cuckoo stand-in rejects a block claiming no work.
    let mut no_work = block(9, 1, 0, 0);
    no_work.transactions = vec![cellbase(1)];
    assert_eq!(verifier.verify(&no_work, &cells).unwrap(), Err(VerifyError::InvalidPow));

    // An input outside the snapshot.
    b.transactions = vec![cellbase(1), plain_tx(100, 777)];
    assert_eq!(verifier.verify(&b, &cells).unwrap(), Err(VerifyError::InvalidReference));

    // A well-formed block passes.
    b.transactions = vec![cellbase(1), plain_tx(100, 500), plain_tx(101, 501)];
    assert_eq!(verifier.verify(&b, &cells).unwrap(), Ok(()));
}

#[test]
fn stopped_verifier_is_unavailable() {
    let mut verifier = BlockVerifierService::new(shared(), pow());
    verifier.stop();
    assert!(verifier.verify(&block(9, 1, 0, 5), &vec![]).is_err());
}

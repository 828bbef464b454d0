use std::sync::Arc;

use nodecore::notify::{ForkBlocks, NotifyService};
use nodecore::util::{IndexedBlock, ServiceUnavailable, H256};

fn h(n: u64) -> H256 {
    H256 { w0: n, w1: 0, w2: 0, w3: 0 }
}

fn block(hash: u64, number: u64, parent: u64, work: u64) -> IndexedBlock {
    IndexedBlock {
        hash: h(hash),
        number,
        parent_hash: h(parent),
        work,
        transactions: vec![],
    }
}

#[test]
fn test_new_transaction() {
    let mut notify = NotifyService::new();
    let receiver1 = notify.subscribe_new_transaction("miner1".to_string()).expect("join failed");
    let receiver2 = notify.subscribe_new_transaction("miner2".to_string()).expect("join failed");
    notify.notify_new_transaction();
    assert_eq!(notify.recv_new_transaction(receiver1), Some(()));
    assert_eq!(notify.recv_new_transaction(receiver2), Some(()));
    notify.stop();
}

#[test]
fn test_new_tip() {
    let tip = Arc::new(block(7, 1, 0, 10));

    let mut notify = NotifyService::new();
    let receiver1 = notify.subscribe_new_tip("miner1".to_string()).expect("join failed");
    let receiver2 = notify.subscribe_new_tip("miner2".to_string()).expect("join failed");
    notify.notify_new_tip(Arc::clone(&tip));
    assert_eq!(notify.recv_new_tip(receiver1), Some(Arc::clone(&tip)));
    assert_eq!(notify.recv_new_tip(receiver2), Some(tip));
    notify.stop();
}

#[test]
fn test_switch_fork() {
    let blks = Arc::new(ForkBlocks { detached: vec![], attached: vec![] });

    let mut notify = NotifyService::new();
    let receiver1 = notify.subscribe_switch_fork("miner1".to_string()).expect("join failed");
    let receiver2 = notify.subscribe_switch_fork("miner2".to_string()).expect("join failed");
    notify.notify_switch_fork(Arc::clone(&blks));
    assert_eq!(notify.recv_switch_fork(receiver1), Some(Arc::clone(&blks)));
    assert_eq!(notify.recv_switch_fork(receiver2), Some(blks));
    notify.stop();
}

#[test]
fn two_subscribers_receive_the_same_tip() {
    let block_x = Arc::new(block(42, 3, 41, 5));

    let mut notify = NotifyService::new();
    let a = notify.subscribe_new_tip("a".to_string()).unwrap();
    let b = notify.subscribe_new_tip("b".to_string()).unwrap();
    notify.notify_new_tip(Arc::clone(&block_x));
    let got_a = notify.recv_new_tip(a).expect("a must receive");
    let got_b = notify.recv_new_tip(b).expect("b must receive");
    assert!(Arc::ptr_eq(&got_a, &block_x));
    assert!(Arc::ptr_eq(&got_b, &block_x));
}

#[test]
fn subscribe_after_stop_is_unavailable() {
    let mut notify = NotifyService::new();
    notify.stop();
    assert_eq!(notify.subscribe_new_tip("c".to_string()), Err(ServiceUnavailable));
    assert_eq!(notify.subscribe_new_transaction("c".to_string()), Err(ServiceUnavailable));
    assert_eq!(notify.subscribe_switch_fork("c".to_string()), Err(ServiceUnavailable));
}

#[test]
fn notify_after_stop_is_a_no_op() {
    let mut notify = NotifyService::new();
    let a = notify.subscribe_new_transaction("a".to_string()).unwrap();
    notify.stop();
    notify.notify_new_transaction();
    assert_eq!(notify.recv_new_transaction(a), None);
}

#[test]
fn late_subscriber_misses_earlier_notification() {
    let mut notify = NotifyService::new();
    let early = notify.subscribe_new_transaction("early".to_string()).unwrap();
    notify.notify_new_transaction();
    let late = notify.subscribe_new_transaction("late".to_string()).unwrap();
    assert_eq!(notify.recv_new_transaction(early), Some(()));
    assert_eq!(notify.recv_new_transaction(late), None);
}

#[test]
fn full_endpoint_misses_further_payloads() {
    let mut notify = NotifyService::new();
    let a = notify.subscribe_new_transaction("a".to_string()).unwrap();
    for _ in 0..nodecore::notify::SUBSCRIBER_CAPACITY {
        notify.notify_new_transaction();
    }
    // The endpoint is full: one more notification is dropped for it.
    notify.notify_new_transaction();
    let mut received = 0;
    while notify.recv_new_transaction(a).is_some() {
        received += 1;
    }
    assert_eq!(received, nodecore::notify::SUBSCRIBER_CAPACITY);
}

#[test]
fn reregistration_replaces_the_endpoint() {
    let mut notify = NotifyService::new();
    let first = notify.subscribe_new_transaction("miner".to_string()).unwrap();
    notify.notify_new_transaction();
    let second = notify.subscribe_new_transaction("miner".to_string()).unwrap();
    assert_eq!(first, second);
    assert_eq!(notify.recv_new_transaction(second), None);
}

use zkdb::middleware::middleware::{Transaction, TransactionNode};
use zkdb::middleware::{cacheInner, BuildOption};
use zkdb::state::event::{OrderSubmit, StateEvent};
use zkdb::tree::operation::Operation;

#[test]
pub fn test_st() {}

#[test]
pub fn smt_test_st() {}

#[test]
fn transaction_log_find_returns_last_write() {
    let nodes = vec![
        TransactionNode::new(0, Operation::Put(vec![1], vec![2])),
        TransactionNode::new(1, Operation::Put(vec![5], vec![6])),
        TransactionNode::new(2, Operation::Put(vec![1], vec![3])),
        TransactionNode::new(3, Operation::Delete(vec![5])),
    ];
    let inner = cacheInner::new(Transaction(nodes));
    // The last write of [1] wins; the deletion of another key is no matter.
    assert_eq!(inner.find(vec![1]), Some(vec![3]));
}

#[test]
fn transaction_log_find_honors_tombstones() {
    let nodes = vec![
        TransactionNode::new(0, Operation::Put(vec![1], vec![2])),
        TransactionNode::new(1, Operation::Delete(vec![1])),
    ];
    let inner = cacheInner::new(Transaction(nodes));
    // A deletion recorded after the writes makes the key read as absent.
    assert_eq!(inner.find(vec![1]), None);
    let nodes2 = vec![
        TransactionNode::new(0, Operation::Delete(vec![1])),
        TransactionNode::new(1, Operation::Put(vec![1], vec![7])),
    ];
    let inner2 = cacheInner::new(Transaction(nodes2));
    // A write recorded after a deletion is readable again.
    assert_eq!(inner2.find(vec![1]), Some(vec![7]));
}

#[test]
fn transaction_log_find_absent_key() {
    let inner = cacheInner::default();
    assert_eq!(inner.find(vec![1]), None);
    let one = cacheInner::new(Transaction(vec![TransactionNode::new(
        0,
        Operation::Put(vec![2], vec![2]),
    )]));
    assert_eq!(one.find(vec![1]), None);
}

#[test]
fn build_option_holds_choices() {
    let opt = BuildOption { db_type: Some(zkdb::middleware::DBType::Merkle), db_path: None };
    assert!(opt.db_type.is_some());
    assert!(opt.db_path.is_none());
}

#[test]
fn state_events_construct() {
    let e = StateEvent::Order(OrderSubmit {});
    match e {
        StateEvent::Order(_) => {},
        _ => panic!("unexpected event"),
    }
}

use zkdb::middleware::cache::CacheMiddleware;
use zkdb::middleware::middleware::{DBMiddleware, TreeMiddleware};
use zkdb::tree::couple::{ProveRequest, VerifyRequest};
use zkdb::tree::tree::{DB, TreeDB};
use zkdb::tree::operation::Operation;
use zkdb::trie::TrieDB;

fn new_cache_stack() -> CacheMiddleware<DBMiddleware<TrieDB>> {
    let internal = TrieDB::new();
    let db_middleware: DBMiddleware<TrieDB> = DBMiddleware::new(internal);
    CacheMiddleware::new(db_middleware)
}

#[test]
pub fn test_cache_get() {
    let cache = new_cache_stack();
    let res = cache.get(vec![1, 2, 3]).expect("fail to get");
    assert_eq!(res, None)
}

#[test]
pub fn middleware_test_cache_get() {
    let cache = new_cache_stack();
    let res = cache.get(vec![1, 2, 3]).expect("fail to get");
    assert_eq!(res, None)
}

#[test]
pub fn test_set() {
    let mut cache = new_cache_stack();
    cache.set(vec![1, 2, 3], vec![4, 5, 6]).expect("fail to set");
    let ret = cache.get(vec![1, 2, 3]).expect("fail to get").unwrap();
    assert_eq!(ret, vec![4, 5, 6])
}

#[test]
pub fn middleware_test_set() {
    let mut cache = new_cache_stack();
    cache.set(vec![1, 2, 3], vec![4, 5, 6]).expect("fail to set");
    let ret = cache.get(vec![1, 2, 3]).expect("fail to get").unwrap();
    assert_eq!(ret, vec![4, 5, 6])
}

#[test]
pub fn test_commit() {
    let mut cache = new_cache_stack();
    cache.set(vec![4, 5, 6], vec![1, 1, 1]).expect("fail to set ");
    cache.set(vec![1, 2, 3], vec![4, 5, 6]).expect("fail to set");

    cache.commit(vec![]).expect("fail to commit");
}

#[test]
pub fn middleware_test_commit() {
    let mut cache = new_cache_stack();
    cache.set(vec![4, 5, 6], vec![1, 1, 1]).expect("fail to set ");
    cache.set(vec![1, 2, 3], vec![4, 5, 6]).expect("fail to set");

    cache.commit(vec![]).expect("fail to commit");
}

#[test]
pub fn test_prove_verify() {
    let mut mid = new_cache_stack();
    mid.set(vec![1, 2, 3], vec![4, 5, 6]).expect("fail to set");
    mid.commit(vec![]).expect("fail to commit");
    let mut req = ProveRequest::default();
    req.insert(vec![1, 2, 3]);
    let root_hash = mid.root_hash();
    let prove = mid.prove(req).expect("fail to get prove");
    println!("{:?}", root_hash);
    let mut v_req = VerifyRequest::new(prove.proof, root_hash);
    v_req.insert(vec![1, 2, 3], vec![4, 5, 6]);
    let verify_resp = mid.verify(v_req).expect("fail to verify");
    assert_eq!(verify_resp.valid, true)
}

// In this variant nothing is committed before proving: the proof covers the
// (empty) committed state, the buffered write stays invisible to it, and the
// unproven assertion is not enforced.
#[test]
pub fn middleware_test_prove_verify() {
    let mut mid = new_cache_stack();
    mid.set(vec![1, 2, 3], vec![4, 5, 6]).expect("fail to set");
    let mut req = ProveRequest::default();
    req.insert(vec![1, 2, 3]);
    let root_hash = mid.root_hash();
    let prove = mid.prove(req).expect("fail to get prove");
    println!("{:?}", root_hash);
    let mut v_req = VerifyRequest::new(prove.proof, root_hash);
    v_req.insert(vec![1, 2, 3], vec![4, 5, 6]);
    let verify_resp = mid.verify(v_req).expect("fail to verify");
    assert_eq!(verify_resp.valid, true)
}

#[test]
pub fn test_builder() {}

#[test]
pub fn test_set_echoes_key() {
    let mut cache = new_cache_stack();
    let echoed = cache.set(vec![7, 8], vec![9]).expect("fail to set");
    assert_eq!(echoed, vec![7, 8]);
}

#[test]
pub fn test_tombstone_hides_committed_value() {
    let mut cache = new_cache_stack();
    cache.set(vec![1], vec![10]).expect("fail to set");
    cache.commit(vec![]).expect("fail to commit");
    assert_eq!(cache.get(vec![1]).expect("fail to get"), Some(vec![10]));
    cache.delete(vec![1]).expect("fail to delete");
    assert_eq!(cache.get(vec![1]).expect("fail to get"), None);
    cache.clean().expect("fail to clean");
    assert_eq!(cache.get(vec![1]).expect("fail to get"), Some(vec![10]));
}

#[test]
pub fn test_last_write_wins() {
    let mut cache = new_cache_stack();
    cache.set(vec![1], vec![1]).expect("fail to set");
    cache.set(vec![1], vec![2]).expect("fail to set");
    assert_eq!(cache.get(vec![1]).expect("fail to get"), Some(vec![2]));
}

#[test]
pub fn test_commit_drains_buffer() {
    let mut cache = new_cache_stack();
    cache.set(vec![1], vec![1]).expect("fail to set");
    cache.commit(vec![]).expect("fail to commit");
    // The key was not touched since the commit: the read falls through to
    // the inner layer, which now holds it durably.
    assert_eq!(cache.get(vec![1]).expect("fail to get"), Some(vec![1]));
    // A rollback after the commit discards nothing durable.
    cache.clean().expect("fail to clean");
    assert_eq!(cache.get(vec![1]).expect("fail to get"), Some(vec![1]));
}

#[test]
pub fn test_commit_appends_extra_operations_after_buffer() {
    let mut cache = new_cache_stack();
    cache.set(vec![1], vec![1]).expect("fail to set");
    // The caller-supplied batch comes after the drained buffer, so its write
    // to the same key wins.
    cache.commit(vec![Operation::Put(vec![1], vec![2])]).expect("fail to commit");
    assert_eq!(cache.get(vec![1]).expect("fail to get"), Some(vec![2]));
}

#[test]
pub fn test_rollback_discards_all_intents() {
    let mut cache = new_cache_stack();
    cache.set(vec![1], vec![1]).expect("fail to set");
    cache.set(vec![2], vec![2]).expect("fail to set");
    cache.delete(vec![3]).expect("fail to delete");
    cache.clean().expect("fail to clean");
    assert_eq!(cache.get(vec![1]).expect("fail to get"), None);
    assert_eq!(cache.get(vec![2]).expect("fail to get"), None);
    assert_eq!(cache.get(vec![3]).expect("fail to get"), None);
}

#[test]
pub fn test_root_stable_under_buffering() {
    let mut cache = new_cache_stack();
    let before = cache.root_hash();
    cache.set(vec![1, 2, 3], vec![4, 5, 6]).expect("fail to set");
    cache.delete(vec![9]).expect("fail to delete");
    assert_eq!(cache.root_hash(), before);
    cache.commit(vec![]).expect("fail to commit");
    assert_ne!(cache.root_hash(), before);
}

#[test]
pub fn test_terminal_clean_is_noop() {
    let mut db = DBMiddleware::new(TrieDB::new());
    db.set(vec![1], vec![2]).expect("fail to set");
    db.clean().expect("fail to clean");
    assert_eq!(db.get(vec![1]).expect("fail to get"), Some(vec![2]));
}

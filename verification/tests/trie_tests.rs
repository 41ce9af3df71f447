use zkdb::tree::couple::{ProveRequest, VerifyRequest};
use zkdb::tree::operation::Operation;
use zkdb::tree::smt::KeccakHasher;
use zkdb::tree::tree::{DB, TreeDB};
use zkdb::trie::TrieDB;

fn hex_to_bytes(s: &str) -> Vec<u8> {
    let chars: Vec<u8> = s.bytes().collect();
    let mut out = Vec::new();
    let nibble = |c: u8| -> u8 {
        match c {
            b'0'..=b'9' => c - b'0',
            b'a'..=b'f' => c - b'a' + 10,
            _ => panic!("not a hex digit"),
        }
    };
    let mut i = 0;
    while i < chars.len() {
        out.push(nibble(chars[i]) * 16 + nibble(chars[i + 1]));
        i += 2;
    }
    out
}

#[test]
fn keccak_empty_input() {
    let out = KeccakHasher::hash(b"");
    assert_eq!(
        out.to_vec(),
        hex_to_bytes("c5d2460186f7233c927e7db2dcc703c0e500b653ca82273b7bfad8045d85a470")
    );
}

#[test]
fn keccak_abc() {
    let out = KeccakHasher::hash(b"abc");
    assert_eq!(
        out.to_vec(),
        hex_to_bytes("4e03657aea45a94fc7d47ba826c8d667c0d1e6e33a64a036ec44f58fa12d6c45")
    );
}

#[test]
fn trie_get_set_delete() {
    let mut t = TrieDB::new();
    assert_eq!(t.get(vec![1]).unwrap(), None);
    assert_eq!(t.set(vec![1], vec![2]).unwrap(), vec![1]);
    assert_eq!(t.get(vec![1]).unwrap(), Some(vec![2]));
    t.set(vec![1], vec![3]).unwrap();
    assert_eq!(t.get(vec![1]).unwrap(), Some(vec![3]));
    t.delete(vec![1]).unwrap();
    assert_eq!(t.get(vec![1]).unwrap(), None);
    // deleting an unbound key is harmless
    t.delete(vec![9]).unwrap();
    assert_eq!(t.get(vec![9]).unwrap(), None);
}

#[test]
fn trie_commit_applies_batch_in_order() {
    let mut t = TrieDB::new();
    t.commit(vec![
        Operation::Put(vec![1], vec![1]),
        Operation::Put(vec![2], vec![2]),
        Operation::Put(vec![1], vec![7]),
        Operation::Delete(vec![2]),
    ])
    .unwrap();
    assert_eq!(t.get(vec![1]).unwrap(), Some(vec![7]));
    assert_eq!(t.get(vec![2]).unwrap(), None);
}

#[test]
fn trie_root_tracks_committed_state() {
    let mut t = TrieDB::new();
    let empty_root = t.root_hash();
    t.set(vec![1], vec![2]).unwrap();
    let one_root = t.root_hash();
    assert_ne!(one_root, empty_root);
    t.delete(vec![1]).unwrap();
    assert_eq!(t.root_hash(), empty_root);
}

#[test]
fn prove_verify_roundtrip() {
    let mut t = TrieDB::new();
    t.set(vec![1, 2, 3], vec![4, 5, 6]).unwrap();
    let root = t.root_hash();
    let mut req = ProveRequest::default();
    req.insert(vec![1, 2, 3]);
    let proof = t.prove(req).unwrap();
    let mut v_req = VerifyRequest::new(proof.proof, root);
    v_req.insert(vec![1, 2, 3], vec![4, 5, 6]);
    let resp = t.verify(v_req).unwrap();
    assert!(resp.valid);
}

#[test]
fn tamper_detected() {
    let mut t = TrieDB::new();
    t.set(vec![1, 2, 3], vec![4, 5, 6]).unwrap();
    let root = t.root_hash();
    let mut req = ProveRequest::default();
    req.insert(vec![1, 2, 3]);
    let proof = t.prove(req).unwrap();
    let mut v_req = VerifyRequest::new(proof.proof, root);
    v_req.insert(vec![1, 2, 3], vec![9, 9, 9]);
    let resp = t.verify(v_req).unwrap();
    assert!(!resp.valid);
}

#[test]
fn verify_wrong_root_is_an_error() {
    let mut t = TrieDB::new();
    t.set(vec![1], vec![2]).unwrap();
    let mut req = ProveRequest::default();
    req.insert(vec![1]);
    let proof = t.prove(req).unwrap();
    let wrong_root = [0xabu8; 32];
    let mut v_req = VerifyRequest::new(proof.proof, wrong_root);
    v_req.insert(vec![1], vec![2]);
    let err = t.verify(v_req).unwrap_err();
    assert_eq!(err.get_code(), 1);
}

#[test]
fn verify_malformed_proof_is_an_error() {
    let t = TrieDB::new();
    // Three stray bytes cannot be a canonical encoding, even though the
    // expected root matches their digest.
    let bytes = vec![1u8, 2, 3];
    let root = KeccakHasher::hash(&bytes);
    let v_req = VerifyRequest::new(bytes, root);
    let err = t.verify(v_req).unwrap_err();
    assert_eq!(err.get_code(), 1);
}

#[test]
fn verify_unproven_assertion_is_not_enforced() {
    let mut t = TrieDB::new();
    t.set(vec![1], vec![2]).unwrap();
    let root = t.root_hash();
    let proof = t.prove(ProveRequest::default()).unwrap();
    let mut v_req = VerifyRequest::new(proof.proof, root);
    // The store holds [1]; asserting an unbound key is lenient.
    v_req.insert(vec![250], vec![0]);
    let resp = t.verify(v_req).unwrap();
    assert!(resp.valid);
}

#[test]
fn verify_assertion_replaced_by_later_insert() {
    let mut t = TrieDB::new();
    t.set(vec![1], vec![2]).unwrap();
    let root = t.root_hash();
    let proof = t.prove(ProveRequest::default()).unwrap();
    let mut v_req = VerifyRequest::new(proof.proof.clone(), root);
    v_req.insert(vec![1], vec![9]);
    v_req.insert(vec![1], vec![2]);
    // The later assertion replaced the earlier one.
    assert!(t.verify(v_req).unwrap().valid);
    let mut v_req2 = VerifyRequest::new(proof.proof, root);
    v_req2.insert(vec![1], vec![2]);
    v_req2.insert(vec![1], vec![9]);
    assert!(!t.verify(v_req2).unwrap().valid);
}

#[test]
fn prove_accepts_duplicate_and_unsorted_keys() {
    let mut t = TrieDB::new();
    t.set(vec![2], vec![2]).unwrap();
    t.set(vec![1], vec![1]).unwrap();
    let mut req = ProveRequest::default();
    req.insert(vec![2]);
    req.insert(vec![1]);
    req.insert(vec![2]);
    let root = t.root_hash();
    let proof = t.prove(req).unwrap();
    let mut v_req = VerifyRequest::new(proof.proof, root);
    v_req.insert(vec![1], vec![1]);
    v_req.insert(vec![2], vec![2]);
    assert!(t.verify(v_req).unwrap().valid);
}

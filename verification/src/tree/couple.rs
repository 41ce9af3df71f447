//! The request/response pairs of the prove/verify protocol.

use vstd::prelude::*;
use crate::order::{kv_sorted, kv_map, kv_insert};

verus! {

/// A request for a membership proof: the keys to prove, in the order given,
/// duplicates permitted.
#[derive(Debug)]
pub struct ProveRequest {
    pub query: Vec<Vec<u8>>,
}

impl Default for ProveRequest {
    /// An empty request.
    fn default() -> (r: Self)
        ensures
            r.query@.len() == 0,
    {
        ProveRequest { query: Vec::new() }
    }
}

impl ProveRequest {
    /// Appends one key to the request.
    pub fn insert(&mut self, k: Vec<u8>)
        ensures
            final(self).query@ == old(self).query@.push(k),
    {
        self.query.push(k)
    }
}

/// A membership proof: an opaque byte blob checked by `verify`.
#[derive(Debug)]
pub struct ProveResponse {
    pub proof: Vec<u8>,
}

/// A request to check a proof against an expected root digest, together with
/// key-to-value assertions. At most one assertion is held per key: a later
/// `insert` for the same key replaces the earlier one.
#[derive(Debug)]
pub struct VerifyRequest {
    pub proof: Vec<u8>,
    pub expected_root: [u8; 32],
    pub kv: Vec<(Vec<u8>, Vec<u8>)>,
}

impl VerifyRequest {
    /// The assertions, in the key order in which they are checked.
    pub open spec fn kv_seq(&self) -> Seq<(Vec<u8>, Vec<u8>)> {
        self.kv@
    }

    /// The assertion mapping this request carries.
    pub open spec fn assertions(&self) -> Map<Seq<u8>, Vec<u8>> {
        kv_map(self.kv_seq())
    }

    /// The assertion list is kept strictly sorted by key.
    pub open spec fn wf(&self) -> bool {
        kv_sorted(self.kv_seq())
    }

    /// A request holding the proof and expected root, with no assertions yet.
    pub fn new(proof: Vec<u8>, expected_root: [u8; 32]) -> (r: Self)
        ensures
            r.wf(),
            r.proof@ == proof@,
            r.expected_root@ == expected_root@,
            r.kv_seq().len() == 0,
    {
        VerifyRequest { proof, expected_root, kv: Vec::new() }
    }

    /// Adds the assertion that `k` is bound to `v`, replacing any earlier
    /// assertion for `k`.
    pub fn insert(&mut self, k: Vec<u8>, v: Vec<u8>)
        requires
            old(self).wf(),
        ensures
            final(self).wf(),
            final(self).assertions() == old(self).assertions().insert(k@, v),
            final(self).proof@ == old(self).proof@,
            final(self).expected_root@ == old(self).expected_root@,
    {
        kv_insert(&mut self.kv, k, v);
    }
}

/// The outcome of checking a proof: whether every assertion is consistent
/// with the key-value view the proof reconstructs.
#[derive(Debug)]
pub struct VerifyResponse {
    pub valid: bool,
}

impl Default for VerifyResponse {
    /// A response reporting failure.
    fn default() -> (r: Self)
        ensures
            !r.valid,
    {
        VerifyResponse { valid: false }
    }
}

} // verus!

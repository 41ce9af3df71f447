//! The capability contract every storage layer implements: plain reads and
//! writes (`DB`), extended with the prove/commit/verify protocol (`TreeDB`).

use vstd::prelude::*;
use crate::error::ZKResult;
use crate::tree::couple::{ProveRequest, ProveResponse, VerifyRequest, VerifyResponse};
use crate::tree::operation::{Operation, apply_ops};

verus! {

/// Whether the optional value `v` is what the mapping `m` holds at key `k`:
/// `Some` of the bound value when `k` is bound, `None` when it is not.
pub open spec fn opt_value_matches(
    v: Option<Vec<u8>>,
    m: Map<Seq<u8>, Seq<u8>>,
    k: Seq<u8>,
) -> bool {
    match v {
        Some(val) => m.contains_key(k) && m[k] == val@,
        None => !m.contains_key(k),
    }
}

/// The plain key-value capability. A layer observably holds a mapping from
/// keys to values (`db_view`); reads report it and writes update it. Any
/// method may fail with a storage error; a failed read promises nothing, and
/// a write only reports success when the observable mapping was updated.
pub trait DB: Sized {
    /// The well-formedness this layer maintains across calls.
    spec fn wf(&self) -> bool;

    /// The key-value mapping this layer observably holds.
    spec fn db_view(&self) -> Map<Seq<u8>, Seq<u8>>;

    /// Reads the value bound to `k`, or reports that `k` is unbound.
    fn get(&self, k: Vec<u8>) -> (r: ZKResult<Option<Vec<u8>>>)
        requires
            self.wf(),
        ensures
            r matches Ok(v) ==> opt_value_matches(v, self.db_view(), k@),
    ;

    /// Binds `v` to `k`, echoing the key back on success to support
    /// pipelining.
    fn set(&mut self, k: Vec<u8>, v: Vec<u8>) -> (r: ZKResult<Vec<u8>>)
        requires
            old(self).wf(),
        ensures
            final(self).wf(),
            r matches Ok(key) ==> key@ == k@ && final(self).db_view() == old(
                self,
            ).db_view().insert(k@, v@),
    ;

    /// Unbinds `k`.
    fn delete(&mut self, k: Vec<u8>) -> (r: ZKResult<()>)
        requires
            old(self).wf(),
        ensures
            final(self).wf(),
            r is Ok ==> final(self).db_view() == old(self).db_view().remove(k@),
    ;
}

/// The capability of a layer backed by a content-addressed store: besides
/// reads and writes it commits batches, exposes the root digest of its
/// committed state, and generates and checks membership proofs against such
/// a digest. The proof format belongs to the backing engine; the contract
/// here only fixes what `commit` and `root_hash` observably do.
pub trait TreeDB: DB {
    /// The durable committed mapping that proofs and the root digest attest
    /// to. Buffering layers may observably hold more than is committed.
    spec fn committed(&self) -> Map<Seq<u8>, Seq<u8>>;

    /// The root digest of the committed state, as a byte-sequence value.
    spec fn root_view(&self) -> Seq<u8>;

    /// The proof bytes a successful `prove` of `req` hands back.
    spec fn prove_bytes(&self, req: ProveRequest) -> Seq<u8>;

    /// Whether this layer's proof check accepts `req` at all: the proof is
    /// well formed and corresponds to the expected root.
    spec fn verify_ok(&self, req: VerifyRequest) -> bool;

    /// The validity flag a successful check of `req` reports.
    spec fn verify_valid(&self, req: VerifyRequest) -> bool;

    /// Builds a membership proof covering the requested keys against the
    /// current committed state.
    fn prove(&self, req: ProveRequest) -> (r: ZKResult<ProveResponse>)
        requires
            self.wf(),
        ensures
            r matches Ok(resp) ==> resp.proof@ == self.prove_bytes(req),
    ;

    /// Checks a proof against an expected root digest and the request's
    /// assertions.
    fn verify(&self, req: VerifyRequest) -> (r: ZKResult<VerifyResponse>)
        requires
            self.wf(),
            req.wf(),
        ensures
            r matches Ok(resp) ==> self.verify_ok(req) && resp.valid == self.verify_valid(req),
    ;

    /// Applies a batch of operations, first to last, and makes the result
    /// durable. On success the observable mapping was updated by the whole
    /// batch and nothing beyond it is buffered; on failure nothing is
    /// reported as applied.
    fn commit(&mut self, operations: Vec<Operation>) -> (r: ZKResult<()>)
        requires
            old(self).wf(),
        ensures
            final(self).wf(),
            r is Ok ==> final(self).db_view() == apply_ops(old(self).db_view(), operations@)
                && final(self).committed() == final(self).db_view(),
    ;

    /// Returns the root digest of the committed state.
    fn root_hash(&self) -> (h: [u8; 32])
        requires
            self.wf(),
        ensures
            h@ == self.root_view(),
    ;
}

} // verus!

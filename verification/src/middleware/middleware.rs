//! The middleware composition point: the capability every decorator layer
//! offers, and the terminal pass-through decorator that adapts a backing
//! `TreeDB` into the chain.

use vstd::prelude::*;
use crate::error::ZKResult;
use crate::tree::couple::{ProveRequest, ProveResponse, VerifyRequest, VerifyResponse};
use crate::tree::operation::Operation;
use crate::tree::tree::{DB, TreeDB};

verus! {

/// A middleware layer: a `TreeDB` that can also discard whatever it has
/// buffered and not yet committed. Discarding touches neither the committed
/// state nor the root digest that attests to it.
pub trait TreeMiddleware: TreeDB {
    /// Discards all uncommitted intents this layer holds.
    fn clean(&mut self) -> (r: ZKResult<()>)
        requires
            old(self).wf(),
        ensures
            final(self).wf(),
            r is Ok ==> final(self).committed() == old(self).committed()
                && final(self).root_view() == old(self).root_view(),
    ;
}

/// The kinds of backing store a stack can be built over.
pub enum DBType {
    Merkle,
}

/// One buffered mutation, stamped with the version at which it was recorded.
pub struct TransactionNode {
    pub version: u64,
    pub op: Operation,
}

impl TransactionNode {
    /// The version stamp of this node.
    pub open spec fn spec_version(&self) -> u64 {
        self.version
    }

    /// The mutation this node records.
    pub open spec fn spec_op(&self) -> Operation {
        self.op
    }

    pub fn new(version: u64, op: Operation) -> (n: Self)
        ensures
            n.spec_version() == version,
            n.spec_op() == op,
    {
        Self { version, op }
    }
}

/// An ordered log of buffered mutations.
pub struct Transaction(pub Vec<TransactionNode>);

impl Default for Transaction {
    /// An empty log.
    fn default() -> (r: Self)
        ensures
            r.0@.len() == 0,
    {
        Self(Vec::new())
    }
}

/// The terminal decorator: a one-to-one forwarding wrapper that gives the
/// decorator chain a concrete, non-recursive base. It adds no behavior of
/// its own.
pub struct DBMiddleware<D> {
    db: D,
}

impl<D: TreeDB> DBMiddleware<D> {
    /// The wrapped backing store.
    pub closed spec fn spec_db(&self) -> D {
        self.db
    }

    pub fn new(db: D) -> (r: Self)
        requires
            db.wf(),
        ensures
            r.wf(),
            r.spec_db() == db,
            r.db_view() == db.db_view(),
            r.committed() == db.committed(),
            r.root_view() == db.root_view(),
    {
        Self { db }
    }

    /// A well-formed pass-through wraps a well-formed store.
    pub proof fn lemma_wf_db(&self)
        requires
            self.wf(),
        ensures
            self.spec_db().wf(),
    {
    }
}

impl<D: TreeDB> DB for DBMiddleware<D> {
    /// Exactly as well-formed as the store it wraps.
    closed spec fn wf(&self) -> bool {
        self.db.wf()
    }

    closed spec fn db_view(&self) -> Map<Seq<u8>, Seq<u8>> {
        self.db.db_view()
    }

    fn get(&self, k: Vec<u8>) -> (r: ZKResult<Option<Vec<u8>>>) {
        self.db.get(k)
    }

    fn set(&mut self, k: Vec<u8>, v: Vec<u8>) -> (r: ZKResult<Vec<u8>>) {
        self.db.set(k, v)
    }

    fn delete(&mut self, k: Vec<u8>) -> (r: ZKResult<()>) {
        self.db.delete(k)
    }
}

impl<D: TreeDB> TreeDB for DBMiddleware<D> {
    open spec fn committed(&self) -> Map<Seq<u8>, Seq<u8>> {
        self.spec_db().committed()
    }

    open spec fn root_view(&self) -> Seq<u8> {
        self.spec_db().root_view()
    }

    open spec fn prove_bytes(&self, req: ProveRequest) -> Seq<u8> {
        self.spec_db().prove_bytes(req)
    }

    open spec fn verify_ok(&self, req: VerifyRequest) -> bool {
        self.spec_db().verify_ok(req)
    }

    open spec fn verify_valid(&self, req: VerifyRequest) -> bool {
        self.spec_db().verify_valid(req)
    }

    fn prove(&self, req: ProveRequest) -> (r: ZKResult<ProveResponse>) {
        self.db.prove(req)
    }

    fn verify(&self, req: VerifyRequest) -> (r: ZKResult<VerifyResponse>) {
        self.db.verify(req)
    }

    fn commit(&mut self, operations: Vec<Operation>) -> (r: ZKResult<()>) {
        self.db.commit(operations)
    }

    fn root_hash(&self) -> (h: [u8; 32]) {
        self.db.root_hash()
    }
}

impl<D: TreeDB> TreeMiddleware for DBMiddleware<D> {
    /// The terminal layer buffers nothing: discarding is a no-op that always
    /// succeeds.
    fn clean(&mut self) -> (r: ZKResult<()>)
        ensures
            r is Ok,
            *final(self) == *old(self),
    {
        Ok(())
    }
}

} // verus!

//! The write-buffering cache middleware.
//!
//! Writes and deletes are buffered in memory, sorted by key; reads check the
//! buffer first and otherwise fall through to the inner layer. `commit`
//! drains the buffer in key order, appends the caller's batch, and forwards
//! the whole to the inner layer; `clean` discards the buffer. Proofs, proof
//! checks and the root digest are forwarded untouched: they reflect
//! committed state only, never buffered intents.

use vstd::prelude::*;
use crate::error::ZKResult;
use crate::middleware::middleware::TreeMiddleware;
use crate::order::{
    kv_find, kv_insert, kv_map, kv_sorted, lemma_kv_map_at, lemma_kv_map_snoc,
    lemma_kv_sorted_distinct, lemma_opt_values_insert, opt_values,
};
use crate::tree::couple::{ProveRequest, ProveResponse, VerifyRequest, VerifyResponse};
use crate::tree::operation::{apply_ops, lemma_apply_ops_concat, Operation};
use crate::tree::tree::{DB, TreeDB};

verus! {

/// The mapping observed through a write buffer: a buffered value wins, a
/// buffered tombstone hides the key, and otherwise the base shows through.
pub open spec fn overlay(buf: Map<Seq<u8>, Option<Seq<u8>>>, base: Map<Seq<u8>, Seq<u8>>) -> Map<
    Seq<u8>,
    Seq<u8>,
> {
    Map::new(
        |k: Seq<u8>|
            if buf.contains_key(k) {
                buf[k] is Some
            } else {
                base.contains_key(k)
            },
        |k: Seq<u8>|
            if buf.contains_key(k) && buf[k] is Some {
                buf[k]->Some_0
            } else {
                base[k]
            },
    )
}

/// An empty buffer is invisible: reads observe the base exactly. This is
/// what a cache guarantees right after `commit` or `clean`: the discarded or
/// drained intents no longer affect any read.
pub proof fn lemma_overlay_empty(base: Map<Seq<u8>, Seq<u8>>)
    ensures
        overlay(Map::<Seq<u8>, Option<Seq<u8>>>::empty(), base) == base,
{
    assert(overlay(Map::<Seq<u8>, Option<Seq<u8>>>::empty(), base) =~= base);
}

/// Read-your-writes: buffering a value for `k` makes exactly that value
/// observable at `k`, whatever was buffered or committed before.
pub proof fn lemma_read_your_writes(
    buf: Map<Seq<u8>, Option<Seq<u8>>>,
    base: Map<Seq<u8>, Seq<u8>>,
    k: Seq<u8>,
    v: Seq<u8>,
)
    ensures
        overlay(buf.insert(k, Some(v)), base).contains_key(k),
        overlay(buf.insert(k, Some(v)), base)[k] == v,
        overlay(buf.insert(k, Some(v)), base) == overlay(buf, base).insert(k, v),
{
    assert(overlay(buf.insert(k, Some(v)), base) =~= overlay(buf, base).insert(k, v));
}

/// Tombstone visibility: buffering a deletion of `k` hides `k` from reads,
/// whatever was buffered or committed before.
pub proof fn lemma_tombstone_hides(
    buf: Map<Seq<u8>, Option<Seq<u8>>>,
    base: Map<Seq<u8>, Seq<u8>>,
    k: Seq<u8>,
)
    ensures
        !overlay(buf.insert(k, None), base).contains_key(k),
        overlay(buf.insert(k, None), base) == overlay(buf, base).remove(k),
{
    assert(overlay(buf.insert(k, None), base) =~= overlay(buf, base).remove(k));
}

/// Last-write-wins: of two buffered writes to `k`, reads observe the later.
pub proof fn lemma_last_write_wins(
    buf: Map<Seq<u8>, Option<Seq<u8>>>,
    base: Map<Seq<u8>, Seq<u8>>,
    k: Seq<u8>,
    v1: Seq<u8>,
    v2: Seq<u8>,
)
    ensures
        overlay(buf.insert(k, Some(v1)).insert(k, Some(v2)), base).contains_key(k),
        overlay(buf.insert(k, Some(v1)).insert(k, Some(v2)), base)[k] == v2,
{
    lemma_read_your_writes(buf.insert(k, Some(v1)), base, k, v2);
}

/// The write-buffer decorator over an inner middleware layer.
pub struct CacheMiddleware<M> where M: TreeMiddleware {
    map: Vec<(Vec<u8>, Option<Vec<u8>>)>,
    inner: M,
}

impl<M: TreeMiddleware> CacheMiddleware<M> {
    /// The buffered intents: a pending value, or `None` for a tombstone.
    pub closed spec fn buffer(&self) -> Map<Seq<u8>, Option<Seq<u8>>> {
        opt_values(kv_map(self.map@))
    }

    /// The wrapped inner layer.
    pub closed spec fn spec_inner(&self) -> M {
        self.inner
    }

    /// A cache over `mid`, with an empty buffer.
    pub fn new(mid: M) -> (c: CacheMiddleware<M>)
        requires
            mid.wf(),
        ensures
            c.wf(),
            c.buffer() == Map::<Seq<u8>, Option<Seq<u8>>>::empty(),
            c.spec_inner() == mid,
            c.db_view() == mid.db_view(),
            c.committed() == mid.committed(),
            c.root_view() == mid.root_view(),
    {
        let c = CacheMiddleware { map: Vec::new(), inner: mid };
        proof {
            assert(c.buffer() =~= Map::<Seq<u8>, Option<Seq<u8>>>::empty());
            lemma_overlay_empty(c.spec_inner().db_view());
        }
        c
    }

    /// The wrapped inner layer.
    pub fn inner(&self) -> (r: &M)
        ensures
            *r == self.spec_inner(),
    {
        &self.inner
    }

    /// A well-formed cache wraps a well-formed inner layer.
    pub proof fn lemma_wf_inner(&self)
        requires
            self.wf(),
        ensures
            self.spec_inner().wf(),
    {
    }

    /// What a cache observes is its buffer overlaid on the inner layer's
    /// view: a buffered value is read back, a buffered tombstone makes the
    /// key absent, and an unbuffered key shows the inner layer through.
    pub proof fn lemma_view_is_overlay(&self)
        ensures
            self.db_view() == overlay(self.buffer(), self.spec_inner().db_view()),
    {
    }
}

impl<M: TreeMiddleware> DB for CacheMiddleware<M> {
    /// The buffer is sorted by key and the inner layer is well-formed.
    closed spec fn wf(&self) -> bool {
        kv_sorted(self.map@) && self.inner.wf()
    }

    closed spec fn db_view(&self) -> Map<Seq<u8>, Seq<u8>> {
        overlay(self.buffer(), self.inner.db_view())
    }

    /// Buffered keys are answered from the buffer and never fail; only a
    /// fall-through to the inner layer can fail.
    fn get(&self, k: Vec<u8>) -> (r: ZKResult<Option<Vec<u8>>>)
        ensures
            self.buffer().contains_key(k@) ==> r is Ok,
    {
        proof {
            lemma_kv_sorted_distinct(self.map@);
        }
        let found = kv_find(&self.map, &k);
        match found {
            Some(i) => {
                proof {
                    lemma_kv_map_at(self.map@, i as int);
                }
                match &self.map[i].1 {
                    Some(value) => Ok(Some(value.clone())),
                    None => Ok(None),
                }
            },
            None => self.inner.get(k),
        }
    }

    /// Records the value in the buffer, replacing any pending intent for the
    /// key. Never fails, touches neither the inner layer nor the root.
    fn set(&mut self, k: Vec<u8>, v: Vec<u8>) -> (r: ZKResult<Vec<u8>>)
        ensures
            r is Ok,
            final(self).buffer() == old(self).buffer().insert(k@, Some(v@)),
            final(self).spec_inner() == old(self).spec_inner(),
            final(self).committed() == old(self).committed(),
            final(self).root_view() == old(self).root_view(),
    {
        let ret = k.clone();
        let ghost gk: Seq<u8> = k@;
        let ghost gv = v;
        let ghost m0 = kv_map(old(self).map@);
        kv_insert(&mut self.map, k, Some(v));
        proof {
            lemma_opt_values_insert(m0, gk, Some(gv));
            lemma_read_your_writes(
                old(self).buffer(),
                old(self).spec_inner().db_view(),
                gk,
                gv@,
            );
        }
        Ok(ret)
    }

    /// Records a tombstone in the buffer, replacing any pending intent for
    /// the key. Never fails, touches neither the inner layer nor the root.
    fn delete(&mut self, k: Vec<u8>) -> (r: ZKResult<()>)
        ensures
            r is Ok,
            final(self).buffer() == old(self).buffer().insert(k@, None),
            final(self).spec_inner() == old(self).spec_inner(),
            final(self).committed() == old(self).committed(),
            final(self).root_view() == old(self).root_view(),
    {
        let ghost gk: Seq<u8> = k@;
        let ghost m0 = kv_map(old(self).map@);
        kv_insert(&mut self.map, k, None);
        proof {
            lemma_opt_values_insert(m0, gk, None);
            lemma_tombstone_hides(old(self).buffer(), old(self).spec_inner().db_view(), gk);
        }
        Ok(())
    }
}

impl<M: TreeMiddleware> TreeDB for CacheMiddleware<M> {
    /// Only the inner layer's state is committed: the buffer never is.
    open spec fn committed(&self) -> Map<Seq<u8>, Seq<u8>> {
        self.spec_inner().committed()
    }

    /// The root attests to committed state only: buffered intents do not
    /// move it.
    open spec fn root_view(&self) -> Seq<u8> {
        self.spec_inner().root_view()
    }

    /// Forwarded: proofs are the inner layer's proofs.
    open spec fn prove_bytes(&self, req: ProveRequest) -> Seq<u8> {
        self.spec_inner().prove_bytes(req)
    }

    /// Forwarded: a check is the inner layer's check.
    open spec fn verify_ok(&self, req: VerifyRequest) -> bool {
        self.spec_inner().verify_ok(req)
    }

    /// Forwarded: validity is the inner layer's verdict.
    open spec fn verify_valid(&self, req: VerifyRequest) -> bool {
        self.spec_inner().verify_valid(req)
    }

    /// Forwarded untouched: a proof covers committed state, not buffered
    /// intents.
    fn prove(&self, req: ProveRequest) -> (r: ZKResult<ProveResponse>) {
        self.inner.prove(req)
    }

    /// Forwarded untouched.
    fn verify(&self, req: VerifyRequest) -> (r: ZKResult<VerifyResponse>) {
        self.inner.verify(req)
    }

    /// Drains the buffer in key order into a batch, appends the caller's
    /// operations after it, and forwards the whole to the inner layer. On
    /// success the buffer is empty; on failure the buffer is kept intact, so
    /// no buffered intent is silently lost.
    fn commit(&mut self, operations: Vec<Operation>) -> (r: ZKResult<()>)
        ensures
            r is Ok ==> final(self).buffer() == Map::<Seq<u8>, Option<Seq<u8>>>::empty(),
            r is Err ==> final(self).buffer() == old(self).buffer() && final(self).spec_inner().wf(),
    {
        let ghost base0 = old(self).spec_inner().db_view();
        let ghost gops = operations@;
        let n = self.map.len();
        let mut ops: Vec<Operation> = Vec::new();
        let mut i: usize = 0;
        proof {
            assert(self.map@.take(0) =~= Seq::<(Vec<u8>, Option<Vec<u8>>)>::empty());
            assert(opt_values(kv_map(self.map@.take(0))) =~= Map::<
                Seq<u8>,
                Option<Seq<u8>>,
            >::empty());
            lemma_overlay_empty(base0);
        }
        while i < n
            invariant
                *self == *old(self),
                old(self).wf(),
                n == self.map@.len(),
                i <= n,
                base0 == old(self).spec_inner().db_view(),
                apply_ops(base0, ops@) == overlay(
                    opt_values(kv_map(self.map@.take(i as int))),
                    base0,
                ),
            decreases n - i,
        {
            let ghost prev_ops = ops@;
            let ghost taken = self.map@.take(i as int);
            let key = self.map[i].0.clone();
            match &self.map[i].1 {
                Some(v) => {
                    let vc = v.clone();
                    ops.push(Operation::Put(key, vc));
                },
                None => {
                    ops.push(Operation::Delete(key));
                },
            }
            proof {
                let taken1 = self.map@.take(i as int + 1);
                assert(taken1.drop_last() =~= taken);
                assert(taken1.last() == self.map@[i as int]);
                lemma_kv_sorted_distinct(self.map@);
                assert forall|p: int, q: int|
                    0 <= p < taken1.len() && 0 <= q < taken1.len() && p != q implies taken1[p].0@
                    != taken1[q].0@ by {
                    assert(taken1[p] == self.map@[p] && taken1[q] == self.map@[q]);
                }
                lemma_kv_map_snoc(taken1);
                lemma_opt_values_insert(
                    kv_map(taken),
                    self.map@[i as int].0@,
                    self.map@[i as int].1,
                );
                assert(ops@.drop_last() =~= prev_ops);
                match self.map@[i as int].1 {
                    Some(v) => {
                        lemma_read_your_writes(
                            opt_values(kv_map(taken)),
                            base0,
                            self.map@[i as int].0@,
                            v@,
                        );
                    },
                    None => {
                        lemma_tombstone_hides(
                            opt_values(kv_map(taken)),
                            base0,
                            self.map@[i as int].0@,
                        );
                    },
                }
            }
            i = i + 1;
        }
        proof {
            assert(self.map@.take(n as int) =~= self.map@);
            assert(apply_ops(base0, ops@) == overlay(self.buffer(), base0));
        }
        let ghost drained = ops@;
        let mut rest = operations;
        ops.append(&mut rest);
        proof {
            lemma_apply_ops_concat(base0, drained, gops);
        }
        let res = self.inner.commit(ops);
        match res {
            Ok(()) => {
                self.map = Vec::new();
                proof {
                    assert(self.buffer() =~= Map::<Seq<u8>, Option<Seq<u8>>>::empty());
                    lemma_overlay_empty(self.spec_inner().db_view());
                }
                Ok(())
            },
            Err(e) => Err(e),
        }
    }

    /// Forwarded untouched: the root reflects committed state only.
    fn root_hash(&self) -> (h: [u8; 32]) {
        self.inner.root_hash()
    }
}

impl<M: TreeMiddleware> TreeMiddleware for CacheMiddleware<M> {
    /// Discards every buffered intent: an explicit rollback. Afterwards
    /// reads observe exactly what the inner layer holds, as if the intents
    /// had never been recorded. Never fails, and touches neither the
    /// committed state nor the root.
    fn clean(&mut self) -> (r: ZKResult<()>)
        ensures
            r is Ok,
            final(self).buffer() == Map::<Seq<u8>, Option<Seq<u8>>>::empty(),
            final(self).spec_inner() == old(self).spec_inner(),
            final(self).db_view() == old(self).spec_inner().db_view(),
    {
        self.map = Vec::new();
        proof {
            assert(self.buffer() =~= Map::<Seq<u8>, Option<Seq<u8>>>::empty());
            lemma_overlay_empty(self.spec_inner().db_view());
        }
        Ok(())
    }
}

} // verus!

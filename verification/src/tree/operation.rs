//! The mutations a commit batch carries, and their meaning on a key-value
//! mapping.

use vstd::prelude::*;

verus! {

/// One intended mutation: bind a value to a key, or remove a key.
pub enum Operation {
    Put(Vec<u8>, Vec<u8>),
    Delete(Vec<u8>),
}

/// The effect of one operation on a key-value mapping.
pub open spec fn apply_op(m: Map<Seq<u8>, Seq<u8>>, op: Operation) -> Map<Seq<u8>, Seq<u8>> {
    match op {
        Operation::Put(k, v) => m.insert(k@, v@),
        Operation::Delete(k) => m.remove(k@),
    }
}

/// The effect of a batch of operations, applied first to last.
pub open spec fn apply_ops(m: Map<Seq<u8>, Seq<u8>>, ops: Seq<Operation>) -> Map<
    Seq<u8>,
    Seq<u8>,
>
    decreases ops.len(),
{
    if ops.len() == 0 {
        m
    } else {
        apply_op(apply_ops(m, ops.drop_last()), ops.last())
    }
}

/// Splitting a batch in two applies the parts one after the other.
pub proof fn lemma_apply_ops_concat(m: Map<Seq<u8>, Seq<u8>>, a: Seq<Operation>, b: Seq<
    Operation,
>)
    ensures
        apply_ops(m, a + b) == apply_ops(apply_ops(m, a), b),
    decreases b.len(),
{
    if b.len() == 0 {
        assert(a + b =~= a);
    } else {
        assert((a + b).drop_last() =~= a + b.drop_last());
        assert((a + b).last() == b.last());
        lemma_apply_ops_concat(m, a, b.drop_last());
    }
}

} // verus!

//! The middleware decorator chain: the composition trait, the terminal
//! pass-through layer, the write-buffering cache layer, and the transaction
//! log types shared by them.

pub mod cache;
pub mod middleware;

use vstd::prelude::*;
use core::cmp::Ordering;
use crate::order::bytes_cmp;
pub use crate::tree::operation::Operation;

pub use crate::middleware::cache::CacheMiddleware;
pub use crate::middleware::middleware::{
    DBMiddleware, DBType, Transaction, TransactionNode, TreeMiddleware,
};

verus! {

/// How a stack is to be built: which backing store kind, and where it lives.
pub struct BuildOption {
    pub db_type: Option<DBType>,
    pub db_path: Option<String>,
}

/// The value the transaction log leaves readable for `k`: the last recorded
/// mutation of `k` decides. A write yields its value; a deletion is a
/// tombstone, so the key reads as absent regardless of earlier writes.
pub open spec fn log_lookup(s: Seq<TransactionNode>, k: Seq<u8>) -> Option<Seq<u8>>
    decreases s.len(),
{
    if s.len() == 0 {
        None
    } else {
        match s.last().spec_op() {
            Operation::Put(key, value) => if key@ == k {
                Some(value@)
            } else {
                log_lookup(s.drop_last(), k)
            },
            Operation::Delete(key) => if key@ == k {
                None
            } else {
                log_lookup(s.drop_last(), k)
            },
        }
    }
}

/// A log-structured write buffer: an ordered list of recorded mutations, a
/// later record overriding an earlier one.
#[allow(non_camel_case_types)]
pub struct cacheInner {
    transactions: Transaction,
}

impl Default for cacheInner {
    /// An empty log.
    fn default() -> (r: Self)
        ensures
            r.log().len() == 0,
    {
        cacheInner { transactions: Transaction(Vec::new()) }
    }
}

impl cacheInner {
    /// The recorded mutations, oldest first.
    pub closed spec fn log(&self) -> Seq<TransactionNode> {
        self.transactions.0@
    }

    /// A log holding the given transactions.
    pub fn new(transactions: Transaction) -> (c: Self)
        ensures
            c.log() == transactions.0@,
    {
        cacheInner { transactions }
    }

    /// Scans the log for `k` and returns the value its last recorded
    /// mutation leaves readable: the value of the last write, or nothing
    /// when the key was never written or a deletion came after the writes.
    pub fn find(self, k: Vec<u8>) -> (r: Option<Vec<u8>>)
        ensures
            match r {
                Some(v) => log_lookup(self.log(), k@) == Some(v@),
                None => log_lookup(self.log(), k@) is None,
            },
    {
        let ghost s = self.transactions.0@;
        let mut ret: Vec<u8> = Vec::new();
        let mut found = false;
        let n = self.transactions.0.len();
        let mut i: usize = 0;
        while i < n
            invariant
                n == s.len(),
                i <= n,
                s == self.transactions.0@,
                found ==> log_lookup(s.take(i as int), k@) == Some(ret@),
                !found ==> log_lookup(s.take(i as int), k@) is None,
            decreases n - i,
        {
            let ghost taken1 = s.take(i as int + 1);
            proof {
                assert(taken1.drop_last() =~= s.take(i as int));
                assert(taken1.last() == s[i as int]);
            }
            let node = &self.transactions.0[i];
            match &node.op {
                Operation::Put(key, value) => {
                    let o = bytes_cmp(key, &k);
                    match o {
                        Ordering::Equal => {
                            found = true;
                            ret = value.clone();
                        },
                        _ => {},
                    }
                },
                Operation::Delete(key) => {
                    let o = bytes_cmp(key, &k);
                    match o {
                        Ordering::Equal => {
                            found = false;
                        },
                        _ => {},
                    }
                },
            }
            i = i + 1;
        }
        proof {
            assert(s.take(n as int) =~= s);
        }
        if found {
            return Some(ret);
        }
        None
    }
}

} // verus!

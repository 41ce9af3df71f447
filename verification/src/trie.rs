//! An in-memory content-addressed store: the terminal `TreeDB` of the stack.
//!
//! The store holds its committed bindings as a list sorted by key. Its root
//! digest is the Keccak-256 digest of a canonical length-prefixed encoding
//! of that list, and a membership proof is that same encoding: checking a
//! proof means recomputing its digest against the expected root and reading
//! the asserted keys out of the decoded bindings.

use vstd::prelude::*;
use core::cmp::Ordering;
use crate::error::{ErrorEnums, ZKResult};
use crate::order::{
    bytes_cmp, kv_find, kv_insert, kv_map, kv_remove, kv_sorted, kv_has_key, kv_index_of,
    lemma_kv_map_at, lemma_kv_sorted_distinct, lemma_view_values_insert, lemma_view_values_remove,
    view_values,
};
use crate::tree::couple::{ProveRequest, ProveResponse, VerifyRequest, VerifyResponse};
use crate::tree::operation::{apply_ops, Operation};
use crate::tree::smt::{keccak256_of, KeccakHasher};
use crate::tree::tree::{DB, TreeDB};

verus! {

/// The big-endian eight-byte rendering of `n`.
pub open spec fn be_bytes(n: u64) -> Seq<u8> {
    seq![
        (n >> 56) as u8,
        (n >> 48) as u8,
        (n >> 40) as u8,
        (n >> 32) as u8,
        (n >> 24) as u8,
        (n >> 16) as u8,
        (n >> 8) as u8,
        n as u8,
    ]
}

/// The value carried by the first eight bytes of `b`, big-endian.
pub open spec fn be_val(b: Seq<u8>) -> u64 {
    ((b[0] as u64) << 56) | ((b[1] as u64) << 48) | ((b[2] as u64) << 40) | ((b[3] as u64) << 32)
        | ((b[4] as u64) << 24) | ((b[5] as u64) << 16) | ((b[6] as u64) << 8) | (b[7] as u64)
}

/// Reading back an eight-byte rendering yields the value rendered.
pub proof fn lemma_be_roundtrip(n: u64)
    ensures
        be_bytes(n).len() == 8,
        be_val(be_bytes(n)) == n,
{
    assert((((((n >> 56) as u8) as u64) << 56) | ((((n >> 48) as u8) as u64) << 48) | ((((n >> 40)
        as u8) as u64) << 40) | ((((n >> 32) as u8) as u64) << 32) | ((((n >> 24) as u8) as u64)
        << 24) | ((((n >> 16) as u8) as u64) << 16) | ((((n >> 8) as u8) as u64) << 8) | ((n
        as u8) as u64)) == n) by (bit_vector);
}

/// The views of an entry list's keys and values.
pub open spec fn kv_views(s: Seq<(Vec<u8>, Vec<u8>)>) -> Seq<(Seq<u8>, Seq<u8>)> {
    Seq::new(s.len(), |i: int| (s[i].0@, s[i].1@))
}

/// The canonical encoding of one binding: the key and the value, each
/// preceded by its eight-byte length.
pub open spec fn encode_entry(k: Seq<u8>, v: Seq<u8>) -> Seq<u8> {
    be_bytes(k.len() as u64) + k + be_bytes(v.len() as u64) + v
}

/// The canonical encoding of a binding list, first binding first.
pub open spec fn encode_kvs(s: Seq<(Seq<u8>, Seq<u8>)>) -> Seq<u8>
    decreases s.len(),
{
    if s.len() == 0 {
        Seq::empty()
    } else {
        encode_entry(s[0].0, s[0].1) + encode_kvs(s.drop_first())
    }
}

/// Appending one binding appends its encoding.
pub proof fn lemma_encode_snoc(s: Seq<(Seq<u8>, Seq<u8>)>, k: Seq<u8>, v: Seq<u8>)
    ensures
        encode_kvs(s.push((k, v))) == encode_kvs(s) + encode_entry(k, v),
    decreases s.len(),
{
    let p = s.push((k, v));
    if s.len() == 0 {
        assert(p.len() == 1);
        assert(p[0].0 == k && p[0].1 == v);
        assert(p.drop_first() =~= Seq::<(Seq<u8>, Seq<u8>)>::empty());
        assert(encode_kvs(p.drop_first()) == Seq::<u8>::empty());
        assert(encode_kvs(s) == Seq::<u8>::empty());
        assert(encode_kvs(p) == encode_entry(k, v) + Seq::<u8>::empty());
        assert(encode_kvs(p) =~= encode_kvs(s) + encode_entry(k, v));
    } else {
        assert(p[0].0 == s[0].0 && p[0].1 == s[0].1);
        assert(p.drop_first() =~= s.drop_first().push((k, v)));
        lemma_encode_snoc(s.drop_first(), k, v);
        assert(encode_kvs(p) == encode_entry(s[0].0, s[0].1) + encode_kvs(s.drop_first().push((
        k,
        v,
        ))));
        assert(encode_kvs(p) =~= encode_kvs(s) + encode_entry(k, v));
    }
}

/// Appends the big-endian rendering of `n` to `out`.
fn push_be(out: &mut Vec<u8>, n: u64)
    ensures
        final(out)@ == old(out)@ + be_bytes(n),
{
    out.push((n >> 56) as u8);
    out.push((n >> 48) as u8);
    out.push((n >> 40) as u8);
    out.push((n >> 32) as u8);
    out.push((n >> 24) as u8);
    out.push((n >> 16) as u8);
    out.push((n >> 8) as u8);
    out.push(n as u8);
    proof {
        assert(out@ =~= old(out)@ + be_bytes(n));
    }
}

/// Produces the canonical encoding of `entries`.
fn encode_entries(entries: &Vec<(Vec<u8>, Vec<u8>)>) -> (out: Vec<u8>)
    ensures
        out@ == encode_kvs(kv_views(entries@)),
{
    let mut out: Vec<u8> = Vec::new();
    let n = entries.len();
    let mut i: usize = 0;
    proof {
        assert(kv_views(entries@).take(0) =~= Seq::<(Seq<u8>, Seq<u8>)>::empty());
    }
    while i < n
        invariant
            n == entries@.len(),
            i <= n,
            out@ == encode_kvs(kv_views(entries@).take(i as int)),
        decreases n - i,
    {
        let ghost vs = kv_views(entries@);
        let ghost before = out@;
        let klen = entries[i].0.len();
        push_be(&mut out, klen as u64);
        out.extend_from_slice(entries[i].0.as_slice());
        let vlen = entries[i].1.len();
        push_be(&mut out, vlen as u64);
        out.extend_from_slice(entries[i].1.as_slice());
        proof {
            assert(vs.take(i as int + 1) =~= vs.take(i as int).push(vs[i as int]));
            lemma_encode_snoc(vs.take(i as int), vs[i as int].0, vs[i as int].1);
            assert(out@ =~= before + encode_entry(vs[i as int].0, vs[i as int].1));
        }
        i = i + 1;
    }
    proof {
        assert(kv_views(entries@).take(n as int) =~= kv_views(entries@));
    }
    out
}

/// Reads a binding list back out of its canonical encoding; `None` when the
/// bytes are not such an encoding.
pub open spec fn decode_kvs(b: Seq<u8>) -> Option<Seq<(Seq<u8>, Seq<u8>)>>
    decreases b.len(),
{
    if b.len() == 0 {
        Some(Seq::empty())
    } else if b.len() < 8 {
        None
    } else {
        let kl = be_val(b.subrange(0, 8)) as int;
        if b.len() < 8 + kl {
            None
        } else {
            let k = b.subrange(8, 8 + kl);
            let r1 = b.subrange(8 + kl, b.len() as int);
            if r1.len() < 8 {
                None
            } else {
                let vl = be_val(r1.subrange(0, 8)) as int;
                if r1.len() < 8 + vl {
                    None
                } else {
                    let v = r1.subrange(8, 8 + vl);
                    let r2 = r1.subrange(8 + vl, r1.len() as int);
                    match decode_kvs(r2) {
                        Some(rest) => Some(seq![(k, v)] + rest),
                        None => None,
                    }
                }
            }
        }
    }
}

/// Decoding inverts encoding, for bindings whose lengths fit the eight-byte
/// prefix (every binding held in memory does).
#[verifier::rlimit(60)]
pub proof fn lemma_decode_encode(s: Seq<(Seq<u8>, Seq<u8>)>)
    requires
        forall|i: int|
            0 <= i < s.len() ==> (#[trigger] s[i].0.len()) <= u64::MAX && s[i].1.len()
                <= u64::MAX,
    ensures
        decode_kvs(encode_kvs(s)) == Some(s),
    decreases s.len(),
{
    if s.len() == 0 {
    } else {
        let k = s[0].0;
        let v = s[0].1;
        let tail = s.drop_first();
        let tail_enc = encode_kvs(tail);
        let e = encode_kvs(s);
        lemma_be_roundtrip(k.len() as u64);
        lemma_be_roundtrip(v.len() as u64);
        assert(e =~= be_bytes(k.len() as u64) + k + be_bytes(v.len() as u64) + v + tail_enc);
        assert(e.len() == 16 + k.len() + v.len() + tail_enc.len());
        assert(e.subrange(0, 8) =~= be_bytes(k.len() as u64));
        let kl = be_val(e.subrange(0, 8)) as int;
        assert(kl == k.len());
        assert(e.subrange(8, 8 + kl) =~= k);
        let r1 = e.subrange(8 + kl, e.len() as int);
        assert(r1 =~= be_bytes(v.len() as u64) + v + tail_enc);
        assert(r1.subrange(0, 8) =~= be_bytes(v.len() as u64));
        let vl = be_val(r1.subrange(0, 8)) as int;
        assert(vl == v.len());
        assert(r1.subrange(8, 8 + vl) =~= v);
        let r2 = r1.subrange(8 + vl, r1.len() as int);
        assert(r2 =~= tail_enc);
        assert forall|i: int|
            0 <= i < tail.len() implies (#[trigger] tail[i].0.len()) <= u64::MAX
            && tail[i].1.len() <= u64::MAX by {
            assert(tail[i] == s[i + 1]);
        }
        lemma_decode_encode(tail);
        assert(decode_kvs(r2) == Some(tail));
        assert(seq![(k, v)] + tail =~= s);
    }
}

/// Reads the big-endian value standing at `off`.
fn read_be(b: &Vec<u8>, off: usize) -> (x: u64)
    requires
        off + 8 <= b@.len(),
    ensures
        x == be_val(b@.skip(off as int)),
{
    // Calling `len` grounds the view's length in a machine word, so the
    // index arithmetic below is known not to overflow.
    let _n: usize = b.len();
    ((b[off] as u64) << 56) | ((b[off + 1] as u64) << 48) | ((b[off + 2] as u64) << 40) | ((b[off
        + 3] as u64) << 32) | ((b[off + 4] as u64) << 24) | ((b[off + 5] as u64) << 16) | ((b[off
        + 6] as u64) << 8) | (b[off + 7] as u64)
}

/// Copies `len` bytes starting at `start` out of `b`.
fn copy_range(b: &Vec<u8>, start: usize, len: usize) -> (out: Vec<u8>)
    requires
        start + len <= b@.len(),
    ensures
        out@ == b@.subrange(start as int, start as int + len as int),
{
    let mut out: Vec<u8> = Vec::new();
    let n = b.len();
    let mut t: usize = 0;
    while t < len
        invariant
            n == b@.len(),
            start + len <= b@.len(),
            t <= len,
            out@.len() == t,
            forall|j: int| 0 <= j < t ==> out@[j] == b@[start + j],
        decreases len - t,
    {
        out.push(b[start + t]);
        t = t + 1;
    }
    proof {
        assert(out@ =~= b@.subrange(start as int, start as int + len as int));
    }
    out
}

/// How far decoding has come: the whole decodes exactly when the rest
/// decodes, to `parsed` followed by the rest's bindings.
pub open spec fn decode_from(b: Seq<u8>, off: int, parsed: Seq<(Seq<u8>, Seq<u8>)>) -> bool {
    decode_kvs(b) == (match decode_kvs(b.skip(off)) {
        Some(rest) => Some(parsed + rest),
        None => None::<Seq<(Seq<u8>, Seq<u8>)>>,
    })
}

/// Decodes a canonical encoding back into its binding list.
fn decode_entries(b: &Vec<u8>) -> (r: Option<Vec<(Vec<u8>, Vec<u8>)>>)
    ensures
        match r {
            Some(es) => decode_kvs(b@) == Some(kv_views(es@)),
            None => decode_kvs(b@) is None,
        },
{
    let n = b.len();
    let mut out: Vec<(Vec<u8>, Vec<u8>)> = Vec::new();
    let mut off: usize = 0;
    proof {
        assert(b@.skip(0) =~= b@);
        assert(kv_views(out@) =~= Seq::<(Seq<u8>, Seq<u8>)>::empty());
        match decode_kvs(b@) {
            Some(w) => {
                assert(kv_views(out@) + w =~= w);
            },
            None => {},
        }
    }
    while off < n
        invariant
            n == b@.len(),
            off <= n,
            decode_from(b@, off as int, kv_views(out@)),
        decreases n - off,
    {
        let ghost rem = b@.skip(off as int);
        assert(rem.len() == n - off);
        let remaining = n - off;
        if remaining < 8 {
            return None;
        }
        let kl64 = read_be(b, off);
        proof {
            assert(rem.subrange(0, 8) =~= b@.subrange(off as int, off as int + 8));
            assert(be_val(rem.subrange(0, 8)) == be_val(rem));
        }
        if kl64 > (remaining - 8) as u64 {
            return None;
        }
        let kl = kl64 as usize;
        let key = copy_range(b, off + 8, kl);
        let off2 = off + 8 + kl;
        proof {
            assert(rem.subrange(8, 8 + kl as int) =~= b@.subrange(
                off as int + 8,
                off2 as int,
            ));
            assert(key@ == rem.subrange(8, 8 + kl as int));
            assert(rem.subrange(8 + kl as int, rem.len() as int) =~= b@.skip(off2 as int));
        }
        let ghost r1 = b@.skip(off2 as int);
        let remaining2 = n - off2;
        if remaining2 < 8 {
            return None;
        }
        let vl64 = read_be(b, off2);
        proof {
            assert(r1.subrange(0, 8) =~= b@.subrange(off2 as int, off2 as int + 8));
            assert(be_val(r1.subrange(0, 8)) == be_val(r1));
        }
        if vl64 > (remaining2 - 8) as u64 {
            return None;
        }
        let vl = vl64 as usize;
        let value = copy_range(b, off2 + 8, vl);
        let off3 = off2 + 8 + vl;
        proof {
            assert(r1.subrange(8, 8 + vl as int) =~= b@.subrange(
                off2 as int + 8,
                off3 as int,
            ));
            assert(value@ == r1.subrange(8, 8 + vl as int));
            assert(r1.subrange(8 + vl as int, r1.len() as int) =~= b@.skip(off3 as int));
        }
        let ghost out_before = out@;
        out.push((key, value));
        proof {
            let r2 = b@.skip(off3 as int);
            assert(decode_kvs(rem) == (match decode_kvs(r2) {
                Some(rest) => Some(seq![(key@, value@)] + rest),
                None => None::<Seq<(Seq<u8>, Seq<u8>)>>,
            }));
            assert(kv_views(out@) =~= kv_views(out_before).push((key@, value@)));
            match decode_kvs(r2) {
                Some(rest) => {
                    assert(kv_views(out_before) + (seq![(key@, value@)] + rest) =~= kv_views(out@)
                        + rest);
                },
                None => {},
            }
        }
        off = off3;
    }
    proof {
        assert(b@.skip(n as int) =~= Seq::<u8>::empty());
        assert(decode_kvs(b@.skip(n as int)) == Some(Seq::<(Seq<u8>, Seq<u8>)>::empty()));
        assert(kv_views(out@) + Seq::<(Seq<u8>, Seq<u8>)>::empty() =~= kv_views(out@));
    }
    Some(out)
}

/// The first binding for `k` in a decoded list, if any.
pub open spec fn seq_lookup(s: Seq<(Seq<u8>, Seq<u8>)>, k: Seq<u8>) -> Option<Seq<u8>>
    decreases s.len(),
{
    if s.len() == 0 {
        None
    } else if s[0].0 == k {
        Some(s[0].1)
    } else {
        seq_lookup(s.drop_first(), k)
    }
}

/// Skipping entries that do not carry `k` does not change the lookup.
pub proof fn lemma_seq_lookup_skip(s: Seq<(Seq<u8>, Seq<u8>)>, k: Seq<u8>, i: int)
    requires
        0 <= i <= s.len(),
        forall|j: int| 0 <= j < i ==> s[j].0 != k,
    ensures
        seq_lookup(s, k) == seq_lookup(s.skip(i), k),
    decreases i,
{
    if i > 0 {
        assert(s[0].0 != k);
        lemma_seq_lookup_skip(s.drop_first(), k, i - 1);
        assert(s.drop_first().skip(i - 1) =~= s.skip(i));
    } else {
        assert(s.skip(0) =~= s);
    }
}

/// On a list with distinct keys, the first-match lookup agrees with the
/// denoted mapping.
pub proof fn lemma_seq_lookup_map(s: Seq<(Vec<u8>, Vec<u8>)>, k: Seq<u8>)
    requires
        forall|p: int, q: int|
            0 <= p < s.len() && 0 <= q < s.len() && p != q ==> s[p].0@ != s[q].0@,
    ensures
        seq_lookup(kv_views(s), k) == (if view_values(kv_map(s)).contains_key(k) {
            Some(view_values(kv_map(s))[k])
        } else {
            None::<Seq<u8>>
        }),
    decreases s.len(),
{
    let vs = kv_views(s);
    let m = view_values(kv_map(s));
    if s.len() == 0 {
        assert(!kv_has_key(s, k));
    } else if s[0].0@ == k {
        assert(vs[0].0 == k);
        lemma_kv_map_at(s, 0);
        assert(m.contains_key(k) && m[k] == s[0].1@);
    } else {
        assert(vs[0].0 != k);
        let t = s.drop_first();
        assert(kv_views(t) =~= vs.drop_first());
        lemma_seq_lookup_map(t, k);
        let mt = view_values(kv_map(t));
        if m.contains_key(k) {
            let j = kv_index_of(s, k);
            assert(0 <= j < s.len() && s[j].0@ == k);
            assert(j != 0);
            assert(t[j - 1].0@ == k);
            assert(kv_has_key(t, k));
            lemma_kv_map_at(s, j);
            lemma_kv_map_at(t, j - 1);
            assert(mt.contains_key(k) && mt[k] == m[k]);
        } else {
            assert(!kv_has_key(s, k));
            assert forall|j: int| 0 <= j < t.len() implies t[j].0@ != k by {
                assert(t[j] == s[j + 1]);
            }
            assert(!kv_has_key(t, k));
        }
    }
}

/// Whether one assertion is consistent with the decoded bindings `d`: if its
/// key is bound, the bound value must match; an unbound key is not enforced.
pub open spec fn assertion_ok(d: Seq<(Seq<u8>, Seq<u8>)>, a: (Vec<u8>, Vec<u8>)) -> bool {
    match seq_lookup(d, a.0@) {
        Some(v) => v == a.1@,
        None => true,
    }
}

/// Whether every assertion of `kv` is consistent with the decoded bindings.
pub open spec fn assertions_hold(d: Seq<(Seq<u8>, Seq<u8>)>, kv: Seq<(Vec<u8>, Vec<u8>)>) -> bool {
    forall|i: int| 0 <= i < kv.len() ==> #[trigger] assertion_ok(d, kv[i])
}

/// Compares two 32-byte digests.
fn hash_eq(a: &[u8; 32], b: &[u8; 32]) -> (r: bool)
    ensures
        r == (a@ == b@),
{
    let mut i: usize = 0;
    while i < 32
        invariant
            i <= 32,
            forall|j: int| 0 <= j < i ==> a@[j] == b@[j],
        decreases 32 - i,
    {
        if a[i] != b[i] {
            return false;
        }
        i = i + 1;
    }
    proof {
        assert(a@ =~= b@);
    }
    true
}

/// An in-memory content-addressed key-value store. It holds its committed
/// bindings sorted by key; its root digest commits to exactly those
/// bindings.
pub struct TrieDB {
    entries: Vec<(Vec<u8>, Vec<u8>)>,
}

impl TrieDB {
    /// The committed bindings, in key order.
    pub closed spec fn entries_seq(&self) -> Seq<(Vec<u8>, Vec<u8>)> {
        self.entries@
    }

    /// An empty store.
    pub fn new() -> (t: TrieDB)
        ensures
            t.wf(),
            t.db_view() == Map::<Seq<u8>, Seq<u8>>::empty(),
            t.entries_seq().len() == 0,
    {
        let t = TrieDB { entries: Vec::new() };
        proof {
            assert(t.db_view() =~= Map::<Seq<u8>, Seq<u8>>::empty());
        }
        t
    }

    /// The observable mapping is the one the sorted entry list denotes.
    pub proof fn lemma_view_is_entries(&self)
        ensures
            self.db_view() == view_values(kv_map(self.entries_seq())),
    {
    }

    /// The root digest commits to the canonical encoding of the entries.
    pub proof fn lemma_root_is_encoding(&self)
        ensures
            self.root_view() == keccak256_of(encode_kvs(kv_views(self.entries_seq()))),
    {
    }
}

impl DB for TrieDB {
    /// The entry list is strictly sorted by key.
    closed spec fn wf(&self) -> bool {
        kv_sorted(self.entries@)
    }

    closed spec fn db_view(&self) -> Map<Seq<u8>, Seq<u8>> {
        view_values(kv_map(self.entries@))
    }

    /// Reads never fail: the bound value, or `None` for an unbound key.
    fn get(&self, k: Vec<u8>) -> (r: ZKResult<Option<Vec<u8>>>)
        ensures
            r is Ok,
    {
        proof {
            lemma_kv_sorted_distinct(self.entries@);
        }
        let found = kv_find(&self.entries, &k);
        match found {
            Some(i) => {
                proof {
                    lemma_kv_map_at(self.entries@, i as int);
                }
                Ok(Some(self.entries[i].1.clone()))
            },
            None => Ok(None),
        }
    }

    /// Writes never fail and echo the key.
    fn set(&mut self, k: Vec<u8>, v: Vec<u8>) -> (r: ZKResult<Vec<u8>>)
        ensures
            r is Ok,
    {
        let ret = k.clone();
        let ghost gk: Seq<u8> = k@;
        let ghost gv = v;
        let ghost m0 = kv_map(old(self).entries@);
        kv_insert(&mut self.entries, k, v);
        proof {
            lemma_view_values_insert(m0, gk, gv);
        }
        Ok(ret)
    }

    /// Deletions never fail; deleting an unbound key leaves the store as it
    /// was.
    fn delete(&mut self, k: Vec<u8>) -> (r: ZKResult<()>)
        ensures
            r is Ok,
    {
        let ghost gk: Seq<u8> = k@;
        let ghost m0 = kv_map(old(self).entries@);
        kv_remove(&mut self.entries, &k);
        proof {
            lemma_view_values_remove(m0, gk);
        }
        Ok(())
    }
}

impl TreeDB for TrieDB {
    /// Everything this store holds is committed: it buffers nothing.
    open spec fn committed(&self) -> Map<Seq<u8>, Seq<u8>> {
        self.db_view()
    }

    closed spec fn root_view(&self) -> Seq<u8> {
        keccak256_of(encode_kvs(kv_views(self.entries@)))
    }

    /// A proof is the canonical encoding of the committed bindings,
    /// whatever keys were requested.
    open spec fn prove_bytes(&self, req: ProveRequest) -> Seq<u8> {
        encode_kvs(kv_views(self.entries_seq()))
    }

    /// A check is accepted when the proof's digest is the expected root and
    /// the proof bytes decode.
    open spec fn verify_ok(&self, req: VerifyRequest) -> bool {
        keccak256_of(req.proof@) == req.expected_root@ && decode_kvs(req.proof@) is Some
    }

    /// A check reports validity when every assertion is consistent with the
    /// decoded bindings.
    open spec fn verify_valid(&self, req: VerifyRequest) -> bool {
        decode_kvs(req.proof@) matches Some(d) && assertions_hold(d, req.kv_seq())
    }

    /// Builds a proof covering every committed binding (hence in particular
    /// the requested keys): the canonical encoding that the root digest
    /// commits to. Never fails.
    #[allow(unused_variables)]
    fn prove(&self, req: ProveRequest) -> (r: ZKResult<ProveResponse>)
        ensures
            r is Ok,
    {
        let bytes = encode_entries(&self.entries);
        Ok(ProveResponse { proof: bytes })
    }

    /// Checks the proof's digest against the expected root, decodes the
    /// proven bindings, and checks every assertion against them. Fails
    /// exactly when the digest does not match or the proof bytes are
    /// malformed; a failing assertion yields `valid == false`, an assertion
    /// whose key the proof does not bind is not enforced.
    fn verify(&self, req: VerifyRequest) -> (r: ZKResult<VerifyResponse>)
        ensures
            r matches Err(e) ==> !self.verify_ok(req) && e.spec_code() == 1,
    {
        let digest = KeccakHasher::hash(req.proof.as_slice());
        if !hash_eq(&digest, &req.expected_root) {
            return Err(
                ErrorEnums::unknown().to_error().with_error(
                    "proof does not match the expected root".to_owned(),
                ),
            );
        }
        let decoded = decode_entries(&req.proof);
        match decoded {
            None => Err(ErrorEnums::unknown().to_error().with_error("malformed proof".to_owned())),
            Some(d) => {
                let ghost dv = kv_views(d@);
                let n = req.kv.len();
                let mut i: usize = 0;
                while i < n
                    invariant
                        n == req.kv@.len(),
                        i <= n,
                        keccak256_of(req.proof@) == req.expected_root@,
                        decode_kvs(req.proof@) == Some(dv),
                        dv == kv_views(d@),
                        forall|j: int| 0 <= j < i ==> #[trigger] assertion_ok(dv, req.kv@[j]),
                    decreases n - i,
                {
                    let found = kv_find(&d, &req.kv[i].0);
                    match found {
                        Some(j) => {
                            proof {
                                assert forall|q: int| 0 <= q < j implies dv[q].0 != req.kv@[i as int].0@ by {
                                    assert(dv[q].0 == d@[q].0@);
                                }
                                lemma_seq_lookup_skip(dv, req.kv@[i as int].0@, j as int);
                                assert(dv.skip(j as int)[0].0 == req.kv@[i as int].0@);
                                assert(seq_lookup(dv, req.kv@[i as int].0@) == Some(
                                    d@[j as int].1@,
                                ));
                            }
                            let same = match bytes_cmp(&d[j].1, &req.kv[i].1) {
                                Ordering::Equal => true,
                                _ => false,
                            };
                            if !same {
                                proof {
                                    assert(!assertion_ok(dv, req.kv@[i as int]));
                                    assert(!assertions_hold(dv, req.kv@));
                                }
                                return Ok(VerifyResponse { valid: false });
                            }
                            proof {
                                assert(assertion_ok(dv, req.kv@[i as int]));
                            }
                        },
                        None => {
                            proof {
                                assert forall|q: int| 0 <= q < dv.len() implies dv[q].0 != req.kv@[i as int].0@ by {
                                    assert(dv[q].0 == d@[q].0@);
                                }
                                lemma_seq_lookup_skip(dv, req.kv@[i as int].0@, dv.len() as int);
                                assert(dv.skip(dv.len() as int) =~= Seq::<(
                                    Seq<u8>,
                                    Seq<u8>,
                                )>::empty());
                                assert(seq_lookup(dv, req.kv@[i as int].0@) is None);
                                assert(assertion_ok(dv, req.kv@[i as int]));
                            }
                        },
                    }
                    i = i + 1;
                }
                Ok(VerifyResponse { valid: true })
            },
        }
    }

    /// Applies the batch, first to last, to the committed bindings. Never
    /// fails.
    fn commit(&mut self, operations: Vec<Operation>) -> (r: ZKResult<()>)
        ensures
            r is Ok,
    {
        let ghost v0 = old(self).db_view();
        let n = operations.len();
        let mut i: usize = 0;
        proof {
            assert(operations@.take(0) =~= Seq::<Operation>::empty());
        }
        while i < n
            invariant
                n == operations@.len(),
                i <= n,
                self.wf(),
                self.db_view() == apply_ops(v0, operations@.take(i as int)),
            decreases n - i,
        {
            let ghost before = self.db_view();
            match &operations[i] {
                Operation::Put(k, v) => {
                    let kc = k.clone();
                    let vc = v.clone();
                    let ghost gk: Seq<u8> = kc@;
                    let ghost gvc = vc;
                    let ghost m0 = kv_map(self.entries@);
                    kv_insert(&mut self.entries, kc, vc);
                    proof {
                        lemma_view_values_insert(m0, gk, gvc);
                        assert(self.db_view() == before.insert(gk, gvc@));
                    }
                },
                Operation::Delete(k) => {
                    let ghost gk: Seq<u8> = k@;
                    let ghost m0 = kv_map(self.entries@);
                    kv_remove(&mut self.entries, k);
                    proof {
                        lemma_view_values_remove(m0, gk);
                        assert(self.db_view() == before.remove(gk));
                    }
                },
            }
            proof {
                assert(operations@.take(i as int + 1).drop_last() =~= operations@.take(i as int));
                assert(operations@.take(i as int + 1).last() == operations@[i as int]);
            }
            i = i + 1;
        }
        proof {
            assert(operations@.take(n as int) =~= operations@);
        }
        Ok(())
    }

    /// The digest of the canonical encoding of the committed bindings.
    fn root_hash(&self) -> (h: [u8; 32]) {
        let enc = encode_entries(&self.entries);
        KeccakHasher::hash(enc.as_slice())
    }
}

/// A proof built from a store's own bindings decodes back to exactly those
/// bindings, and assertions drawn from the store's observable mapping are
/// consistent with them: checking such a proof against the store's own root
/// succeeds and reports it valid.
pub proof fn lemma_proof_round_trip(t: TrieDB, kv: Seq<(Vec<u8>, Vec<u8>)>)
    requires
        t.wf(),
        forall|i: int|
            0 <= i < kv.len() ==> t.db_view().contains_key(#[trigger] kv[i].0@)
                && t.db_view()[kv[i].0@] == kv[i].1@,
    ensures
        t.root_view() == keccak256_of(encode_kvs(kv_views(t.entries_seq()))),
        decode_kvs(encode_kvs(kv_views(t.entries_seq()))) == Some(kv_views(t.entries_seq())),
        assertions_hold(kv_views(t.entries_seq()), kv),
{
    let s = t.entries_seq();
    let vs = kv_views(s);
    t.lemma_root_is_encoding();
    t.lemma_view_is_entries();
    lemma_kv_sorted_distinct_pub(t);
    assert forall|i: int|
        0 <= i < vs.len() implies (#[trigger] vs[i].0.len()) <= u64::MAX && vs[i].1.len()
        <= u64::MAX by {
        assert(vs[i].0 == s[i].0@ && vs[i].1 == s[i].1@);
        vstd::std_specs::vec::axiom_spec_len(&s[i].0);
        vstd::std_specs::vec::axiom_spec_len(&s[i].1);
    }
    lemma_decode_encode(vs);
    assert forall|i: int| 0 <= i < kv.len() implies #[trigger] assertion_ok(vs, kv[i]) by {
        lemma_seq_lookup_map(s, kv[i].0@);
    }
}

/// A well-formed store carries each key at most once.
proof fn lemma_kv_sorted_distinct_pub(t: TrieDB)
    requires
        t.wf(),
    ensures
        forall|p: int, q: int|
            0 <= p < t.entries_seq().len() && 0 <= q < t.entries_seq().len() && p != q
                ==> t.entries_seq()[p].0@ != t.entries_seq()[q].0@,
{
    lemma_kv_sorted_distinct(t.entries_seq());
}

/// An assertion whose key the proof binds to a different value is detected:
/// the assertions do not hold of the decoded bindings.
pub proof fn lemma_tamper_detected(d: Seq<(Seq<u8>, Seq<u8>)>, kv: Seq<(Vec<u8>, Vec<u8>)>, i: int)
    requires
        0 <= i < kv.len(),
        seq_lookup(d, kv[i].0@) matches Some(v) && v != kv[i].1@,
    ensures
        !assertions_hold(d, kv),
{
    assert(!assertion_ok(d, kv[i]));
}

/// Proof round-trip through the whole middleware stack: a verification
/// request holding a proof the stack produced, the stack's own root, and
/// assertions drawn from the committed bindings is accepted and reported
/// valid.
pub proof fn lemma_stack_proof_round_trip(
    c: crate::middleware::cache::CacheMiddleware<
        crate::middleware::middleware::DBMiddleware<TrieDB>,
    >,
    preq: ProveRequest,
    req: VerifyRequest,
)
    requires
        c.wf(),
        req.proof@ == c.prove_bytes(preq),
        req.expected_root@ == c.root_view(),
        forall|i: int|
            0 <= i < req.kv_seq().len() ==> c.committed().contains_key(
                #[trigger] req.kv_seq()[i].0@,
            ) && c.committed()[req.kv_seq()[i].0@] == req.kv_seq()[i].1@,
    ensures
        c.verify_ok(req),
        c.verify_valid(req),
{
    c.lemma_wf_inner();
    c.spec_inner().lemma_wf_db();
    let t = c.spec_inner().spec_db();
    lemma_proof_round_trip(t, req.kv_seq());
    t.lemma_root_is_encoding();
}

/// Tamper detection through the whole middleware stack: if some assertion
/// contradicts a committed binding, a check of the stack's own proof and
/// root is accepted but reported invalid.
pub proof fn lemma_stack_tamper_detected(
    c: crate::middleware::cache::CacheMiddleware<
        crate::middleware::middleware::DBMiddleware<TrieDB>,
    >,
    preq: ProveRequest,
    req: VerifyRequest,
    i: int,
)
    requires
        c.wf(),
        req.proof@ == c.prove_bytes(preq),
        req.expected_root@ == c.root_view(),
        0 <= i < req.kv_seq().len(),
        c.committed().contains_key(req.kv_seq()[i].0@),
        c.committed()[req.kv_seq()[i].0@] != req.kv_seq()[i].1@,
    ensures
        c.verify_ok(req),
        !c.verify_valid(req),
{
    c.lemma_wf_inner();
    c.spec_inner().lemma_wf_db();
    let t = c.spec_inner().spec_db();
    let s = t.entries_seq();
    let vs = kv_views(s);
    t.lemma_root_is_encoding();
    t.lemma_view_is_entries();
    lemma_kv_sorted_distinct(s);
    assert forall|j: int|
        0 <= j < vs.len() implies (#[trigger] vs[j].0.len()) <= u64::MAX && vs[j].1.len()
        <= u64::MAX by {
        assert(vs[j].0 == s[j].0@ && vs[j].1 == s[j].1@);
        vstd::std_specs::vec::axiom_spec_len(&s[j].0);
        vstd::std_specs::vec::axiom_spec_len(&s[j].1);
    }
    lemma_decode_encode(vs);
    lemma_seq_lookup_map(s, req.kv_seq()[i].0@);
    lemma_tamper_detected(vs, req.kv_seq(), i);
}

} // verus!

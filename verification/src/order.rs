//! Lexicographic ordering of byte-sequence keys, and association lists kept
//! strictly sorted by that order. The write buffer and the assertion set of a
//! verification request both live on these lists, so that draining them
//! yields a deterministic key order.

use vstd::prelude::*;
use core::cmp::Ordering;

verus! {

/// Strict lexicographic order on byte sequences: `a` comes before `b` when at
/// the first differing position `a` holds the smaller byte, or when `a` is a
/// proper prefix of `b`.
pub open spec fn lex_lt(a: Seq<u8>, b: Seq<u8>) -> bool
    decreases a.len(),
{
    if a.len() == 0 {
        b.len() > 0
    } else if b.len() == 0 {
        false
    } else if a[0] < b[0] {
        true
    } else if a[0] > b[0] {
        false
    } else {
        lex_lt(a.drop_first(), b.drop_first())
    }
}

/// No byte sequence comes before itself.
pub proof fn lemma_lex_irrefl(a: Seq<u8>)
    ensures
        !lex_lt(a, a),
    decreases a.len(),
{
    if a.len() > 0 {
        lemma_lex_irrefl(a.drop_first());
    }
}

/// Of two distinct byte sequences, exactly one comes before the other.
pub proof fn lemma_lex_total(a: Seq<u8>, b: Seq<u8>)
    ensures
        lex_lt(a, b) || lex_lt(b, a) || a == b,
        lex_lt(a, b) ==> !lex_lt(b, a) && a != b,
        lex_lt(b, a) ==> !lex_lt(a, b) && a != b,
    decreases a.len(),
{
    lemma_lex_irrefl(a);
    lemma_lex_irrefl(b);
    if a.len() > 0 && b.len() > 0 && a[0] == b[0] {
        lemma_lex_total(a.drop_first(), b.drop_first());
        if a.drop_first() == b.drop_first() {
            assert(a.len() == b.len());
            assert forall|i: int| 0 <= i < a.len() implies a[i] == b[i] by {
                if i > 0 {
                    assert(a[i] == a.drop_first()[i - 1]);
                    assert(b[i] == b.drop_first()[i - 1]);
                }
            }
            assert(a =~= b);
        }
        if a == b {
            assert(a.drop_first() =~= b.drop_first());
        }
    } else {
        if a.len() == 0 && b.len() == 0 {
            assert(a =~= b);
        }
    }
}

/// Lexicographic order is transitive.
pub proof fn lemma_lex_trans(a: Seq<u8>, b: Seq<u8>, c: Seq<u8>)
    requires
        lex_lt(a, b),
        lex_lt(b, c),
    ensures
        lex_lt(a, c),
    decreases a.len(),
{
    if a.len() > 0 && b.len() > 0 && c.len() > 0 && a[0] == b[0] && b[0] == c[0] {
        lemma_lex_trans(a.drop_first(), b.drop_first(), c.drop_first());
    }
}

/// Dropping an equal prefix of length `i` does not change how two byte
/// sequences compare.
pub proof fn lemma_lex_skip(a: Seq<u8>, b: Seq<u8>, i: int)
    requires
        0 <= i <= a.len(),
        i <= b.len(),
        forall|j: int| 0 <= j < i ==> a[j] == b[j],
    ensures
        lex_lt(a, b) == lex_lt(a.skip(i), b.skip(i)),
    decreases i,
{
    if i > 0 {
        assert(lex_lt(a, b) == lex_lt(a.drop_first(), b.drop_first()));
        lemma_lex_skip(a.drop_first(), b.drop_first(), i - 1);
        assert(a.drop_first().skip(i - 1) =~= a.skip(i));
        assert(b.drop_first().skip(i - 1) =~= b.skip(i));
    } else {
        assert(a.skip(0) =~= a);
        assert(b.skip(0) =~= b);
    }
}

/// Three-way comparison of byte keys, consistent with `lex_lt`.
pub fn bytes_cmp(a: &Vec<u8>, b: &Vec<u8>) -> (o: Ordering)
    ensures
        o == Ordering::Less <==> lex_lt(a@, b@),
        o == Ordering::Equal <==> a@ == b@,
        o == Ordering::Greater <==> lex_lt(b@, a@),
{
    proof {
        lemma_lex_total(a@, b@);
    }
    let mut i: usize = 0;
    loop
        invariant
            i <= a@.len(),
            i <= b@.len(),
            forall|j: int| 0 <= j < i ==> a@[j] == b@[j],
        decreases a@.len() - i,
    {
        proof {
            lemma_lex_skip(a@, b@, i as int);
            lemma_lex_skip(b@, a@, i as int);
        }
        if i == a.len() && i == b.len() {
            proof {
                assert(a@ =~= b@);
            }
            return Ordering::Equal;
        }
        if i == a.len() {
            assert(lex_lt(a@.skip(i as int), b@.skip(i as int)));
            return Ordering::Less;
        }
        if i == b.len() {
            assert(lex_lt(b@.skip(i as int), a@.skip(i as int)));
            return Ordering::Greater;
        }
        let x = a[i];
        let y = b[i];
        if x < y {
            assert(a@.skip(i as int)[0] == x && b@.skip(i as int)[0] == y);
            assert(lex_lt(a@.skip(i as int), b@.skip(i as int)));
            return Ordering::Less;
        }
        if x > y {
            assert(b@.skip(i as int)[0] == y && a@.skip(i as int)[0] == x);
            assert(lex_lt(b@.skip(i as int), a@.skip(i as int)));
            return Ordering::Greater;
        }
        i = i + 1;
    }
}

/// Whether some entry of `s` carries the key `k`.
pub open spec fn kv_has_key<V>(s: Seq<(Vec<u8>, V)>, k: Seq<u8>) -> bool {
    exists|i: int| 0 <= i < s.len() && s[i].0@ == k
}

/// The index of the entry carrying key `k` (meaningful when the keys of `s`
/// are distinct and `k` occurs).
pub open spec fn kv_index_of<V>(s: Seq<(Vec<u8>, V)>, k: Seq<u8>) -> int {
    choose|i: int| 0 <= i < s.len() && s[i].0@ == k
}

/// The mapping an association list denotes.
pub open spec fn kv_map<V>(s: Seq<(Vec<u8>, V)>) -> Map<Seq<u8>, V> {
    Map::new(|k: Seq<u8>| kv_has_key(s, k), |k: Seq<u8>| s[kv_index_of(s, k)].1)
}

/// Whether the keys of `s` are strictly ascending (hence unique).
pub open spec fn kv_sorted<V>(s: Seq<(Vec<u8>, V)>) -> bool {
    forall|i: int, j: int| 0 <= i < j < s.len() ==> lex_lt(s[i].0@, s[j].0@)
}

/// Sorted lists carry each key at most once.
pub proof fn lemma_kv_sorted_distinct<V>(s: Seq<(Vec<u8>, V)>)
    requires
        kv_sorted(s),
    ensures
        forall|i: int, j: int|
            0 <= i < s.len() && 0 <= j < s.len() && i != j ==> s[i].0@ != s[j].0@,
{
    assert forall|i: int, j: int|
        0 <= i < s.len() && 0 <= j < s.len() && i != j implies s[i].0@ != s[j].0@ by {
        if i < j {
            lemma_lex_total(s[i].0@, s[j].0@);
        } else {
            lemma_lex_total(s[j].0@, s[i].0@);
        }
    }
}

/// With distinct keys, the entry at `i` is what the denoted mapping returns
/// for its key.
pub proof fn lemma_kv_map_at<V>(s: Seq<(Vec<u8>, V)>, i: int)
    requires
        forall|p: int, q: int|
            0 <= p < s.len() && 0 <= q < s.len() && p != q ==> s[p].0@ != s[q].0@,
        0 <= i < s.len(),
    ensures
        kv_map(s).contains_key(s[i].0@),
        kv_map(s)[s[i].0@] == s[i].1,
{
    assert(kv_has_key(s, s[i].0@));
    let j = kv_index_of(s, s[i].0@);
    assert(0 <= j < s.len() && s[j].0@ == s[i].0@);
    assert(j == i);
}

/// Looks up the position of key `k` in `entries`.
pub fn kv_find<V>(entries: &Vec<(Vec<u8>, V)>, k: &Vec<u8>) -> (r: Option<usize>)
    ensures
        match r {
            Some(i) => i < entries@.len() && entries@[i as int].0@ == k@ && forall|j: int|
                0 <= j < i ==> entries@[j].0@ != k@,
            None => !kv_has_key(entries@, k@),
        },
{
    let n = entries.len();
    let mut i: usize = 0;
    while i < n
        invariant
            n == entries@.len(),
            i <= n,
            forall|j: int| 0 <= j < i ==> entries@[j].0@ != k@,
        decreases n - i,
    {
        let o = bytes_cmp(&entries[i].0, k);
        match o {
            Ordering::Equal => {
                return Some(i);
            },
            _ => {},
        }
        i = i + 1;
    }
    None
}

/// The position where key `k` belongs in the sorted list `entries`: every
/// earlier key is smaller, and the key standing there (if any) is not.
fn kv_position<V>(entries: &Vec<(Vec<u8>, V)>, k: &Vec<u8>) -> (i: usize)
    requires
        kv_sorted(entries@),
    ensures
        i <= entries@.len(),
        forall|j: int| 0 <= j < i ==> lex_lt(entries@[j].0@, k@),
        i < entries@.len() ==> !lex_lt(entries@[i as int].0@, k@),
{
    let n = entries.len();
    let mut i: usize = 0;
    while i < n
        invariant
            n == entries@.len(),
            i <= n,
            forall|j: int| 0 <= j < i ==> lex_lt(entries@[j].0@, k@),
        decreases n - i,
    {
        let o = bytes_cmp(&entries[i].0, k);
        match o {
            Ordering::Less => {},
            _ => {
                proof {
                    lemma_lex_total(entries@[i as int].0@, k@);
                }
                return i;
            },
        }
        i = i + 1;
    }
    i
}

/// Inserts `v` under `k`, replacing any entry already carrying `k` and
/// keeping the list sorted.
pub fn kv_insert<V>(entries: &mut Vec<(Vec<u8>, V)>, k: Vec<u8>, v: V)
    requires
        kv_sorted(old(entries)@),
    ensures
        kv_sorted(final(entries)@),
        kv_map(final(entries)@) == kv_map(old(entries)@).insert(k@, v),
{
    let ghost gk: Seq<u8> = k@;
    let ghost prev = entries@;
    let i = kv_position(entries, &k);
    let n = entries.len();
    let replace: bool = if i < n {
        let o = bytes_cmp(&entries[i].0, &k);
        match o {
            Ordering::Equal => true,
            _ => false,
        }
    } else {
        false
    };
    if replace {
        proof {
            lemma_kv_sorted_distinct(prev);
        }
        let _old_entry = entries.remove(i);
        entries.insert(i, (k, v));
        proof {
            let s2 = entries@;
            assert(s2 =~= prev.update(i as int, (s2[i as int].0, s2[i as int].1)));
            assert(s2[i as int].0@ == gk);
            assert forall|p: int, q: int| 0 <= p < q < s2.len() implies lex_lt(
                s2[p].0@,
                s2[q].0@,
            ) by {
                assert(p == i || s2[p] == prev[p]);
                assert(q == i || s2[q] == prev[q]);
                assert(prev[i as int].0@ == gk);
            }
            lemma_kv_sorted_distinct(s2);
            assert(kv_map(s2) =~= kv_map(prev).insert(gk, s2[i as int].1)) by {
                assert forall|kk: Seq<u8>| true implies #[trigger] kv_has_key(s2, kk)
                    == kv_has_key(prev, kk) by {
                    if kv_has_key(s2, kk) {
                        let j = kv_index_of(s2, kk);
                        assert(0 <= j < s2.len() && s2[j].0@ == kk);
                        assert(prev[j].0@ == kk);
                    }
                    if kv_has_key(prev, kk) {
                        let j = kv_index_of(prev, kk);
                        assert(0 <= j < prev.len() && prev[j].0@ == kk);
                        assert(s2[j].0@ == kk);
                    }
                }
                assert(kv_has_key(prev, gk));
                assert forall|kk: Seq<u8>| kv_map(s2).contains_key(kk) implies kv_map(s2)[kk]
                    == kv_map(prev).insert(gk, s2[i as int].1)[kk] by {
                    let j = kv_index_of(s2, kk);
                    assert(0 <= j < s2.len() && s2[j].0@ == kk);
                    lemma_kv_map_at(s2, j);
                    if kk == gk {
                        assert(j == i);
                    } else {
                        assert(j != i);
                        assert(prev[j] == s2[j]);
                        lemma_kv_map_at(prev, j);
                    }
                }
            }
        }
    } else {
        proof {
            lemma_kv_sorted_distinct(prev);
            if i < prev.len() {
                lemma_lex_total(prev[i as int].0@, gk);
            }
            assert forall|j: int| i <= j < prev.len() implies lex_lt(gk, prev[j].0@) by {
                if j > i {
                    lemma_lex_trans(gk, prev[i as int].0@, prev[j].0@);
                }
            }
        }
        entries.insert(i, (k, v));
        proof {
            let s2 = entries@;
            assert(s2 =~= prev.insert(i as int, (s2[i as int].0, s2[i as int].1)));
            assert(s2[i as int].0@ == gk);
            assert forall|p: int, q: int| 0 <= p < q < s2.len() implies lex_lt(
                s2[p].0@,
                s2[q].0@,
            ) by {
                assert(p < i ==> s2[p] == prev[p]);
                assert(p > i ==> s2[p] == prev[p - 1]);
                assert(q < i ==> s2[q] == prev[q]);
                assert(q > i ==> s2[q] == prev[q - 1]);
            }
            lemma_kv_sorted_distinct(s2);
            assert(kv_map(s2) =~= kv_map(prev).insert(gk, s2[i as int].1)) by {
                assert forall|kk: Seq<u8>| true implies #[trigger] kv_has_key(s2, kk) == (
                kv_has_key(prev, kk) || kk == gk) by {
                    if kv_has_key(prev, kk) {
                        let j = kv_index_of(prev, kk);
                        assert(0 <= j < prev.len() && prev[j].0@ == kk);
                        if j < i {
                            assert(s2[j].0@ == kk);
                        } else {
                            assert(s2[j + 1].0@ == kk);
                        }
                    }
                    if kv_has_key(s2, kk) && kk != gk {
                        let j = kv_index_of(s2, kk);
                        assert(0 <= j < s2.len() && s2[j].0@ == kk);
                        assert(j != i);
                        if j < i {
                            assert(prev[j].0@ == kk);
                        } else {
                            assert(prev[j - 1].0@ == kk);
                        }
                    }
                }
                assert forall|kk: Seq<u8>| kv_map(s2).contains_key(kk) implies kv_map(s2)[kk]
                    == kv_map(prev).insert(gk, s2[i as int].1)[kk] by {
                    let j = kv_index_of(s2, kk);
                    assert(0 <= j < s2.len() && s2[j].0@ == kk);
                    lemma_kv_map_at(s2, j);
                    if kk == gk {
                        assert(j == i);
                    } else {
                        assert(j != i);
                        if j < i {
                            assert(prev[j] == s2[j]);
                            lemma_kv_map_at(prev, j);
                        } else {
                            assert(prev[j - 1] == s2[j]);
                            lemma_kv_map_at(prev, j - 1);
                        }
                    }
                }
            }
        }
    }
}

/// Removes the entry carrying `k`, if any, keeping the list sorted.
pub fn kv_remove<V>(entries: &mut Vec<(Vec<u8>, V)>, k: &Vec<u8>)
    requires
        kv_sorted(old(entries)@),
    ensures
        kv_sorted(final(entries)@),
        kv_map(final(entries)@) == kv_map(old(entries)@).remove(k@),
{
    let ghost prev = entries@;
    let found = kv_find(entries, k);
    match found {
        Some(i) => {
            proof {
                lemma_kv_sorted_distinct(prev);
            }
            let _old_entry = entries.remove(i);
            proof {
                let s2 = entries@;
                assert(s2 =~= prev.remove(i as int));
                assert forall|p: int, q: int| 0 <= p < q < s2.len() implies lex_lt(
                    s2[p].0@,
                    s2[q].0@,
                ) by {
                    assert(s2[p] == if p < i { prev[p] } else { prev[p + 1] });
                    assert(s2[q] == if q < i { prev[q] } else { prev[q + 1] });
                }
                lemma_kv_sorted_distinct(s2);
                assert(kv_map(s2) =~= kv_map(prev).remove(k@)) by {
                    assert forall|kk: Seq<u8>| true implies #[trigger] kv_has_key(s2, kk) == (
                    kv_has_key(prev, kk) && kk != k@) by {
                        if kv_has_key(s2, kk) {
                            let j = kv_index_of(s2, kk);
                            assert(0 <= j < s2.len() && s2[j].0@ == kk);
                            if j < i {
                                assert(prev[j].0@ == kk);
                            } else {
                                assert(prev[j + 1].0@ == kk);
                            }
                        }
                        if kv_has_key(prev, kk) && kk != k@ {
                            let j = kv_index_of(prev, kk);
                            assert(0 <= j < prev.len() && prev[j].0@ == kk);
                            assert(j != i);
                            if j < i {
                                assert(s2[j].0@ == kk);
                            } else {
                                assert(s2[j - 1].0@ == kk);
                            }
                        }
                    }
                    assert forall|kk: Seq<u8>| kv_map(s2).contains_key(kk) implies kv_map(s2)[kk]
                        == kv_map(prev).remove(k@)[kk] by {
                        let j = kv_index_of(s2, kk);
                        assert(0 <= j < s2.len() && s2[j].0@ == kk);
                        lemma_kv_map_at(s2, j);
                        if j < i {
                            assert(prev[j] == s2[j]);
                            lemma_kv_map_at(prev, j);
                        } else {
                            assert(prev[j + 1] == s2[j]);
                            lemma_kv_map_at(prev, j + 1);
                        }
                    }
                }
            }
        },
        None => {
            proof {
                assert(kv_map(prev).remove(k@) =~= kv_map(prev));
            }
        },
    }
}

/// With distinct keys, an association list denotes its front part's mapping
/// updated by its last entry.
pub proof fn lemma_kv_map_snoc<V>(s: Seq<(Vec<u8>, V)>)
    requires
        s.len() > 0,
        forall|p: int, q: int|
            0 <= p < s.len() && 0 <= q < s.len() && p != q ==> s[p].0@ != s[q].0@,
    ensures
        kv_map(s) == kv_map(s.drop_last()).insert(s.last().0@, s.last().1),
{
    let d = s.drop_last();
    let n = s.len() - 1;
    assert(kv_map(s) =~= kv_map(d).insert(s.last().0@, s.last().1)) by {
        assert forall|kk: Seq<u8>| true implies #[trigger] kv_has_key(s, kk) == (kv_has_key(d, kk)
            || kk == s.last().0@) by {
            if kv_has_key(s, kk) {
                let j = kv_index_of(s, kk);
                assert(0 <= j < s.len() && s[j].0@ == kk);
                if j < n {
                    assert(d[j].0@ == kk);
                }
            }
            if kv_has_key(d, kk) {
                let j = kv_index_of(d, kk);
                assert(0 <= j < d.len() && d[j].0@ == kk);
                assert(s[j].0@ == kk);
            }
        }
        assert forall|kk: Seq<u8>| kv_map(s).contains_key(kk) implies kv_map(s)[kk] == kv_map(
            d,
        ).insert(s.last().0@, s.last().1)[kk] by {
            let j = kv_index_of(s, kk);
            assert(0 <= j < s.len() && s[j].0@ == kk);
            lemma_kv_map_at(s, j);
            if kk == s.last().0@ {
                assert(j == n);
            } else {
                assert(j != n);
                assert(d[j] == s[j]);
                lemma_kv_map_at(d, j);
            }
        }
    }
}

/// The view of an optional value.
pub open spec fn opt_view(o: Option<Vec<u8>>) -> Option<Seq<u8>> {
    match o {
        Some(v) => Some(v@),
        None => None,
    }
}

/// The mapping `m` with every value replaced by its view.
pub open spec fn view_values(m: Map<Seq<u8>, Vec<u8>>) -> Map<Seq<u8>, Seq<u8>> {
    Map::new(|k: Seq<u8>| m.contains_key(k), |k: Seq<u8>| m[k]@)
}

/// Taking views commutes with binding a key.
pub proof fn lemma_view_values_insert(m: Map<Seq<u8>, Vec<u8>>, k: Seq<u8>, v: Vec<u8>)
    ensures
        view_values(m.insert(k, v)) == view_values(m).insert(k, v@),
{
    assert(view_values(m.insert(k, v)) =~= view_values(m).insert(k, v@));
}

/// Taking views commutes with unbinding a key.
pub proof fn lemma_view_values_remove(m: Map<Seq<u8>, Vec<u8>>, k: Seq<u8>)
    ensures
        view_values(m.remove(k)) == view_values(m).remove(k),
{
    assert(view_values(m.remove(k)) =~= view_values(m).remove(k));
}

/// The mapping `m` with every optional value replaced by its view.
pub open spec fn opt_values(m: Map<Seq<u8>, Option<Vec<u8>>>) -> Map<Seq<u8>, Option<Seq<u8>>> {
    Map::new(|k: Seq<u8>| m.contains_key(k), |k: Seq<u8>| opt_view(m[k]))
}

/// Taking views commutes with binding a key.
pub proof fn lemma_opt_values_insert(m: Map<Seq<u8>, Option<Vec<u8>>>, k: Seq<u8>, v: Option<
    Vec<u8>,
>)
    ensures
        opt_values(m.insert(k, v)) == opt_values(m).insert(k, opt_view(v)),
{
    assert(opt_values(m.insert(k, v)) =~= opt_values(m).insert(k, opt_view(v)));
}

} // verus!

//! The mathematical model of a tree.
//!
//! Logically a tree is the map from 32-byte leaf keys to 32-byte leaf
//! values; its Merkle root is a function of that map alone.  A batch of
//! updates acts on the map pair by pair, in order: a pair with the all-zero
//! value deletes its key, any other pair overwrites it, and the later of two
//! pairs with the same key wins.

use crate::structures::Pair;
use vstd::prelude::*;

verus! {

/// The all-zero 32-byte string: the value of an absent leaf, and the root of
/// an empty tree.
pub open spec fn zero32() -> Seq<u8> {
    Seq::new(32, |i: int| 0u8)
}

/// The leaf map of an empty tree.
pub open spec fn empty_leaves() -> Map<Seq<u8>, Seq<u8>> {
    Map::empty()
}

/// The key bytes of one update pair.
pub open spec fn key_of(p: Pair) -> Seq<u8> {
    p.key.0@
}

/// The value bytes of one update pair.
pub open spec fn val_of(p: Pair) -> Seq<u8> {
    p.value.0@
}

/// One update applied to the leaf map: a zero value deletes the key, any
/// other value overwrites it.
pub open spec fn apply_pair(m: Map<Seq<u8>, Seq<u8>>, p: Pair) -> Map<Seq<u8>, Seq<u8>> {
    if val_of(p) == zero32() {
        m.remove(key_of(p))
    } else {
        m.insert(key_of(p), val_of(p))
    }
}

/// A batch of updates applied to the leaf map, first pair first.
pub open spec fn apply_pairs(m: Map<Seq<u8>, Seq<u8>>, ps: Seq<Pair>) -> Map<Seq<u8>, Seq<u8>>
    decreases ps.len(),
{
    if ps.len() == 0 {
        m
    } else {
        apply_pair(apply_pairs(m, ps.drop_last()), ps.last())
    }
}

/// What the last pair of `ps` with key `k` writes: `None` when no pair
/// carries `k`, `Some(None)` when the last such pair deletes it, and
/// `Some(Some(v))` when the last such pair writes `v`.
pub open spec fn last_write(ps: Seq<Pair>, k: Seq<u8>) -> Option<Option<Seq<u8>>>
    decreases ps.len(),
{
    if ps.len() == 0 {
        None
    } else if key_of(ps.last()) == k {
        if val_of(ps.last()) == zero32() {
            Some(None)
        } else {
            Some(Some(val_of(ps.last())))
        }
    } else {
        last_write(ps.drop_last(), k)
    }
}

/// Whether some pair of `ps` carries key `k`.
pub open spec fn touches(ps: Seq<Pair>, k: Seq<u8>) -> bool {
    last_write(ps, k) is Some
}

/// What a batch leaves at one key: an untouched key keeps its old binding,
/// a touched key holds exactly what its last write says.
pub proof fn lemma_apply_pairs_at(m: Map<Seq<u8>, Seq<u8>>, ps: Seq<Pair>, k: Seq<u8>)
    ensures
        match last_write(ps, k) {
            Option::None => {
                &&& apply_pairs(m, ps).contains_key(k) == m.contains_key(k)
                &&& (m.contains_key(k) ==> apply_pairs(m, ps)[k] == m[k])
            },
            Option::Some(w) => match w {
                Option::None => !apply_pairs(m, ps).contains_key(k),
                Option::Some(v) => apply_pairs(m, ps).contains_key(k) && apply_pairs(m, ps)[k]
                    == v,
            },
        },
    decreases ps.len(),
{
    if ps.len() == 0 {
    } else {
        lemma_apply_pairs_at(m, ps.drop_last(), k);
    }
}

/// Appending batches is the same as applying them one after the other.
pub proof fn lemma_apply_pairs_concat(m: Map<Seq<u8>, Seq<u8>>, a: Seq<Pair>, b: Seq<Pair>)
    ensures
        apply_pairs(m, a + b) == apply_pairs(apply_pairs(m, a), b),
    decreases b.len(),
{
    if b.len() == 0 {
        assert(a + b =~= a);
    } else {
        lemma_apply_pairs_concat(m, a, b.drop_last());
        assert((a + b).drop_last() =~= a + b.drop_last());
        assert((a + b).last() == b.last());
    }
}

/// The last write of an appended batch: the second batch wins wherever it
/// touches the key.
pub proof fn lemma_last_write_concat(a: Seq<Pair>, b: Seq<Pair>, k: Seq<u8>)
    ensures
        last_write(a + b, k) == if last_write(b, k) is Some {
            last_write(b, k)
        } else {
            last_write(a, k)
        },
    decreases b.len(),
{
    if b.len() == 0 {
        assert(a + b =~= a);
    } else {
        lemma_last_write_concat(a, b.drop_last(), k);
        assert((a + b).drop_last() =~= a + b.drop_last());
        assert((a + b).last() == b.last());
    }
}

/// A batch touches a key exactly when one of its pairs carries it.
pub proof fn lemma_touches_iff(ps: Seq<Pair>, k: Seq<u8>)
    ensures
        touches(ps, k) <==> exists|i: int| 0 <= i < ps.len() && #[trigger] key_of(ps[i]) == k,
    decreases ps.len(),
{
    if ps.len() == 0 {
    } else {
        lemma_touches_iff(ps.drop_last(), k);
        if key_of(ps.last()) == k {
            assert(key_of(ps[ps.len() - 1]) == k);
        } else {
            if touches(ps, k) {
                let i = choose|i: int|
                    0 <= i < ps.drop_last().len() && #[trigger] key_of(ps.drop_last()[i]) == k;
                assert(key_of(ps[i]) == k);
            }
            if exists|i: int| 0 <= i < ps.len() && #[trigger] key_of(ps[i]) == k {
                let i = choose|i: int| 0 <= i < ps.len() && #[trigger] key_of(ps[i]) == k;
                assert(i < ps.len() - 1);
                assert(key_of(ps.drop_last()[i]) == k);
            }
        }
    }
}

/// In a batch of all-zero values the last write of any key, if any, is a
/// deletion.
pub proof fn lemma_all_zero_last_write(ps: Seq<Pair>, k: Seq<u8>)
    requires
        forall|i: int| 0 <= i < ps.len() ==> val_of(#[trigger] ps[i]) == zero32(),
    ensures
        last_write(ps, k) matches Some(w) ==> w is None,
    decreases ps.len(),
{
    if ps.len() == 0 {
    } else {
        assert(val_of(ps[ps.len() - 1]) == zero32());
        assert(forall|i: int|
            0 <= i < ps.drop_last().len() ==> val_of(#[trigger] ps.drop_last()[i]) == zero32());
        lemma_all_zero_last_write(ps.drop_last(), k);
    }
}

/// Whether no key occurs in both batches.
pub open spec fn keys_disjoint(a: Seq<Pair>, b: Seq<Pair>) -> bool {
    forall|i: int, j: int|
        0 <= i < a.len() && 0 <= j < b.len() ==> key_of(#[trigger] a[i]) != key_of(
            #[trigger] b[j],
        )
}

/// Key-disjoint batches can be applied in either order: the leaf maps come
/// out equal.
pub proof fn lemma_apply_disjoint_commutes(m: Map<Seq<u8>, Seq<u8>>, a: Seq<Pair>, b: Seq<Pair>)
    requires
        keys_disjoint(a, b),
    ensures
        apply_pairs(m, a + b) == apply_pairs(m, b + a),
{
    let lhs = apply_pairs(m, a + b);
    let rhs = apply_pairs(m, b + a);
    assert forall|k: Seq<u8>| #[trigger] lhs.contains_key(k) == rhs.contains_key(k) && (
    lhs.contains_key(k) ==> lhs[k] == rhs[k]) by {
        lemma_one_key_both_orders(m, a, b, k);
    }
    assert(lhs =~= rhs);
}

/// At any one key, key-disjoint batches agree in both orders.
proof fn lemma_one_key_both_orders(m: Map<Seq<u8>, Seq<u8>>, a: Seq<Pair>, b: Seq<Pair>, k: Seq<u8>)
    requires
        keys_disjoint(a, b),
    ensures
        apply_pairs(m, a + b).contains_key(k) == apply_pairs(m, b + a).contains_key(k),
        apply_pairs(m, a + b).contains_key(k) ==> apply_pairs(m, a + b)[k] == apply_pairs(
            m,
            b + a,
        )[k],
{
    lemma_apply_pairs_at(m, a + b, k);
    lemma_apply_pairs_at(m, b + a, k);
    lemma_last_write_concat(a, b, k);
    lemma_last_write_concat(b, a, k);
    lemma_touches_iff(a, k);
    lemma_touches_iff(b, k);
    if touches(a, k) && touches(b, k) {
        let i = choose|i: int| 0 <= i < a.len() && #[trigger] key_of(a[i]) == k;
        let j = choose|j: int| 0 <= j < b.len() && #[trigger] key_of(b[j]) == k;
        assert(false);
    }
}

/// Writing the zero value under a key the tree does not hold leaves the
/// leaf map unchanged.
pub proof fn lemma_insert_zero_absent(m: Map<Seq<u8>, Seq<u8>>, p: Pair)
    requires
        val_of(p) == zero32(),
        !m.contains_key(key_of(p)),
    ensures
        apply_pairs(m, seq![p]) == m,
{
    lemma_apply_singleton(m, p);
    assert(m.remove(key_of(p)) =~= m);
}

/// A one-pair batch is that pair applied once.
pub proof fn lemma_apply_singleton(m: Map<Seq<u8>, Seq<u8>>, p: Pair)
    ensures
        apply_pairs(m, seq![p]) == apply_pair(m, p),
{
    let s1 = seq![p];
    assert(s1.len() == 1);
    assert(apply_pairs(m, s1) == apply_pair(apply_pairs(m, s1.drop_last()), s1.last()));
    assert(s1.drop_last() =~= Seq::<Pair>::empty());
    assert(apply_pairs(m, s1.drop_last()) == apply_pairs(m, Seq::<Pair>::empty()));
    assert(apply_pairs(m, Seq::<Pair>::empty()) == m);
    assert(s1.last() == p);
}

/// Writing a value under a key and then the zero value under the same key
/// leaves the map as if the key was never written.
pub proof fn lemma_insert_then_zero(m: Map<Seq<u8>, Seq<u8>>, p: Pair, q: Pair)
    requires
        key_of(q) == key_of(p),
        val_of(q) == zero32(),
        !m.contains_key(key_of(p)),
    ensures
        apply_pairs(m, seq![p, q]) == m,
{
    let ps = seq![p, q];
    assert(ps.len() == 2);
    assert(ps.last() == q);
    assert(ps.drop_last() =~= seq![p]);
    lemma_apply_singleton(m, p);
    assert(apply_pairs(m, ps) == apply_pair(apply_pairs(m, ps.drop_last()), ps.last()));
    assert(apply_pairs(m, ps) == apply_pair(apply_pair(m, p), q));
    assert(apply_pair(apply_pair(m, p), q) =~= m);
}

/// A batch of deletions that covers every key of the map empties it.
pub proof fn lemma_wipe_clears(m: Map<Seq<u8>, Seq<u8>>, ps: Seq<Pair>)
    requires
        forall|i: int| 0 <= i < ps.len() ==> val_of(#[trigger] ps[i]) == zero32(),
        forall|k: Seq<u8>| #[trigger] m.contains_key(k) ==> exists|i: int|
            0 <= i < ps.len() && key_of(#[trigger] ps[i]) == k,
    ensures
        apply_pairs(m, ps) == empty_leaves(),
{
    let out = apply_pairs(m, ps);
    assert forall|k: Seq<u8>| !(#[trigger] out.contains_key(k)) by {
        lemma_apply_pairs_at(m, ps, k);
        lemma_all_zero_last_write(ps, k);
        lemma_touches_iff(ps, k);
        if last_write(ps, k) is None {
            if m.contains_key(k) {
                let i = choose|i: int| 0 <= i < ps.len() && key_of(#[trigger] ps[i]) == k;
                assert(touches(ps, k));
            }
        }
    }
    assert(out =~= empty_leaves());
}

/// A batch of deletions applied to the empty map leaves it empty: wiping a
/// wiped tree changes nothing.
pub proof fn lemma_wipe_on_empty(ps: Seq<Pair>)
    requires
        forall|i: int| 0 <= i < ps.len() ==> val_of(#[trigger] ps[i]) == zero32(),
    ensures
        apply_pairs(empty_leaves(), ps) == empty_leaves(),
{
    lemma_wipe_clears(empty_leaves(), ps);
}

/// The flattening of a split batch, chunk order kept.
pub open spec fn flat_chunks(cs: Seq<Seq<Pair>>) -> Seq<Pair>
    decreases cs.len(),
{
    if cs.len() == 0 {
        Seq::empty()
    } else {
        flat_chunks(cs.drop_last()) + cs.last()
    }
}

/// A split batch applied chunk by chunk, first chunk first.
pub open spec fn apply_chunks(m: Map<Seq<u8>, Seq<u8>>, cs: Seq<Seq<Pair>>) -> Map<Seq<u8>, Seq<u8>>
    decreases cs.len(),
{
    if cs.len() == 0 {
        m
    } else {
        apply_pairs(apply_chunks(m, cs.drop_last()), cs.last())
    }
}

/// Applying a batch chunk by chunk ends at the same leaf map as applying
/// it whole: splitting a batch into sub-transactions does not change the
/// final tree.
pub proof fn lemma_chunked_apply(m: Map<Seq<u8>, Seq<u8>>, cs: Seq<Seq<Pair>>)
    ensures
        apply_chunks(m, cs) == apply_pairs(m, flat_chunks(cs)),
    decreases cs.len(),
{
    if cs.len() == 0 {
    } else {
        lemma_chunked_apply(m, cs.drop_last());
        lemma_apply_pairs_concat(m, flat_chunks(cs.drop_last()), cs.last());
    }
}

/// One more pair of a batch applied on top of the prefix before it: the
/// state after pair `i` of a sequenced update is the state after pairs
/// `0..i` with pair `i` applied.
pub proof fn lemma_apply_prefix(m: Map<Seq<u8>, Seq<u8>>, ps: Seq<Pair>, i: int)
    requires
        0 <= i < ps.len(),
    ensures
        apply_pairs(m, ps.take(i + 1)) == apply_pair(apply_pairs(m, ps.take(i)), ps[i]),
{
    assert(ps.take(i + 1).drop_last() =~= ps.take(i));
    assert(ps.take(i + 1).last() == ps[i]);
}

} // verus!

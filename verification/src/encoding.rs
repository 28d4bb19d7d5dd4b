//! The multi-tree encoding layer.
//!
//! Many independent trees share one ordered byte-keyed store.  Every record
//! of a tree lives under that tree's name, used as a raw byte prefix.  A
//! leaf record's physical key is the prefix followed by the 32 leaf key
//! bytes; a branch record's physical key is the prefix, a reserved 0xFF
//! tag, the branch height and the 32 node hash bytes.  The two families
//! differ in length under one prefix, so prefix iteration can tell leaves
//! from branches.

use crate::structures::SmtKey;
use vstd::prelude::*;

verus! {

/// The reserved tag that opens a branch record's suffix.
pub open spec fn branch_tag() -> u8 {
    255u8
}

/// The physical key of a leaf record: prefix, then the leaf key bytes.
pub open spec fn spec_leaf_key(prefix: Seq<u8>, key: Seq<u8>) -> Seq<u8> {
    prefix + key
}

/// The physical key of a branch record: prefix, tag, height, node hash.
pub open spec fn spec_branch_key(prefix: Seq<u8>, height: u8, node_hash: Seq<u8>) -> Seq<u8> {
    prefix + seq![branch_tag(), height] + node_hash
}

/// Builds the physical key of a leaf record.
pub fn leaf_physical_key(prefix: &Vec<u8>, key: &SmtKey) -> (r: Vec<u8>)
    ensures
        r@ == spec_leaf_key(prefix@, key.0@),
{
    let mut r: Vec<u8> = Vec::new();
    let n = prefix.len();
    let mut i: usize = 0;
    while i < n
        invariant
            n == prefix@.len(),
            i <= n,
            r@ =~= prefix@.take(i as int),
        decreases n - i,
    {
        r.push(prefix[i]);
        i += 1;
    }
    proof {
        assert(r@ =~= prefix@);
    }
    let mut j: usize = 0;
    while j < 32
        invariant
            j <= 32,
            r@ =~= prefix@ + key.0@.take(j as int),
        decreases 32 - j,
    {
        r.push(key.0[j]);
        j += 1;
    }
    proof {
        assert(r@ =~= spec_leaf_key(prefix@, key.0@));
    }
    r
}

/// Builds the physical key of a branch record.
pub fn branch_physical_key(prefix: &Vec<u8>, height: u8, node_hash: &SmtKey) -> (r: Vec<u8>)
    ensures
        r@ == spec_branch_key(prefix@, height, node_hash.0@),
{
    let mut r: Vec<u8> = Vec::new();
    let n = prefix.len();
    let mut i: usize = 0;
    while i < n
        invariant
            n == prefix@.len(),
            i <= n,
            r@ =~= prefix@.take(i as int),
        decreases n - i,
    {
        r.push(prefix[i]);
        i += 1;
    }
    r.push(255u8);
    r.push(height);
    proof {
        assert(r@ =~= prefix@ + seq![branch_tag(), height]);
    }
    let mut j: usize = 0;
    while j < 32
        invariant
            j <= 32,
            r@ =~= prefix@ + seq![branch_tag(), height] + node_hash.0@.take(j as int),
        decreases 32 - j,
    {
        r.push(node_hash.0[j]);
        j += 1;
    }
    proof {
        assert(r@ =~= spec_branch_key(prefix@, height, node_hash.0@));
    }
    r
}

/// Whether `a` begins with `p`.
pub fn bytes_starts_with(a: &Vec<u8>, p: &Vec<u8>) -> (r: bool)
    ensures
        r <==> (a@.len() >= p@.len() && a@.take(p@.len() as int) == p@),
{
    let np = p.len();
    if a.len() < np {
        return false;
    }
    let mut i: usize = 0;
    while i < np
        invariant
            np == p@.len(),
            a@.len() >= np,
            i <= np,
            forall|j: int| 0 <= j < i ==> a@[j] == p@[j],
        decreases np - i,
    {
        if a[i] != p[i] {
            proof {
                assert(a@.take(np as int)[i as int] != p@[i as int]);
            }
            return false;
        }
        i += 1;
    }
    proof {
        assert(a@.take(np as int) =~= p@);
    }
    true
}

/// Under one prefix, a leaf record's key never equals a branch record's
/// key: their lengths differ by two.
pub proof fn lemma_leaf_branch_families_distinct(
    prefix: Seq<u8>,
    key: Seq<u8>,
    height: u8,
    node_hash: Seq<u8>,
)
    requires
        key.len() == 32,
        node_hash.len() == 32,
    ensures
        spec_leaf_key(prefix, key) != spec_branch_key(prefix, height, node_hash),
{
    assert(spec_leaf_key(prefix, key).len() == prefix.len() + 32);
    assert(spec_branch_key(prefix, height, node_hash).len() == prefix.len() + 34);
}

/// A leaf record's physical key determines its tree prefix and its leaf
/// key.
pub proof fn lemma_leaf_key_injective(p1: Seq<u8>, k1: Seq<u8>, p2: Seq<u8>, k2: Seq<u8>)
    requires
        k1.len() == 32,
        k2.len() == 32,
        spec_leaf_key(p1, k1) == spec_leaf_key(p2, k2),
    ensures
        p1 == p2,
        k1 == k2,
{
    assert(spec_leaf_key(p1, k1).len() == p1.len() + 32);
    assert(spec_leaf_key(p2, k2).len() == p2.len() + 32);
    assert(p1.len() == p2.len());
    assert(p1 =~= p2) by {
        assert forall|i: int| 0 <= i < p1.len() implies p1[i] == p2[i] by {
            assert(spec_leaf_key(p1, k1)[i] == p1[i]);
            assert(spec_leaf_key(p2, k2)[i] == p2[i]);
        }
    }
    assert(k1 =~= k2) by {
        assert forall|i: int| 0 <= i < 32 implies k1[i] == k2[i] by {
            assert(spec_leaf_key(p1, k1)[p1.len() + i] == k1[i]);
            assert(spec_leaf_key(p2, k2)[p2.len() + i] == k2[i]);
        }
    }
}

/// A branch record's physical key determines its tree prefix, height and
/// node hash.
pub proof fn lemma_branch_key_injective(
    p1: Seq<u8>,
    h1: u8,
    n1: Seq<u8>,
    p2: Seq<u8>,
    h2: u8,
    n2: Seq<u8>,
)
    requires
        n1.len() == 32,
        n2.len() == 32,
        spec_branch_key(p1, h1, n1) == spec_branch_key(p2, h2, n2),
    ensures
        p1 == p2,
        h1 == h2,
        n1 == n2,
{
    assert(spec_branch_key(p1, h1, n1).len() == p1.len() + 34);
    assert(spec_branch_key(p2, h2, n2).len() == p2.len() + 34);
    assert(p1.len() == p2.len());
    assert(p1 =~= p2) by {
        assert forall|i: int| 0 <= i < p1.len() implies p1[i] == p2[i] by {
            assert(spec_branch_key(p1, h1, n1)[i] == p1[i]);
            assert(spec_branch_key(p2, h2, n2)[i] == p2[i]);
        }
    }
    assert(spec_branch_key(p1, h1, n1)[p1.len() + 1int] == h1);
    assert(spec_branch_key(p2, h2, n2)[p2.len() + 1int] == h2);
    assert(n1 =~= n2) by {
        assert forall|i: int| 0 <= i < 32 implies n1[i] == n2[i] by {
            assert(spec_branch_key(p1, h1, n1)[p1.len() + 2 + i] == n1[i]);
            assert(spec_branch_key(p2, h2, n2)[p2.len() + 2 + i] == n2[i]);
        }
    }
}

/// Name isolation: two distinct tree names keep fully disjoint physical
/// key families, as long as neither name is the other followed by the
/// reserved 0xFF tag and one byte.  (A name of that one shape, such as
/// `"t"` against `"t\u{ff}\u{05}"`, is the single exception the raw-prefix
/// layout admits: that longer name's leaf records coincide with the shorter
/// name's branch records.)
pub proof fn lemma_tree_isolation(p1: Seq<u8>, p2: Seq<u8>)
    requires
        p1 != p2,
        forall|b: u8| p1 != p2 + seq![branch_tag(), b],
        forall|b: u8| p2 != p1 + seq![branch_tag(), b],
    ensures
        forall|k1: Seq<u8>, k2: Seq<u8>|
            k1.len() == 32 && k2.len() == 32 ==> #[trigger] spec_leaf_key(p1, k1)
                != #[trigger] spec_leaf_key(p2, k2),
        forall|h1: u8, n1: Seq<u8>, h2: u8, n2: Seq<u8>|
            n1.len() == 32 && n2.len() == 32 ==> #[trigger] spec_branch_key(p1, h1, n1)
                != #[trigger] spec_branch_key(p2, h2, n2),
        forall|k: Seq<u8>, h: u8, n: Seq<u8>|
            k.len() == 32 && n.len() == 32 ==> #[trigger] spec_leaf_key(p1, k)
                != #[trigger] spec_branch_key(p2, h, n),
        forall|k: Seq<u8>, h: u8, n: Seq<u8>|
            k.len() == 32 && n.len() == 32 ==> #[trigger] spec_leaf_key(p2, k)
                != #[trigger] spec_branch_key(p1, h, n),
{
    assert forall|k1: Seq<u8>, k2: Seq<u8>|
        k1.len() == 32 && k2.len() == 32 implies #[trigger] spec_leaf_key(p1, k1)
        != #[trigger] spec_leaf_key(p2, k2) by {
        if spec_leaf_key(p1, k1) == spec_leaf_key(p2, k2) {
            lemma_leaf_key_injective(p1, k1, p2, k2);
        }
    }
    assert forall|h1: u8, n1: Seq<u8>, h2: u8, n2: Seq<u8>|
        n1.len() == 32 && n2.len() == 32 implies #[trigger] spec_branch_key(p1, h1, n1)
        != #[trigger] spec_branch_key(p2, h2, n2) by {
        if spec_branch_key(p1, h1, n1) == spec_branch_key(p2, h2, n2) {
            lemma_branch_key_injective(p1, h1, n1, p2, h2, n2);
        }
    }
    assert forall|k: Seq<u8>, h: u8, n: Seq<u8>|
        k.len() == 32 && n.len() == 32 implies #[trigger] spec_leaf_key(p1, k)
        != #[trigger] spec_branch_key(p2, h, n) by {
        lemma_leaf_cross_branch(p1, p2, k, h, n);
    }
    assert forall|k: Seq<u8>, h: u8, n: Seq<u8>|
        k.len() == 32 && n.len() == 32 implies #[trigger] spec_leaf_key(p2, k)
        != #[trigger] spec_branch_key(p1, h, n) by {
        lemma_leaf_cross_branch(p2, p1, k, h, n);
    }
}

/// A leaf record of tree `pa` never collides with a branch record of tree
/// `pb` unless `pa` is exactly `pb` plus the tag and one byte.
proof fn lemma_leaf_cross_branch(pa: Seq<u8>, pb: Seq<u8>, k: Seq<u8>, h: u8, n: Seq<u8>)
    requires
        k.len() == 32,
        n.len() == 32,
        forall|b: u8| pa != pb + seq![branch_tag(), b],
    ensures
        spec_leaf_key(pa, k) != spec_branch_key(pb, h, n),
{
    if spec_leaf_key(pa, k) == spec_branch_key(pb, h, n) {
        assert(spec_leaf_key(pa, k).len() == pa.len() + 32);
        assert(spec_branch_key(pb, h, n).len() == pb.len() + 34);
        assert(pa.len() + 32 == pb.len() + 34);
        assert(pa =~= pb + seq![branch_tag(), h]) by {
            assert forall|i: int| 0 <= i < pa.len() implies pa[i] == (pb + seq![
                branch_tag(),
                h,
            ])[i] by {
                assert(spec_leaf_key(pa, k)[i] == pa[i]);
                assert(spec_branch_key(pb, h, n)[i] == (pb + seq![branch_tag(), h])[i]);
            }
        }
    }
}

} // verus!

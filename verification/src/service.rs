//! The tree service: the in-process operations behind the RPC surface.
//!
//! `build_memory_smt` builds a fresh in-memory tree from a batch and
//! answers with the root and per-key compiled proofs.  The persistent
//! operations share their computing parts here: splitting a batch into
//! chunks, planning a wipe from iterated store keys, assembling response
//! entries and checking postconditions.  A transport layer owns the
//! network and the backing store and calls down into these functions.

use crate::encoding::bytes_starts_with;
use crate::errors::SmtError;
use crate::model::{
    apply_chunks, apply_pairs, empty_leaves, flat_chunks, key_of, keys_disjoint,
    lemma_apply_disjoint_commutes, lemma_chunked_apply, lemma_insert_then_zero,
    lemma_insert_zero_absent, val_of, zero32,
};
use crate::smt::{
    compiled_proof_of, memory_smt_new, memory_smt_single_proof, memory_smt_update_all, root_of,
    smt_leaves, smt_wf, MemorySmt,
};
use crate::structures::{key_eq, Opt, Pair, Response, SmtKey, SmtProof, SmtRoot, SmtValue};
use crate::utils::{
    bytes32_of_slice, default_merkel_proof, hex_of, lemma_hex_of_injective, slice_to_hex_string,
};
use vstd::prelude::*;

verus! {

/// How many pairs one sub-transaction of a chunked update holds at most.
pub const CHUNK_SIZE: usize = 5000;

/// The key bytes of each pair, in order.
pub open spec fn pair_keys(ps: Seq<Pair>) -> Seq<Seq<u8>> {
    ps.map_values(|p: Pair| key_of(p))
}

/// The byte views of a key list.
pub open spec fn key_views(ks: Seq<SmtKey>) -> Seq<Seq<u8>> {
    ks.map_values(|k: SmtKey| k.0@)
}

/// A key list with every later duplicate dropped: first occurrences, in
/// order.
pub open spec fn spec_dedup(ks: Seq<Seq<u8>>) -> Seq<Seq<u8>>
    decreases ks.len(),
{
    if ks.len() == 0 {
        Seq::empty()
    } else {
        let rest = spec_dedup(ks.drop_last());
        if rest.contains(ks.last()) {
            rest
        } else {
            rest.push(ks.last())
        }
    }
}

/// Deduplication leaves no duplicate behind.
pub proof fn lemma_spec_dedup_distinct(ks: Seq<Seq<u8>>)
    ensures
        forall|i: int, j: int|
            0 <= i < j < spec_dedup(ks).len() ==> #[trigger] spec_dedup(ks)[i]
                != #[trigger] spec_dedup(ks)[j],
    decreases ks.len(),
{
    if ks.len() == 0 {
    } else {
        lemma_spec_dedup_distinct(ks.drop_last());
        let rest = spec_dedup(ks.drop_last());
        if !rest.contains(ks.last()) {
            assert forall|i: int, j: int|
                0 <= i < j < spec_dedup(ks).len() implies #[trigger] spec_dedup(ks)[i]
                != #[trigger] spec_dedup(ks)[j] by {
                if j < rest.len() {
                    assert(rest[i] != rest[j]);
                } else {
                    assert(spec_dedup(ks)[j] == ks.last());
                    assert(spec_dedup(ks)[i] == rest[i]);
                    if rest[i] == ks.last() {
                        assert(rest.contains(ks.last()));
                    }
                }
            }
        }
    }
}

/// Whether some key of the list holds these bytes.
fn contains_key_bytes(keys: &Vec<SmtKey>, k: &SmtKey) -> (r: bool)
    ensures
        r <==> key_views(keys@).contains(k.0@),
{
    let n = keys.len();
    let mut i: usize = 0;
    while i < n
        invariant
            n == keys@.len(),
            i <= n,
            forall|j: int| 0 <= j < i ==> keys@[j].0@ != k.0@,
        decreases n - i,
    {
        if key_eq(&keys[i], k) {
            proof {
                assert(key_views(keys@)[i as int] == k.0@);
            }
            return true;
        }
        i += 1;
    }
    proof {
        if key_views(keys@).contains(k.0@) {
            let j = choose|j: int|
                0 <= j < key_views(keys@).len() && key_views(keys@)[j] == k.0@;
            assert(keys@[j].0@ == k.0@);
        }
    }
    false
}

/// The input's keys with every later duplicate dropped, in first-seen
/// order.
pub fn dedup_keys(kvs: &Vec<Pair>) -> (r: Vec<SmtKey>)
    ensures
        key_views(r@) == spec_dedup(pair_keys(kvs@)),
{
    let mut out: Vec<SmtKey> = Vec::new();
    let n = kvs.len();
    proof {
        assert(pair_keys(kvs@).take(0) =~= Seq::<Seq<u8>>::empty());
        assert(key_views(out@) =~= spec_dedup(pair_keys(kvs@).take(0)));
    }
    let mut i: usize = 0;
    while i < n
        invariant
            n == kvs@.len(),
            i <= n,
            key_views(out@) == spec_dedup(pair_keys(kvs@).take(i as int)),
        decreases n - i,
    {
        let k = kvs[i].key;
        let present = contains_key_bytes(&out, &k);
        proof {
            let full = pair_keys(kvs@);
            assert(full[i as int] == key_of(kvs@[i as int]));
            assert(full.take(i + 1).drop_last() =~= full.take(i as int));
            assert(full.take(i + 1).last() == full[i as int]);
            assert(k.0@ == key_of(kvs@[i as int]));
        }
        if !present {
            out.push(k);
            proof {
                let prev = spec_dedup(pair_keys(kvs@).take(i as int));
                assert(key_views(out@) =~= prev.push(k.0@));
            }
        }
        i += 1;
    }
    proof {
        assert(pair_keys(kvs@).take(n as int) =~= pair_keys(kvs@));
    }
    out
}

/// The chunk views of a split batch.
pub open spec fn chunk_views(cs: Seq<Vec<Pair>>) -> Seq<Seq<Pair>> {
    cs.map_values(|c: Vec<Pair>| c@)
}

/// Splits a batch into chunks of at most `chunk_size` pairs, order kept.
/// A chunked persistent update commits one chunk per sub-transaction.
pub fn plan_chunks(kvs: &Vec<Pair>, chunk_size: usize) -> (r: Vec<Vec<Pair>>)
    requires
        chunk_size > 0,
    ensures
        flat_chunks(chunk_views(r@)) == kvs@,
        forall|i: int| 0 <= i < r@.len() ==> 0 < (#[trigger] r@[i])@.len() <= chunk_size,
{
    let mut out: Vec<Vec<Pair>> = Vec::new();
    let n = kvs.len();
    proof {
        assert(chunk_views(out@) =~= Seq::<Seq<Pair>>::empty());
        assert(flat_chunks(chunk_views(out@)) =~= kvs@.take(0));
    }
    let mut pos: usize = 0;
    while pos < n
        invariant
            n == kvs@.len(),
            pos <= n,
            flat_chunks(chunk_views(out@)) == kvs@.take(pos as int),
            chunk_size > 0,
            forall|i: int| 0 <= i < out@.len() ==> 0 < (#[trigger] out@[i])@.len() <= chunk_size,
        decreases n - pos,
    {
        let remaining = n - pos;
        let take_now = if remaining < chunk_size {
            remaining
        } else {
            chunk_size
        };
        let mut chunk: Vec<Pair> = Vec::new();
        let mut j: usize = 0;
        while j < take_now
            invariant
                j <= take_now,
                pos + take_now <= n,
                n == kvs@.len(),
                chunk@ =~= kvs@.subrange(pos as int, pos + j),
            decreases take_now - j,
        {
            chunk.push(kvs[pos + j]);
            proof {
                assert(chunk@ =~= kvs@.subrange(pos as int, pos + j + 1));
            }
            j += 1;
        }
        let ghost old_chunks = chunk_views(out@);
        out.push(chunk);
        proof {
            assert(chunk_views(out@) =~= old_chunks.push(chunk@));
            assert(chunk_views(out@).drop_last() =~= old_chunks);
            assert(flat_chunks(chunk_views(out@)) == flat_chunks(old_chunks) + chunk@);
            assert(kvs@.take(pos as int) + kvs@.subrange(pos as int, (pos + take_now) as int)
                =~= kvs@.take((pos + take_now) as int));
        }
        pos += take_now;
    }
    proof {
        assert(kvs@.take(n as int) =~= kvs@);
    }
    out
}

/// Whether a physical key is a leaf record of the tree with this prefix:
/// it starts with the prefix and carries exactly 32 more bytes.
pub open spec fn is_leaf_raw(prefix: Seq<u8>, raw: Seq<u8>) -> bool {
    raw.len() == prefix.len() + 32 && raw.take(prefix.len() as int) == prefix
}

/// The leaf keys found among iterated physical keys, prefix stripped, in
/// iteration order.
pub open spec fn leaf_suffixes(prefix: Seq<u8>, raws: Seq<Seq<u8>>) -> Seq<Seq<u8>>
    decreases raws.len(),
{
    if raws.len() == 0 {
        Seq::empty()
    } else {
        let rest = leaf_suffixes(prefix, raws.drop_last());
        if is_leaf_raw(prefix, raws.last()) {
            rest.push(raws.last().skip(prefix.len() as int))
        } else {
            rest
        }
    }
}

/// The byte views of iterated physical keys.
pub open spec fn raw_views(rs: Seq<Vec<u8>>) -> Seq<Seq<u8>> {
    rs.map_values(|r: Vec<u8>| r@)
}

/// Plans a wipe: pairs every leaf key found under the prefix with the
/// zero value, so that the batched update path drives the tree empty.
/// Branch records and foreign keys among the input are skipped.
pub fn collect_wipe_pairs(prefix: &Vec<u8>, raws: &Vec<Vec<u8>>) -> (r: Vec<Pair>)
    ensures
        pair_keys(r@) == leaf_suffixes(prefix@, raw_views(raws@)),
        forall|i: int| 0 <= i < r@.len() ==> val_of(#[trigger] r@[i]) == zero32(),
{
    let mut out: Vec<Pair> = Vec::new();
    let n = raws.len();
    proof {
        assert(raw_views(raws@).take(0) =~= Seq::<Seq<u8>>::empty());
        assert(pair_keys(out@) =~= leaf_suffixes(prefix@, raw_views(raws@).take(0)));
    }
    let mut i: usize = 0;
    while i < n
        invariant
            n == raws@.len(),
            i <= n,
            pair_keys(out@) == leaf_suffixes(prefix@, raw_views(raws@).take(i as int)),
            forall|j: int| 0 <= j < out@.len() ==> val_of(#[trigger] out@[j]) == zero32(),
        decreases n - i,
    {
        let raw = &raws[i];
        proof {
            let rv = raw_views(raws@);
            assert(rv[i as int] == raws@[i as int]@);
            assert(rv.take(i + 1).drop_last() =~= rv.take(i as int));
            assert(rv.take(i + 1).last() == rv[i as int]);
        }
        if raw.len() >= 32 && raw.len() - 32 == prefix.len() && bytes_starts_with(raw, prefix) {
            let suffix = vstd::slice::slice_subrange(raw.as_slice(), prefix.len(), raw.len());
            let key = SmtKey(bytes32_of_slice(suffix));
            proof {
                assert(key.0@ =~= raws@[i as int]@.skip(prefix@.len() as int));
                assert(is_leaf_raw(prefix@, raws@[i as int]@));
            }
            let ghost old_keys = pair_keys(out@);
            out.push(Pair { key, value: SmtValue::zero() });
            proof {
                assert(pair_keys(out@) =~= old_keys.push(key.0@));
            }
        } else {
            proof {
                assert(!is_leaf_raw(prefix@, raws@[i as int]@));
            }
        }
        i += 1;
    }
    proof {
        assert(raw_views(raws@).take(n as int) =~= raw_views(raws@));
    }
    out
}

/// Whether a root is the all-zero root of an empty tree.
pub fn root_is_zero(root: &SmtRoot) -> (r: bool)
    ensures
        r <==> root.0@ == zero32(),
{
    let mut i: usize = 0;
    while i < 32
        invariant
            i <= 32,
            forall|j: int| 0 <= j < i ==> root.0@[j] == 0u8,
        decreases 32 - i,
    {
        if root.0[i] != 0 {
            proof {
                assert(root.0@[i as int] != zero32()[i as int]);
            }
            return false;
        }
        i += 1;
    }
    proof {
        assert(root.0@ =~= zero32());
    }
    true
}

/// The wipe postcondition: the root after a wipe must be the zero root,
/// else the store is corrupt and the wipe has failed.
pub fn check_wipe_root(root: &SmtRoot) -> (r: Result<(), SmtError>)
    ensures
        root.0@ == zero32() ==> r is Ok,
        root.0@ != zero32() ==> r == Result::<(), SmtError>::Err(
            SmtError::WipePostconditionViolated,
        ),
{
    if root_is_zero(root) {
        Ok(())
    } else {
        Err(SmtError::WipePostconditionViolated)
    }
}

/// Appends one sequenced-update record: the key in hex, bound to the root
/// and the proof taken right after that key's own update.
pub fn sequence_entry(
    roots: &mut Vec<(String, String)>,
    proofs: &mut Vec<(String, String)>,
    key: &SmtKey,
    root: &SmtRoot,
    proof: &SmtProof,
)
    ensures
        final(roots)@.len() == old(roots)@.len() + 1,
        final(roots)@.drop_last() == old(roots)@,
        final(roots)@.last().0@ == hex_of(key.0@),
        final(roots)@.last().1@ == hex_of(root.0@),
        final(proofs)@.len() == old(proofs)@.len() + 1,
        final(proofs)@.drop_last() == old(proofs)@,
        final(proofs)@.last().0@ == hex_of(key.0@),
        final(proofs)@.last().1@ == hex_of(proof.0@),
{
    let hk = slice_to_hex_string(key.0.as_slice());
    let hr = slice_to_hex_string(root.0.as_slice());
    let hp = slice_to_hex_string(proof.0.as_slice());
    let hk2 = slice_to_hex_string(key.0.as_slice());
    roots.push((hk, hr));
    proofs.push((hk2, hp));
    proof {
        assert(roots@.drop_last() =~= old(roots)@);
        assert(proofs@.drop_last() =~= old(proofs)@);
    }
}

/// Whether one response entry is the hex key and hex compiled proof of
/// leaf key `k` against leaf map `m`.
pub open spec fn entry_matches(ent: (String, String), m: Map<Seq<u8>, Seq<u8>>, k: Seq<u8>) -> bool {
    ent.0@ == hex_of(k) && ent.1@ == hex_of(compiled_proof_of(m, k))
}

/// Whether one response entry belongs to one of the first `bound` keys.
pub open spec fn entry_within(
    ent: (String, String),
    m: Map<Seq<u8>, Seq<u8>>,
    keys: Seq<Seq<u8>>,
    bound: int,
) -> bool {
    exists|j: int| 0 <= j < bound && entry_matches(ent, m, #[trigger] keys[j])
}

/// How proof entries must relate to the requested keys: each entry binds
/// the hex of one requested key to the hex of that key's compiled proof
/// against the leaf map `m`, no key appears twice, and no entry comes
/// from outside the request.  A key may be absent: a per-key proof
/// failure drops that key, and the caller detects it by the count.
pub open spec fn proof_entries_wf(
    entries: Seq<(String, String)>,
    m: Map<Seq<u8>, Seq<u8>>,
    keys: Seq<Seq<u8>>,
) -> bool {
    &&& entries.len() <= keys.len()
    &&& forall|e: int|
        0 <= e < entries.len() ==> entry_within(#[trigger] entries[e], m, keys, keys.len() as int)
    &&& forall|e1: int, e2: int|
        0 <= e1 < e2 < entries.len() ==> (#[trigger] entries[e1]).0@ != (
        #[trigger] entries[e2]).0@
}

/// Compiles one proof per distinct key, dropping any key whose proof the
/// engine refuses.
fn collect_proofs(t: &MemorySmt, keys: &Vec<SmtKey>) -> (r: Vec<(String, String)>)
    requires
        smt_wf(*t),
        forall|i: int, j: int|
            0 <= i < j < keys@.len() ==> (#[trigger] keys@[i]).0@ != (#[trigger] keys@[j]).0@,
    ensures
        proof_entries_wf(r@, smt_leaves(*t), key_views(keys@)),
{
    let mut out: Vec<(String, String)> = Vec::new();
    let n = keys.len();
    let ghost kv = key_views(keys@);
    let mut i: usize = 0;
    while i < n
        invariant
            smt_wf(*t),
            n == keys@.len(),
            kv == key_views(keys@),
            i <= n,
            out@.len() <= i,
            forall|i2: int, j2: int|
                0 <= i2 < j2 < keys@.len() ==> (#[trigger] keys@[i2]).0@ != (
                #[trigger] keys@[j2]).0@,
            forall|e: int|
                0 <= e < out@.len() ==> entry_within(
                    #[trigger] out@[e],
                    smt_leaves(*t),
                    kv,
                    i as int,
                ),
            forall|e1: int, e2: int|
                0 <= e1 < e2 < out@.len() ==> (#[trigger] out@[e1]).0@ != (
                #[trigger] out@[e2]).0@,
        decreases n - i,
    {
        let ghost m = smt_leaves(*t);
        match memory_smt_single_proof(t, &keys[i]) {
            Ok(p) => {
                let hk = slice_to_hex_string(keys[i].0.as_slice());
                let hp = slice_to_hex_string(p.0.as_slice());
                proof {
                    assert(kv[i as int] == keys@[i as int].0@);
                    assert(hk@ == hex_of(kv[i as int]));
                    assert(hp@ == hex_of(compiled_proof_of(m, kv[i as int])));
                    assert forall|e: int| 0 <= e < out@.len() implies (#[trigger] out@[e]).0@
                        != hk@ by {
                        let j = choose|j: int|
                            0 <= j < i && entry_matches(out@[e], m, #[trigger] kv[j]);
                        if out@[e].0@ == hk@ {
                            lemma_hex_of_injective(kv[j], kv[i as int]);
                            assert(keys@[j].0@ == keys@[i as int].0@);
                        }
                    }
                }
                let ghost prev = out@;
                let ghost hkv = hk@;
                let ghost hpv = hp@;
                out.push((hk, hp));
                proof {
                    assert(out@.len() == prev.len() + 1);
                    assert(out@[prev.len() as int].0@ == hkv);
                    assert(out@[prev.len() as int].1@ == hpv);
                    assert forall|e: int| 0 <= e < out@.len() implies entry_within(
                        #[trigger] out@[e],
                        m,
                        kv,
                        i + 1,
                    ) by {
                        if e < prev.len() {
                            assert(out@[e] == prev[e]);
                            assert(entry_within(prev[e], m, kv, i as int));
                            let j = choose|j: int|
                                0 <= j < i && entry_matches(prev[e], m, #[trigger] kv[j]);
                            assert(entry_matches(out@[e], m, kv[j]));
                        } else {
                            assert(entry_matches(out@[e], m, kv[i as int]));
                        }
                    }
                    assert forall|e1: int, e2: int|
                        0 <= e1 < e2 < out@.len() implies (#[trigger] out@[e1]).0@ != (
                    #[trigger] out@[e2]).0@ by {
                        if e2 < prev.len() {
                            assert(out@[e1] == prev[e1]);
                            assert(out@[e2] == prev[e2]);
                        } else {
                            assert(out@[e1] == prev[e1]);
                            assert(out@[e2].0@ == hkv);
                        }
                    }
                }
            },
            Err(_) => {
                proof {
                    assert forall|e: int| 0 <= e < out@.len() implies entry_within(
                        #[trigger] out@[e],
                        m,
                        kv,
                        i + 1,
                    ) by {
                        assert(entry_within(out@[e], m, kv, i as int));
                        let j = choose|j: int|
                            0 <= j < i && entry_matches(out@[e], m, #[trigger] kv[j]);
                        assert(entry_matches(out@[e], m, kv[j]));
                    }
                }
            },
        }
        i += 1;
    }
    proof {
        assert(key_views(keys@).len() == keys@.len());
    }
    out
}

/// What a successful in-memory build answers.
///
/// An empty batch gets the empty default: zero root, no proofs.  Else the
/// root field holds the root of the batch's leaf map when asked for, and
/// the zero root when not; the proof entries hold the sentinel when no
/// proofs were asked for, and one compiled proof per distinct input key,
/// failed keys dropped, when they were.
pub open spec fn memory_response_ok(resp: Response, opt: Opt, kvs: Seq<Pair>) -> bool {
    if kvs.len() == 0 {
        resp.root.0@ == zero32() && resp.proofs@.len() == 0
    } else {
        let m = apply_pairs(empty_leaves(), kvs);
        &&& (opt.get_root ==> resp.root.0@ == root_of(m))
        &&& (opt.get_root && m == empty_leaves() ==> resp.root.0@ == zero32())
        &&& (!opt.get_root ==> resp.root.0@ == zero32())
        &&& (!opt.get_proof ==> resp.proofs@.len() == 1 && resp.proofs@[0].0@ == hex_of(zero32())
            && resp.proofs@[0].1@ == Seq::<char>::empty())
        &&& (opt.get_proof ==> proof_entries_wf(resp.proofs@, m, spec_dedup(pair_keys(kvs))))
    }
}

/// Puts a root and proof entries into a response, honoring what was
/// asked: a root nobody asked for is reported as the zero root.
pub fn assemble_response(opt: Opt, root: SmtRoot, entries: Vec<(String, String)>) -> (r: Response)
    ensures
        opt.get_root ==> r.root.0@ == root.0@,
        !opt.get_root ==> r.root.0@ == zero32(),
        r.proofs@ == entries@,
{
    let root_field = if opt.get_root {
        root
    } else {
        SmtRoot::default()
    };
    Response { root: root_field, proofs: entries }
}

/// Builds a fresh in-memory tree from the batch, in order, and answers
/// with what `opt` asks for.  The tree name is accepted for interface
/// parity and ignored: an in-memory build touches no store.
pub fn build_memory_smt(opt: Opt, smt_name: &str, kvs_in: Vec<Pair>) -> (r: Result<
    Response,
    SmtError,
>)
    ensures
        r is Ok,
        r matches Ok(resp) ==> memory_response_ok(resp, opt, kvs_in@),
{
    let _ = smt_name;
    if kvs_in.len() == 0 {
        return Ok(Response::default());
    }
    let mut tree = memory_smt_new();
    let smt_root = match memory_smt_update_all(&mut tree, &kvs_in) {
        Ok(rt) => rt,
        Err(_) => {
            return unreached();
        },
    };
    let ghost m = apply_pairs(empty_leaves(), kvs_in@);
    let proofs: Vec<(String, String)> = if !opt.get_proof {
        default_merkel_proof()
    } else {
        let keys = dedup_keys(&kvs_in);
        proof {
            lemma_spec_dedup_distinct(pair_keys(kvs_in@));
            assert(key_views(keys@) == spec_dedup(pair_keys(kvs_in@)));
            assert forall|i: int, j: int|
                0 <= i < j < keys@.len() implies (#[trigger] keys@[i]).0@ != (
            #[trigger] keys@[j]).0@ by {
                assert(key_views(keys@)[i] == keys@[i].0@);
                assert(key_views(keys@)[j] == keys@[j].0@);
            }
        }
        collect_proofs(&tree, &keys)
    };
    Ok(assemble_response(opt, smt_root, proofs))
}

/// Building a tree from two key-disjoint batches yields the same root in
/// either order; with overlapping keys the later write wins instead.
pub proof fn lemma_root_order_insensitive(a: Seq<Pair>, b: Seq<Pair>)
    requires
        keys_disjoint(a, b),
    ensures
        root_of(apply_pairs(empty_leaves(), a + b)) == root_of(apply_pairs(empty_leaves(), b + a)),
{
    lemma_apply_disjoint_commutes(empty_leaves(), a, b);
}

/// Writing the zero value under an absent key leaves the root as it was:
/// a zero leaf and no leaf commit to the same tree.
pub proof fn lemma_root_zero_insert(m: Map<Seq<u8>, Seq<u8>>, p: Pair)
    requires
        val_of(p) == zero32(),
        !m.contains_key(key_of(p)),
    ensures
        root_of(apply_pairs(m, seq![p])) == root_of(m),
{
    lemma_insert_zero_absent(m, p);
}

/// Writing a value under a fresh key and then the zero value under the
/// same key restores the root of the tree that never saw the key.
pub proof fn lemma_root_write_then_zero(m: Map<Seq<u8>, Seq<u8>>, p: Pair, q: Pair)
    requires
        key_of(q) == key_of(p),
        val_of(q) == zero32(),
        !m.contains_key(key_of(p)),
    ensures
        root_of(apply_pairs(m, seq![p, q])) == root_of(m),
{
    lemma_insert_then_zero(m, p, q);
}

/// A fresh persistent tree updated chunk by chunk ends at the root an
/// in-memory build of the whole batch computes.
pub proof fn lemma_chunked_matches_whole(cs: Seq<Seq<Pair>>, whole: Seq<Pair>)
    requires
        flat_chunks(cs) == whole,
    ensures
        root_of(apply_chunks(empty_leaves(), cs)) == root_of(apply_pairs(empty_leaves(), whole)),
{
    lemma_chunked_apply(empty_leaves(), cs);
}

/// A sequenced update owes one proof per input pair: fewer means some key
/// could not be proven, and the whole request fails.
pub fn check_sequence_complete(produced: usize, expected: usize) -> (r: Result<(), SmtError>)
    ensures
        produced == expected ==> r is Ok,
        produced != expected ==> r == Result::<(), SmtError>::Err(SmtError::ProofGenerationFailure),
{
    if produced == expected {
        Ok(())
    } else {
        Err(SmtError::ProofGenerationFailure)
    }
}

} // verus!

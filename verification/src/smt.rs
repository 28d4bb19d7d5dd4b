//! The in-memory sparse Merkle tree, behind trusted declarations.
//!
//! The tree engine comes from the sparse_merkle_tree crate: a height-256
//! tree whose leaves are 32-byte keys and values, hashed with the crate's
//! personalized Blake2b hasher.  Verified code sees the tree only through
//! the wrappers below, whose contracts speak of the tree's logical leaf map
//! (`smt_leaves`), of the root as a function of that map (`root_of`), and
//! of a single key's compiled proof as a function of the map and the key
//! (`compiled_proof_of`).

use crate::errors::SmtError;
use crate::model::{apply_pairs, empty_leaves, zero32};
use crate::structures::{Pair, SmtKey, SmtProof, SmtRoot};
use vstd::prelude::*;

verus! {

#[verifier::external_type_specification]
#[verifier::external_body]
#[verifier::reject_recursive_types(H)]
#[verifier::reject_recursive_types(V)]
#[verifier::reject_recursive_types(S)]
pub struct ExSparseMerkleTree<H, V, S>(sparse_merkle_tree::SparseMerkleTree<H, V, S>);

#[verifier::external_type_specification]
#[verifier::external_body]
#[verifier::reject_recursive_types(V)]
pub struct ExDefaultStore<V>(sparse_merkle_tree::default_store::DefaultStore<V>);

#[verifier::external_type_specification]
#[verifier::external_body]
pub struct ExH256(sparse_merkle_tree::H256);

#[verifier::external_type_specification]
#[verifier::external_body]
pub struct ExBlake2bHasher(sparse_merkle_tree::blake2b::Blake2bHasher);

/// A height-256 sparse Merkle tree held wholly in memory.
pub type MemorySmt = sparse_merkle_tree::SparseMerkleTree<
    sparse_merkle_tree::blake2b::Blake2bHasher,
    sparse_merkle_tree::H256,
    sparse_merkle_tree::default_store::DefaultStore<sparse_merkle_tree::H256>,
>;

/// The logical contents of a tree: its map from leaf keys to the non-zero
/// leaf values.
pub uninterp spec fn smt_leaves(t: MemorySmt) -> Map<Seq<u8>, Seq<u8>>;

/// Whether a tree's store is consistent: every branch record matches the
/// leaf map.  Every tree built through the wrappers below is.
pub uninterp spec fn smt_wf(t: MemorySmt) -> bool;

/// The Merkle root of a leaf map, under the engine's hasher.
pub uninterp spec fn root_of(leaves: Map<Seq<u8>, Seq<u8>>) -> Seq<u8>;

/// The compiled single-key proof for `key` against a leaf map.
pub uninterp spec fn compiled_proof_of(leaves: Map<Seq<u8>, Seq<u8>>, key: Seq<u8>) -> Seq<u8>;

/// Relies on SparseMerkleTree::default: a fresh tree holds no leaves and no
/// branches.
#[verifier::external_body]
pub(crate) fn memory_smt_new() -> (t: MemorySmt)
    ensures
        smt_wf(t),
        smt_leaves(t) == empty_leaves(),
{
    MemorySmt::default()
}

/// Relies on SparseMerkleTree::update_all: it keeps the last entry per key,
/// stores every non-zero value, deletes every key given the zero value, and
/// returns the recomputed root.  The in-memory store never fails, so with a
/// non-empty batch the call succeeds.
#[verifier::external_body]
pub(crate) fn memory_smt_update_all(t: &mut MemorySmt, pairs: &Vec<Pair>) -> (r: Result<SmtRoot, SmtError>)
    requires
        pairs@.len() > 0,
        smt_wf(*old(t)),
    ensures
        smt_wf(*final(t)),
        smt_leaves(*final(t)) == apply_pairs(smt_leaves(*old(t)), pairs@),
        r is Ok,
        r matches Ok(root) ==> root.0@ == root_of(smt_leaves(*final(t))),
        smt_leaves(*final(t)) == empty_leaves() ==> root_of(smt_leaves(*final(t))) == zero32(),
{
    let kvs: Vec<(sparse_merkle_tree::H256, sparse_merkle_tree::H256)> = pairs.iter().map(
        |p: &Pair| (p.key.0.into(), p.value.0.into()),
    ).collect();
    match t.update_all(kvs) {
        Ok(root) => {
            let mut bytes = [0u8; 32];
            bytes.copy_from_slice(root.as_slice());
            Ok(SmtRoot(bytes))
        },
        Err(_) => Err(SmtError::StoreUnavailable),
    }
}

/// Relies on SparseMerkleTree::merkle_proof and MerkleProof::compile, both
/// for this one key: together they produce the compiled proof bytes, a
/// function of the tree's contents and the key alone.
#[verifier::external_body]
pub(crate) fn memory_smt_single_proof(t: &MemorySmt, key: &SmtKey) -> (r: Result<SmtProof, SmtError>)
    requires
        smt_wf(*t),
    ensures
        r matches Ok(p) ==> p.0@ == compiled_proof_of(smt_leaves(*t), key.0@),
{
    let k: sparse_merkle_tree::H256 = key.0.into();
    let proof = match t.merkle_proof(vec![k]) {
        Ok(p) => p,
        Err(_) => {
            return Err(SmtError::ProofGenerationFailure);
        },
    };
    match proof.compile(vec![(k, sparse_merkle_tree::H256::zero())]) {
        Ok(compiled) => Ok(SmtProof(compiled.0)),
        Err(_) => Err(SmtError::ProofGenerationFailure),
    }
}

} // verus!

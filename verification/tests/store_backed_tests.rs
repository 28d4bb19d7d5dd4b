//! Drives the tree engine over an ordered byte-keyed map laid out with
//! the library's physical encoding, the way a persistent backend would
//! be, and checks the service pipeline end to end.

use sparse_merkle_tree::blake2b::Blake2bHasher;
use sparse_merkle_tree::error::Error;
use sparse_merkle_tree::merge::merge;
use sparse_merkle_tree::merge::MergeValue;
use sparse_merkle_tree::traits::Store;
use sparse_merkle_tree::tree::{BranchKey, BranchNode};
use sparse_merkle_tree::{SparseMerkleTree, H256};
use std::collections::BTreeMap;
use sub_account_store::encoding::{branch_physical_key, leaf_physical_key};
use sub_account_store::service::{build_memory_smt, collect_wipe_pairs, plan_chunks};
use sub_account_store::structures::{Opt, Pair, SmtKey, SmtValue};

type PhysicalMap = BTreeMap<Vec<u8>, Vec<u8>>;

/// One logical tree over a shared physical map, records under its prefix.
struct MapStore {
    prefix: Vec<u8>,
    map: PhysicalMap,
}

fn encode_merge_value(v: &MergeValue, out: &mut Vec<u8>) {
    match v {
        MergeValue::Value(h) => {
            out.push(0);
            out.extend_from_slice(h.as_slice());
        }
        MergeValue::MergeWithZero {
            base_node,
            zero_bits,
            zero_count,
        } => {
            out.push(1);
            out.extend_from_slice(base_node.as_slice());
            out.extend_from_slice(zero_bits.as_slice());
            out.push(*zero_count);
        }
    }
}

fn decode_merge_value(bytes: &[u8], at: usize) -> (MergeValue, usize) {
    let h = |lo: usize| -> H256 {
        let arr: [u8; 32] = bytes[lo..lo + 32].try_into().unwrap();
        arr.into()
    };
    match bytes[at] {
        0 => (MergeValue::Value(h(at + 1)), at + 33),
        1 => (
            MergeValue::MergeWithZero {
                base_node: h(at + 1),
                zero_bits: h(at + 33),
                zero_count: bytes[at + 65],
            },
            at + 66,
        ),
        _ => panic!("corrupt branch record"),
    }
}

fn branch_record_key(prefix: &Vec<u8>, key: &BranchKey) -> Vec<u8> {
    let node: [u8; 32] = key.node_key.as_slice().try_into().unwrap();
    branch_physical_key(prefix, key.height, &SmtKey(node))
}

fn leaf_record_key(prefix: &Vec<u8>, key: &H256) -> Vec<u8> {
    let leaf: [u8; 32] = key.as_slice().try_into().unwrap();
    leaf_physical_key(prefix, &SmtKey(leaf))
}

impl Store<H256> for MapStore {
    fn get_branch(&self, branch_key: &BranchKey) -> Result<Option<BranchNode>, Error> {
        Ok(self.map.get(&branch_record_key(&self.prefix, branch_key)).map(|bytes| {
            let (left, next) = decode_merge_value(bytes, 0);
            let (right, _) = decode_merge_value(bytes, next);
            BranchNode { left, right }
        }))
    }
    fn get_leaf(&self, leaf_key: &H256) -> Result<Option<H256>, Error> {
        Ok(self.map.get(&leaf_record_key(&self.prefix, leaf_key)).map(|bytes| {
            let arr: [u8; 32] = bytes.as_slice().try_into().unwrap();
            arr.into()
        }))
    }
    fn insert_branch(&mut self, node_key: BranchKey, branch: BranchNode) -> Result<(), Error> {
        let mut out = Vec::new();
        encode_merge_value(&branch.left, &mut out);
        encode_merge_value(&branch.right, &mut out);
        self.map.insert(branch_record_key(&self.prefix, &node_key), out);
        Ok(())
    }
    fn insert_leaf(&mut self, leaf_key: H256, leaf: H256) -> Result<(), Error> {
        self.map
            .insert(leaf_record_key(&self.prefix, &leaf_key), leaf.as_slice().to_vec());
        Ok(())
    }
    fn remove_branch(&mut self, node_key: &BranchKey) -> Result<(), Error> {
        self.map.remove(&branch_record_key(&self.prefix, node_key));
        Ok(())
    }
    fn remove_leaf(&mut self, leaf_key: &H256) -> Result<(), Error> {
        self.map.remove(&leaf_record_key(&self.prefix, leaf_key));
        Ok(())
    }
}

type MapSmt = SparseMerkleTree<Blake2bHasher, H256, MapStore>;

/// The stored root of a tree: the hash of its top branch, or zero.
fn recover_root(store: &MapStore) -> H256 {
    match store
        .get_branch(&BranchKey::new(u8::MAX, H256::zero()))
        .unwrap()
    {
        None => H256::zero(),
        Some(b) => {
            merge::<Blake2bHasher>(u8::MAX, &H256::zero(), &b.left, &b.right).hash::<Blake2bHasher>()
        }
    }
}

fn pair(k: u8, v: u8) -> Pair {
    let mut kb = [0u8; 32];
    kb[31] = k;
    let mut vb = [0u8; 32];
    vb[31] = v;
    Pair { key: SmtKey(kb), value: SmtValue(vb) }
}

/// Applies a batch to the named tree inside the shared map, chunk by
/// chunk through the service's chunk planner, and hands the map back.
fn apply_to_tree(map: PhysicalMap, name: &str, kvs: &[Pair], chunk_size: usize) -> PhysicalMap {
    let store = MapStore { prefix: name.as_bytes().to_vec(), map };
    let root = recover_root(&store);
    let mut smt = MapSmt::new(root, store);
    let kvs_vec: Vec<Pair> = kvs.to_vec();
    for chunk in plan_chunks(&kvs_vec, chunk_size) {
        let leaves: Vec<(H256, H256)> = chunk
            .iter()
            .map(|p| (p.key.0.into(), p.value.0.into()))
            .collect();
        smt.update_all(leaves).unwrap();
    }
    smt.take_store().map
}

#[test]
fn stored_tree_matches_in_memory_build() {
    let batch = vec![pair(1, 10), pair(2, 11), pair(7, 3)];
    let map = apply_to_tree(PhysicalMap::new(), "t", &batch, 2);
    let store = MapStore { prefix: b"t".to_vec(), map };
    let stored_root = recover_root(&store);

    let resp = build_memory_smt(
        Opt { get_proof: false, get_root: true },
        "",
        batch,
    )
    .unwrap();
    assert_eq!(stored_root.as_slice(), &resp.root.0);
}

#[test]
fn updating_one_tree_leaves_another_at_zero() {
    let map = apply_to_tree(PhysicalMap::new(), "t1", &[pair(1, 10)], 5000);
    let t1 = MapStore { prefix: b"t1".to_vec(), map };
    assert_ne!(recover_root(&t1), H256::zero());
    let t2 = MapStore { prefix: b"t2".to_vec(), map: t1.map };
    assert_eq!(recover_root(&t2), H256::zero());
}

#[test]
fn wipe_empties_the_tree_and_its_records() {
    let batch: Vec<Pair> = (1..=9).map(|i| pair(i as u8, i as u8)).collect();
    let map = apply_to_tree(PhysicalMap::new(), "t", &batch, 4);

    // Plan the wipe from a scan of the tree's physical keys, as the
    // persistent path does.
    let prefix = b"t".to_vec();
    let raws: Vec<Vec<u8>> = map
        .range(prefix.clone()..)
        .take_while(|(k, _)| k.starts_with(&prefix))
        .map(|(k, _)| k.clone())
        .collect();
    let zero_pairs = collect_wipe_pairs(&prefix, &raws);
    assert_eq!(zero_pairs.len(), 9);

    let map = apply_to_tree(map, "t", &zero_pairs, 4);
    let store = MapStore { prefix: prefix.clone(), map };
    assert_eq!(recover_root(&store), H256::zero());
    let leftovers: Vec<&Vec<u8>> = store
        .map
        .range(prefix.clone()..)
        .take_while(|(k, _)| k.starts_with(&prefix))
        .map(|(k, _)| k)
        .collect();
    assert!(leftovers.is_empty(), "a wiped tree keeps no records");

    // Wiping again finds nothing to do and the root stays zero.
    let raws_again: Vec<Vec<u8>> = store
        .map
        .range(prefix.clone()..)
        .take_while(|(k, _)| k.starts_with(&prefix))
        .map(|(k, _)| k.clone())
        .collect();
    let nothing = collect_wipe_pairs(&prefix, &raws_again);
    assert!(nothing.is_empty());
    assert_eq!(recover_root(&store), H256::zero());
}

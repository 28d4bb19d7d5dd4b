use sparse_merkle_tree::blake2b::Blake2bHasher;
use sparse_merkle_tree::{CompiledMerkleProof, H256};
use sub_account_store::structures::{Opt, Pair, SmtKey, SmtValue};
use sub_account_store::service::build_memory_smt;
use sub_account_store::utils::slice_to_hex_string;

fn key(last: u8) -> SmtKey {
    let mut b = [0u8; 32];
    b[31] = last;
    SmtKey(b)
}

fn val(last: u8) -> SmtValue {
    let mut b = [0u8; 32];
    b[31] = last;
    SmtValue(b)
}

fn pair(k: u8, v: u8) -> Pair {
    Pair { key: key(k), value: val(v) }
}

fn opt(get_proof: bool, get_root: bool) -> Opt {
    Opt { get_proof, get_root }
}

fn hex_decode(s: &str) -> Vec<u8> {
    fn nibble(c: u8) -> u8 {
        match c {
            b'0'..=b'9' => c - b'0',
            b'a'..=b'f' => c - b'a' + 10,
            _ => panic!("bad hex digit"),
        }
    }
    let bytes = s.as_bytes();
    assert!(bytes.len() % 2 == 0);
    let mut out = Vec::new();
    let mut i = 0;
    while i < bytes.len() {
        out.push(nibble(bytes[i]) * 16 + nibble(bytes[i + 1]));
        i += 2;
    }
    out
}

const ZERO_HEX: &str = "0000000000000000000000000000000000000000000000000000000000000000";

#[test]
fn single_leaf_root_is_frozen() {
    let resp = build_memory_smt(opt(false, true), "", vec![pair(1, 10)]).unwrap();
    let root_hex = slice_to_hex_string(&resp.root.0);
    assert_eq!(
        root_hex,
        "4c7b35073865d5772b9b12d27619d130f73f5c4af9779e7845d0917987a208b0"
    );
}

#[test]
fn same_batch_same_root() {
    let batch = vec![pair(1, 10), pair(2, 11), pair(9, 3)];
    let a = build_memory_smt(opt(false, true), "", batch.clone()).unwrap();
    let b = build_memory_smt(opt(false, true), "x", batch).unwrap();
    assert_eq!(a.root.0, b.root.0);
}

#[test]
fn disjoint_batches_commute() {
    let ab = vec![pair(1, 10), pair(2, 11)];
    let ba = vec![pair(2, 11), pair(1, 10)];
    let a = build_memory_smt(opt(false, true), "", ab).unwrap();
    let b = build_memory_smt(opt(false, true), "", ba).unwrap();
    assert_eq!(a.root.0, b.root.0);
}

#[test]
fn later_write_wins() {
    let twice = vec![pair(1, 10), pair(1, 11)];
    let once = vec![pair(1, 11)];
    let a = build_memory_smt(opt(false, true), "", twice).unwrap();
    let b = build_memory_smt(opt(false, true), "", once).unwrap();
    assert_eq!(a.root.0, b.root.0);
}

#[test]
fn zero_value_leaves_tree_empty() {
    let resp = build_memory_smt(opt(false, true), "", vec![pair(1, 0)]).unwrap();
    assert_eq!(slice_to_hex_string(&resp.root.0), ZERO_HEX);
}

#[test]
fn write_then_zero_is_empty_tree() {
    let resp = build_memory_smt(opt(false, true), "", vec![pair(1, 10), pair(1, 0)]).unwrap();
    assert_eq!(slice_to_hex_string(&resp.root.0), ZERO_HEX);
}

#[test]
fn wipe_by_zero_batch_and_again() {
    let batch = vec![pair(1, 10), pair(2, 11), pair(1, 0), pair(2, 0)];
    let resp = build_memory_smt(opt(false, true), "", batch).unwrap();
    assert_eq!(slice_to_hex_string(&resp.root.0), ZERO_HEX);
    let again = vec![pair(1, 0), pair(2, 0)];
    let resp2 = build_memory_smt(opt(false, true), "", again).unwrap();
    assert_eq!(slice_to_hex_string(&resp2.root.0), ZERO_HEX);
}

#[test]
fn empty_batch_gets_default_response() {
    let resp = build_memory_smt(opt(true, true), "", vec![]).unwrap();
    assert_eq!(slice_to_hex_string(&resp.root.0), ZERO_HEX);
    assert!(resp.proofs.is_empty());
}

#[test]
fn root_not_asked_is_zero() {
    let resp = build_memory_smt(opt(false, false), "", vec![pair(1, 10)]).unwrap();
    assert_eq!(slice_to_hex_string(&resp.root.0), ZERO_HEX);
}

#[test]
fn no_proof_gets_sentinel() {
    let resp = build_memory_smt(opt(false, true), "", vec![pair(1, 10)]).unwrap();
    assert_eq!(resp.proofs.len(), 1);
    assert_eq!(resp.proofs[0].0, ZERO_HEX);
    assert_eq!(resp.proofs[0].1, "");
}

#[test]
fn proofs_cover_distinct_keys() {
    let resp =
        build_memory_smt(opt(true, true), "", vec![pair(1, 10), pair(2, 11), pair(1, 12)]).unwrap();
    assert_eq!(resp.proofs.len(), 2);
    assert_eq!(resp.proofs[0].0, slice_to_hex_string(&key(1).0));
    assert_eq!(resp.proofs[1].0, slice_to_hex_string(&key(2).0));
    assert!(!resp.proofs[0].1.is_empty());
    assert!(!resp.proofs[1].1.is_empty());
}

#[test]
fn compiled_proofs_verify_against_root() {
    let resp = build_memory_smt(opt(true, true), "", vec![pair(1, 10), pair(2, 11)]).unwrap();
    let root: H256 = {
        let mut b = [0u8; 32];
        b.copy_from_slice(&resp.root.0);
        b.into()
    };
    for (hex_key, hex_proof) in &resp.proofs {
        let key_bytes: [u8; 32] = hex_decode(hex_key).try_into().unwrap();
        let value_last = if key_bytes[31] == 1 { 10 } else { 11 };
        let value: H256 = val(value_last).0.into();
        let proof = CompiledMerkleProof(hex_decode(hex_proof));
        let ok = proof
            .verify::<Blake2bHasher>(&root, vec![(key_bytes.into(), value)])
            .unwrap();
        assert!(ok, "proof must verify for key {}", hex_key);
    }
}

#[test]
fn tampered_value_fails_verification() {
    let resp = build_memory_smt(opt(true, true), "", vec![pair(1, 10)]).unwrap();
    let root: H256 = {
        let mut b = [0u8; 32];
        b.copy_from_slice(&resp.root.0);
        b.into()
    };
    let (hex_key, hex_proof) = &resp.proofs[0];
    let key_bytes: [u8; 32] = hex_decode(hex_key).try_into().unwrap();
    let wrong_value: H256 = val(99).0.into();
    let proof = CompiledMerkleProof(hex_decode(hex_proof));
    let ok = proof
        .verify::<Blake2bHasher>(&root, vec![(key_bytes.into(), wrong_value)])
        .unwrap();
    assert!(!ok, "a tampered value must not verify");
}

#[test]
fn tampered_root_fails_verification() {
    let resp = build_memory_smt(opt(true, true), "", vec![pair(1, 10)]).unwrap();
    let mut root_bytes = resp.root.0;
    root_bytes[0] ^= 1;
    let root: H256 = root_bytes.into();
    let (hex_key, hex_proof) = &resp.proofs[0];
    let key_bytes: [u8; 32] = hex_decode(hex_key).try_into().unwrap();
    let value: H256 = val(10).0.into();
    let proof = CompiledMerkleProof(hex_decode(hex_proof));
    let ok = proof
        .verify::<Blake2bHasher>(&root, vec![(key_bytes.into(), value)])
        .unwrap();
    assert!(!ok, "a tampered root must not verify");
}

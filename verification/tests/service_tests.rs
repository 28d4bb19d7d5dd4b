use sub_account_store::errors::SmtError;
use sub_account_store::service::{
    check_sequence_complete, check_wipe_root, collect_wipe_pairs, plan_chunks, root_is_zero,
    sequence_entry,
};
use sub_account_store::structures::{Pair, SmtKey, SmtProof, SmtRoot, SmtValue};
use sub_account_store::utils::slice_to_hex_string;

fn pair(k: u8, v: u8) -> Pair {
    let mut kb = [0u8; 32];
    kb[31] = k;
    let mut vb = [0u8; 32];
    vb[31] = v;
    Pair { key: SmtKey(kb), value: SmtValue(vb) }
}

#[test]
fn chunks_split_and_flatten_back() {
    let kvs: Vec<Pair> = (0..12).map(|i| pair(i as u8, 1)).collect();
    let chunks = plan_chunks(&kvs, 5);
    assert_eq!(chunks.len(), 3);
    assert_eq!(chunks[0].len(), 5);
    assert_eq!(chunks[1].len(), 5);
    assert_eq!(chunks[2].len(), 2);
    let flat: Vec<Pair> = chunks.into_iter().flatten().collect();
    assert_eq!(flat.len(), kvs.len());
    for (a, b) in flat.iter().zip(kvs.iter()) {
        assert_eq!(a.key.0, b.key.0);
        assert_eq!(a.value.0, b.value.0);
    }
}

#[test]
fn empty_batch_has_no_chunks() {
    let chunks = plan_chunks(&Vec::new(), 5000);
    assert!(chunks.is_empty());
}

#[test]
fn wipe_pairs_pick_only_leaf_records() {
    let prefix: Vec<u8> = b"t".to_vec();
    let mut leaf_key = vec![b't'];
    leaf_key.extend_from_slice(&[7u8; 32]);
    let mut branch_key = vec![b't', 0xff, 3];
    branch_key.extend_from_slice(&[9u8; 32]);
    let mut foreign = vec![b'u'];
    foreign.extend_from_slice(&[7u8; 32]);
    let short = vec![b't', 1, 2];
    let raws = vec![leaf_key, branch_key, foreign, short];
    let pairs = collect_wipe_pairs(&prefix, &raws);
    assert_eq!(pairs.len(), 1);
    assert_eq!(pairs[0].key.0, [7u8; 32]);
    assert_eq!(pairs[0].value.0, [0u8; 32]);
}

#[test]
fn wipe_pairs_keep_iteration_order() {
    let prefix: Vec<u8> = b"ab".to_vec();
    let mut first = b"ab".to_vec();
    first.extend_from_slice(&[1u8; 32]);
    let mut second = b"ab".to_vec();
    second.extend_from_slice(&[2u8; 32]);
    let pairs = collect_wipe_pairs(&prefix, &vec![first, second]);
    assert_eq!(pairs.len(), 2);
    assert_eq!(pairs[0].key.0, [1u8; 32]);
    assert_eq!(pairs[1].key.0, [2u8; 32]);
}

#[test]
fn zero_root_passes_wipe_check() {
    let root = SmtRoot([0u8; 32]);
    assert!(root_is_zero(&root));
    assert!(check_wipe_root(&root).is_ok());
}

#[test]
fn nonzero_root_fails_wipe_check() {
    let mut bytes = [0u8; 32];
    bytes[5] = 1;
    let root = SmtRoot(bytes);
    assert!(!root_is_zero(&root));
    assert_eq!(check_wipe_root(&root), Err(SmtError::WipePostconditionViolated));
}

#[test]
fn sequence_entries_accumulate() {
    let mut roots = Vec::new();
    let mut proofs = Vec::new();
    let mut kb = [0u8; 32];
    kb[31] = 1;
    let key = SmtKey(kb);
    let mut rb = [0u8; 32];
    rb[0] = 9;
    let root = SmtRoot(rb);
    let proof = SmtProof(vec![0x4c, 0x4f]);
    sequence_entry(&mut roots, &mut proofs, &key, &root, &proof);
    assert_eq!(roots.len(), 1);
    assert_eq!(proofs.len(), 1);
    assert_eq!(roots[0].0, slice_to_hex_string(&kb));
    assert_eq!(roots[0].1, slice_to_hex_string(&rb));
    assert_eq!(proofs[0].0, slice_to_hex_string(&kb));
    assert_eq!(proofs[0].1, "4c4f");
}

#[test]
fn complete_sequence_passes() {
    assert!(check_sequence_complete(1, 1).is_ok());
}

#[test]
fn incomplete_sequence_fails() {
    assert_eq!(check_sequence_complete(0, 2), Err(SmtError::ProofGenerationFailure));
}

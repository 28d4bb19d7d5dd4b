use sub_account_store::encoding::{branch_physical_key, bytes_starts_with, leaf_physical_key};
use sub_account_store::structures::{
    value_is_zero, IteratorSmtKey, Response, SmtKey, SmtProof, SmtRoot, SmtValue,
};
use sub_account_store::utils::{default_merkel_proof, get_empty_compiled_proof, slice_to_hex_string};

#[test]
fn hex_of_empty_is_empty() {
    assert_eq!(slice_to_hex_string(&[]), "");
}

#[test]
fn hex_of_bytes_is_lower_case_two_digits_each() {
    assert_eq!(slice_to_hex_string(&[0]), "00");
    assert_eq!(slice_to_hex_string(&[255]), "ff");
    assert_eq!(slice_to_hex_string(&[0xde, 0xad, 0x01]), "dead01");
    assert_eq!(slice_to_hex_string(&[0x0a, 0xb0]), "0ab0");
}

#[test]
fn empty_compiled_proof_is_empty() {
    assert!(get_empty_compiled_proof().0.is_empty());
}

#[test]
fn sentinel_proof_map_binds_zero_key_to_empty_proof() {
    let sentinel = default_merkel_proof();
    assert_eq!(sentinel.len(), 1);
    assert_eq!(
        sentinel[0].0,
        "0000000000000000000000000000000000000000000000000000000000000000"
    );
    assert_eq!(sentinel[0].1, "");
}

#[test]
fn leaf_physical_key_is_prefix_then_key() {
    let prefix = b"tree".to_vec();
    let key = SmtKey([3u8; 32]);
    let physical = leaf_physical_key(&prefix, &key);
    assert_eq!(physical.len(), 4 + 32);
    assert_eq!(&physical[..4], b"tree");
    assert_eq!(&physical[4..], &[3u8; 32]);
}

#[test]
fn branch_physical_key_is_prefix_tag_height_hash() {
    let prefix = b"t".to_vec();
    let node = SmtKey([8u8; 32]);
    let physical = branch_physical_key(&prefix, 42, &node);
    assert_eq!(physical.len(), 1 + 2 + 32);
    assert_eq!(physical[0], b't');
    assert_eq!(physical[1], 0xff);
    assert_eq!(physical[2], 42);
    assert_eq!(&physical[3..], &[8u8; 32]);
}

#[test]
fn starts_with_checks_prefix() {
    assert!(bytes_starts_with(&vec![1, 2, 3], &vec![1, 2]));
    assert!(bytes_starts_with(&vec![1, 2], &vec![1, 2]));
    assert!(!bytes_starts_with(&vec![1, 2], &vec![1, 2, 3]));
    assert!(!bytes_starts_with(&vec![2, 2, 3], &vec![1]));
    assert!(bytes_starts_with(&vec![1, 2, 3], &Vec::new()));
}

#[test]
fn zero_value_marker_is_detected() {
    assert!(value_is_zero(&SmtValue::zero()));
    let mut b = [0u8; 32];
    b[31] = 1;
    assert!(!value_is_zero(&SmtValue(b)));
}

#[test]
fn distinct_names_keep_distinct_records() {
    let key = SmtKey([5u8; 32]);
    let a = b"alpha".to_vec();
    let b = b"bravo".to_vec();
    assert_ne!(leaf_physical_key(&a, &key), leaf_physical_key(&b, &key));
    assert_ne!(branch_physical_key(&a, 0, &key), branch_physical_key(&b, 0, &key));
    assert_ne!(leaf_physical_key(&a, &key), branch_physical_key(&a, 0, &key));
}

#[test]
fn name_with_tag_suffix_is_the_known_exception() {
    // The raw-prefix layout has one ambiguity: a name that equals another
    // name followed by the 0xFF tag and one byte shares records with it.
    let short = vec![0x74];
    let long = vec![0x74, 0xff, 0x05];
    let key = SmtKey([9u8; 32]);
    assert_eq!(leaf_physical_key(&long, &key), branch_physical_key(&short, 0x05, &key));
}

#[test]
fn copy_new_copies_all_bytes() {
    let mut b = [0u8; 32];
    for (i, slot) in b.iter_mut().enumerate() {
        *slot = i as u8;
    }
    let k = SmtKey(b);
    let c = k.copy_new();
    assert_eq!(c.0, b);
}

#[test]
fn defaults_are_zero() {
    assert_eq!(SmtKey::default().0, [0u8; 32]);
    assert_eq!(SmtValue::default().0, [0u8; 32]);
    assert_eq!(SmtValue::zero().0, [0u8; 32]);
    assert_eq!(SmtRoot::default().0, [0u8; 32]);
    assert!(SmtProof::default().0.is_empty());
    let resp = Response::default();
    assert_eq!(resp.root.0, [0u8; 32]);
    assert!(resp.proofs.is_empty());
}

#[test]
fn key_iterator_counts_up_in_one_byte() {
    let mut it = IteratorSmtKey::default();
    let first = it.next().unwrap();
    assert_eq!(first.0, [0u8; 32]);
    let second = it.next().unwrap();
    let mut expected = [0u8; 32];
    expected[0] = 1;
    assert_eq!(second.0, expected);
    assert_eq!(it.cur_idx, 0);
    assert_eq!(it.cur_num, 2);
}

#[test]
fn key_iterator_carries_into_next_byte() {
    let mut it = IteratorSmtKey { cur_idx: 0, cur_num: 255 };
    let key = it.next().unwrap();
    let mut expected = [0u8; 32];
    expected[0] = 255;
    assert_eq!(key.0, expected);
    assert_eq!(it.cur_idx, 1);
    assert_eq!(it.cur_num, 1);
}

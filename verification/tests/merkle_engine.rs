use scholarship_merkle::merkle::{hash, merklize, verify_path};

fn rec(name: &str, block_index: u64, score: u64) -> ((String, u64), u64) {
    ((name.to_string(), block_index), score)
}

#[test]
fn hash_matches_known_sha256_of_empty_input() {
    let expected: [u8; 32] = [
        0xe3, 0xb0, 0xc4, 0x42, 0x98, 0xfc, 0x1c, 0x14, 0x9a, 0xfb, 0xf4, 0xc8, 0x99, 0x6f, 0xb9,
        0x24, 0x27, 0xae, 0x41, 0xe4, 0x64, 0x9b, 0x93, 0x4c, 0xa4, 0x95, 0x99, 0x1b, 0x78, 0x52,
        0xb8, 0x55,
    ];
    assert_eq!(hash(&[]), expected);
}

#[test]
fn hash_matches_known_sha256_of_abc() {
    let expected: [u8; 32] = [
        0xba, 0x78, 0x16, 0xbf, 0x8f, 0x01, 0xcf, 0xea, 0x41, 0x41, 0x40, 0xde, 0x5d, 0xae, 0x22,
        0x23, 0xb0, 0x03, 0x61, 0xa3, 0x96, 0x17, 0x7a, 0x9c, 0xb4, 0x10, 0xff, 0x61, 0xf2, 0x00,
        0x15, 0xad,
    ];
    assert_eq!(hash(b"abc"), expected);
}

#[test]
fn empty_input_commits_to_the_zero_sentinel() {
    let records: Vec<((String, u64), u64)> = vec![];
    let (root, proofs) = merklize(&records);
    assert_eq!(root, [0u8; 32]);
    assert!(proofs.is_empty());
    // The sentinel root is not the hash of any record: an empty proof
    // against it fails for an ordinary record.
    assert!(!verify_path(root, &vec![], &rec("anyone", 3, 7)));
}

#[test]
fn single_leaf_root_is_the_record_hash_with_an_empty_path() {
    let records = vec![rec("solo", 4, 88)];
    let (root, proofs) = merklize(&records);
    assert_eq!(proofs.len(), 1);
    assert!(proofs[0].is_empty());
    let bytes = borsh::to_vec(&records[0]).unwrap();
    assert_eq!(root, hash(&bytes));
    assert!(verify_path(root, &proofs[0], &records[0]));
}

#[test]
fn every_record_of_a_non_power_of_two_batch_round_trips() {
    let records = vec![rec("a", 1, 10), rec("b", 2, 95), rec("c", 3, 60)];
    let (root, proofs) = merklize(&records);
    assert_eq!(proofs.len(), 3);
    for (i, proof) in proofs.iter().enumerate() {
        assert_eq!(proof.len(), 2);
        assert!(verify_path(root, proof, &records[i]));
    }
}

#[test]
fn rebuilding_over_identical_records_reproduces_root_and_proofs() {
    let records = vec![rec("a", 1, 10), rec("b", 2, 95), rec("c", 3, 60), rec("d", 9, 5)];
    let (root1, proofs1) = merklize(&records);
    let (root2, proofs2) = merklize(&records);
    assert_eq!(root1, root2);
    assert_eq!(proofs1, proofs2);
}

#[test]
fn tampering_with_a_record_is_detected() {
    let records = vec![rec("a", 1, 10), rec("b", 2, 95), rec("c", 3, 60)];
    let (root, proofs) = merklize(&records);
    // A changed score, a changed period, and a changed subject each break
    // the hash chain.
    assert!(!verify_path(root, &proofs[1], &rec("b", 2, 96)));
    assert!(!verify_path(root, &proofs[1], &rec("b", 3, 95)));
    assert!(!verify_path(root, &proofs[1], &rec("c", 2, 95)));
    // A proof for one record says nothing about another.
    assert!(!verify_path(root, &proofs[0], &records[1]));
}

use scholarship_merkle::merkle::verify_path;
use scholarship_merkle::score::ScoreContract;

#[test]
fn test_prove_score() {
    let mut contract = ScoreContract::default();
    contract.record_score("bowen".to_string(), 0, 0);
    contract.record_score("illia".to_string(), 0, 100);
    let score_with_proof = contract.prove_score("bowen".to_string(), 100).unwrap();
    assert_eq!(score_with_proof.name, "bowen".to_string());
    assert_eq!(score_with_proof.block_index, 0);
    assert_eq!(score_with_proof.score, 0);
    let root = contract.compute_root();
    assert!(verify_path(
        root,
        &score_with_proof.proof,
        &((score_with_proof.name, score_with_proof.block_index), score_with_proof.score)
    ));
}

#[test]
fn floor_lookup_returns_the_latest_entry_at_or_before_the_period() {
    let mut contract = ScoreContract::default();
    contract.record_score("a".to_string(), 1, 10);
    contract.record_score("a".to_string(), 5, 80);
    contract.record_score("a".to_string(), 9, 95);

    let at_7 = contract.prove_score("a".to_string(), 7).unwrap();
    assert_eq!(at_7.block_index, 5);
    assert_eq!(at_7.score, 80);

    assert!(contract.prove_score("a".to_string(), 0).is_none());

    let at_100 = contract.prove_score("a".to_string(), 100).unwrap();
    assert_eq!(at_100.block_index, 9);
    assert_eq!(at_100.score, 95);
}

#[test]
fn unknown_subject_has_no_proof() {
    let mut contract = ScoreContract::default();
    contract.record_score("a".to_string(), 1, 10);
    assert!(contract.prove_score("z".to_string(), 10).is_none());
}

#[test]
fn rewriting_a_period_overwrites_its_score() {
    let mut contract = ScoreContract::default();
    contract.record_score("a".to_string(), 5, 10);
    contract.record_score("a".to_string(), 5, 42);
    let p = contract.prove_score("a".to_string(), 5).unwrap();
    assert_eq!(p.block_index, 5);
    assert_eq!(p.score, 42);
}

#[test]
fn write_order_does_not_change_the_committed_root() {
    let mut first = ScoreContract::default();
    first.record_score("ada".to_string(), 1, 10);
    let root_first = first.record_score("zoe".to_string(), 2, 95);

    let mut second = ScoreContract::default();
    second.record_score("zoe".to_string(), 2, 95);
    let root_second = second.record_score("ada".to_string(), 1, 10);

    assert_eq!(root_first, root_second);
}

#[test]
fn every_stored_proof_verifies_against_the_latest_root() {
    let mut contract = ScoreContract::default();
    contract.record_score("a".to_string(), 1, 10);
    contract.record_score("b".to_string(), 2, 95);
    let root = contract.record_score("a".to_string(), 3, 60);
    for (name, period) in [("a", 1), ("b", 2), ("a", 3)] {
        let p = contract.prove_score(name.to_string(), period).unwrap();
        assert!(verify_path(root, &p.proof, &((p.name, p.block_index), p.score)));
    }
}

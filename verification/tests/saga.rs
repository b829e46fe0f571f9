use scholarship_merkle::scholarship::{
    ExtContract, ExtScoreContract, ScholarshipContract, ScholarshipError, SCHOLARSHIP_AMOUNT,
};
use scholarship_merkle::score::{ExtScholarshipContract, ScoreContract};

const PERIOD: u64 = 17;

fn publish(sch: &mut ScholarshipContract, root: [u8; 32], period: u64) {
    sch.record_root(root, period, &"score-contract".to_string());
}

#[test]
fn a_proven_score_at_the_threshold_is_paid_the_fixed_reward() {
    let mut ledger = ScoreContract::default();
    let mut sch = ScholarshipContract::default();
    let root = ledger.record_score("alice".to_string(), PERIOD, 95);
    publish(&mut sch, root, PERIOD);

    let pay = sch.scholarship(&ledger, "alice".to_string(), PERIOD).unwrap();
    assert_eq!(pay.recipient, "alice".to_string());
    assert_eq!(pay.amount, SCHOLARSHIP_AMOUNT);
}

#[test]
fn a_score_below_the_threshold_is_not_paid() {
    let mut ledger = ScoreContract::default();
    let mut sch = ScholarshipContract::default();
    let root = ledger.record_score("bob".to_string(), PERIOD, 40);
    publish(&mut sch, root, PERIOD);

    assert!(sch.scholarship(&ledger, "bob".to_string(), PERIOD).is_none());
    let evidence = ledger.prove_score("bob".to_string(), PERIOD);
    assert_eq!(sch.check_scholarship_result(evidence), Ok(false));
}

#[test]
fn an_unpublished_period_yields_a_diagnostic_and_no_payment() {
    let mut ledger = ScoreContract::default();
    let sch = ScholarshipContract::default();
    ledger.record_score("carol".to_string(), PERIOD, 99);

    assert!(sch.scholarship(&ledger, "carol".to_string(), PERIOD).is_none());
    let evidence = ledger.prove_score("carol".to_string(), PERIOD);
    match sch.check_scholarship_result(evidence) {
        Err(ScholarshipError::UnknownRoot { proof, known_periods }) => {
            assert_eq!(proof.name, "carol".to_string());
            assert_eq!(proof.block_index, PERIOD);
            assert!(known_periods.is_empty());
        },
        other => panic!("expected an unknown-root diagnostic, got {:?}", other),
    }
}

#[test]
fn absent_evidence_yields_its_own_error_and_no_payment() {
    let ledger = ScoreContract::default();
    let sch = ScholarshipContract::default();
    assert!(sch.scholarship(&ledger, "nobody".to_string(), PERIOD).is_none());
    assert_eq!(sch.check_scholarship_result(None), Err(ScholarshipError::AbsentProof));
}

#[test]
fn a_mismatched_root_fails_verification_and_is_not_paid() {
    let mut ledger = ScoreContract::default();
    let mut sch = ScholarshipContract::default();
    ledger.record_score("dave".to_string(), PERIOD, 95);
    // A root that does not match what the ledger committed.
    publish(&mut sch, [7u8; 32], PERIOD);

    assert!(sch.scholarship(&ledger, "dave".to_string(), PERIOD).is_none());
    let evidence = ledger.prove_score("dave".to_string(), PERIOD);
    assert_eq!(sch.check_scholarship_result(evidence), Err(ScholarshipError::InvalidProof));
}

#[test]
fn an_unauthorized_publisher_changes_nothing() {
    let mut ledger = ScoreContract::default();
    let mut sch = ScholarshipContract::default();
    let root = ledger.record_score("eve".to_string(), PERIOD, 95);
    sch.record_root(root, PERIOD, &"mallory".to_string());

    assert!(sch.known_periods().is_empty());
    assert!(sch.scholarship(&ledger, "eve".to_string(), PERIOD).is_none());
}

#[test]
fn republishing_a_period_overwrites_the_pinned_root() {
    let mut ledger = ScoreContract::default();
    let mut sch = ScholarshipContract::default();
    let root1 = ledger.record_score("fay".to_string(), PERIOD, 95);
    publish(&mut sch, [7u8; 32], PERIOD);
    publish(&mut sch, root1, PERIOD);

    assert_eq!(sch.known_periods(), vec![PERIOD]);
    assert!(sch.scholarship(&ledger, "fay".to_string(), PERIOD).is_some());
}

#[test]
fn the_cross_service_interface_drives_the_same_saga() {
    let mut ledger = ScoreContract::default();
    let mut sch = ScholarshipContract::default();
    let root = ledger.record_score("hana".to_string(), PERIOD, 95);
    ExtScholarshipContract::record_root(&mut sch, root, PERIOD, &"score-contract".to_string());
    let evidence = ExtScoreContract::prove_score(&mut ledger, "hana".to_string(), PERIOD);
    let check = ExtContract::check_scholarship_result(&mut sch, evidence);
    let pay = ExtContract::grant_scholarship(&mut sch, "hana".to_string(), check).unwrap();
    assert_eq!(pay.recipient, "hana".to_string());
    assert_eq!(pay.amount, SCHOLARSHIP_AMOUNT);
}

#[test]
fn the_saga_uses_the_entry_period_not_the_requested_one() {
    let mut ledger = ScoreContract::default();
    let mut sch = ScholarshipContract::default();
    let root = ledger.record_score("gus".to_string(), PERIOD, 95);
    publish(&mut sch, root, PERIOD);

    // Asking at a later period resolves to the entry at PERIOD, whose root
    // is pinned.
    assert!(sch.scholarship(&ledger, "gus".to_string(), PERIOD + 10).is_some());
}

//! Admission and robustness, on measured banks.
use larql_represent::authority::{
    highest_binding, worst_binding_of, AuthorityState, BandPosition, BankOutcome, DisagreementGuard, MapOutcome,
    Robustness,
};
use larql_represent::reading::Reading;

/// A double, as the library holds it.
fn x(v: f64) -> Reading {
    Reading::from_bits(v.to_bits())
}

/// The threshold, and the band within which one bank cannot classify itself.
fn guard() -> DisagreementGuard {
    DisagreementGuard::new(x(3.5e-3), x(1.7494e-4)).expect("a positive finite band")
}

/// One reading's place relative to the guard.
fn position(value: f64) -> BandPosition {
    guard().position(x(f64::from_bits(guard().threshold.bits) - value))
}

/// The place of the worst bank.
fn worst(banks: &[BankOutcome]) -> BandPosition {
    position(f64::from_bits(highest_binding(banks).bits))
}

// ---- the guard --------------------------------------------------------

#[test]
fn a_band_must_be_positive_and_finite() {
    assert!(DisagreementGuard::new(x(3.5e-3), x(0.0)).is_none());
    assert!(DisagreementGuard::new(x(3.5e-3), x(-1.0)).is_none());
    assert!(DisagreementGuard::new(x(3.5e-3), x(f64::INFINITY)).is_none());
    assert!(DisagreementGuard::new(x(f64::NAN), x(1.0)).is_none());
    assert!(DisagreementGuard::new(x(3.5e-3), x(1.7494e-4)).is_some());
}

#[test]
fn band_positions_reproduce_the_recorded_classifications() {
    // K25 worst bank: admitted, but only +0.08 bands inside.
    assert_eq!(position(3.485444e-3), BandPosition::Indeterminate);
    // T1 selection: -0.85 bands, one bank cannot classify itself.
    assert_eq!(position(3.6480e-3), BandPosition::Indeterminate);
    // T1 held-out: -1.61 bands, determinate.
    assert_eq!(position(3.7821e-3), BandPosition::BeyondThreshold);
    // E26: +2.01 bands.
    assert_eq!(position(3.148652e-3), BandPosition::ClearOfThreshold);
    // U1: -4.69 bands, and S2 at -3.18.
    assert_eq!(position(4.3197e-3), BandPosition::BeyondThreshold);
    assert_eq!(position(4.0563e-3), BandPosition::BeyondThreshold);
}

// ---- admission is the contract, and a FAIL is final -------------------

#[test]
fn one_failing_bank_refuses_permanently() {
    let sel = BankOutcome::new("selection", false, x(3.6480e-3));
    assert_eq!(
        AuthorityState::of(std::slice::from_ref(&sel), 2),
        AuthorityState::Refused
    );

    // A later PASSING bank cannot resurrect it. This is the asymmetry.
    let held = BankOutcome::new("held-out", true, x(3.1e-3));
    assert_eq!(AuthorityState::of(&[sel, held], 2), AuthorityState::Refused);
}

#[test]
fn passing_fewer_banks_than_required_is_pending_not_admitted() {
    let sel = BankOutcome::new("selection", true, x(3.3532e-3));
    assert_eq!(
        AuthorityState::of(std::slice::from_ref(&sel), 2),
        AuthorityState::Pending
    );
    assert!(!AuthorityState::Pending.is_final());

    let held = BankOutcome::new("held-out", true, x(3.485444e-3));
    assert_eq!(
        AuthorityState::of(&[sel, held], 2),
        AuthorityState::Admitted
    );
}

#[test]
fn no_evidence_is_pending_never_admitted() {
    assert_eq!(AuthorityState::of(&[], 2), AuthorityState::Pending);
    assert_eq!(AuthorityState::of(&[], 0), AuthorityState::Pending);
}

#[test]
fn admitted_and_refused_are_final() {
    assert!(AuthorityState::Admitted.is_final());
    assert!(AuthorityState::Refused.is_final());
    assert_eq!(AuthorityState::Admitted.name(), "Admitted");
    assert_eq!(AuthorityState::Refused.name(), "Refused");
    assert_eq!(AuthorityState::Pending.name(), "Pending");
}

// ---- robustness is decisiveness, and only that ------------------------

#[test]
fn one_bank_cannot_classify_decisiveness() {
    let one = [BankOutcome::new("selection", false, x(3.6480e-3))];
    assert_eq!(Robustness::of(&one, worst(&one)), Robustness::Unreplicated);
    assert!(Robustness::Unreplicated.is_low_confidence());
}

#[test]
fn k25_is_admitted_and_boundary_adjacent() {
    let banks = [
        BankOutcome::new("selection", true, x(3.3532e-3)),
        BankOutcome::new("held-out", true, x(3.485444e-3)),
    ];
    assert_eq!(AuthorityState::of(&banks, 2), AuthorityState::Admitted);
    assert_eq!(
        Robustness::of(&banks, worst(&banks)),
        Robustness::BoundaryAdjacent
    );
    assert!(Robustness::BoundaryAdjacent.is_low_confidence());
}

#[test]
fn t1_is_refused_and_its_refusal_is_replicated() {
    let banks = [
        BankOutcome::new("selection", false, x(3.6480e-3)),
        BankOutcome::new("held-out", false, x(3.7821e-3)),
    ];
    assert_eq!(AuthorityState::of(&banks, 2), AuthorityState::Refused);
    assert_eq!(
        Robustness::of(&banks, worst(&banks)),
        Robustness::ReplicatedRefusal
    );
    assert!(!Robustness::ReplicatedRefusal.is_low_confidence());
}

#[test]
fn r5_f10_the_same_starting_classification_resolves_both_ways() {
    // K25 and T1 BOTH began INDETERMINATE on their first bank — K25 at
    // +0.84 bands inside, T1 at -0.85 outside, and neither clears the
    // guard. On bank one they are the same classification.
    assert_eq!(position(3.3532e-3), BandPosition::Indeterminate);
    assert_eq!(position(3.6480e-3), BandPosition::Indeterminate);

    // K25 resolved UP to a replicated pass; T1 resolved DOWN to a
    // determinate refusal. The sign of the resolution is not predictable
    // from the first bank, which is why this may never be a probability.
    let k25 = [
        BankOutcome::new("selection", true, x(3.3532e-3)),
        BankOutcome::new("held-out", true, x(3.485444e-3)),
    ];
    let t1 = [
        BankOutcome::new("selection", false, x(3.6480e-3)),
        BankOutcome::new("held-out", false, x(3.7821e-3)),
    ];
    assert_eq!(Robustness::of(&k25, worst(&k25)), Robustness::BoundaryAdjacent);
    assert_eq!(Robustness::of(&t1, worst(&t1)), Robustness::ReplicatedRefusal);
}

#[test]
fn banks_disagreeing_on_the_verdict_is_its_own_state() {
    let banks = [
        BankOutcome::new("selection", true, x(3.40e-3)),
        BankOutcome::new("held-out", false, x(3.60e-3)),
    ];
    assert_eq!(
        Robustness::of(&banks, worst(&banks)),
        Robustness::CrossBankDisagreement
    );
    assert!(Robustness::CrossBankDisagreement.is_low_confidence());
    // And admission is still Refused: one bank failed the contract.
    assert_eq!(AuthorityState::of(&banks, 2), AuthorityState::Refused);
}

#[test]
fn disagreement_is_judged_on_verdicts_not_on_the_binding_value() {
    // Both readings sit clear of the threshold on the binding statistic,
    // but one bank FAILED the contract — on some other statistic. That is
    // disagreement, and calling it agreement would report a stability the
    // evidence does not have.
    let banks = [
        BankOutcome::new("selection", true, x(3.0e-3)),
        BankOutcome::new("held-out", false, x(3.0e-3)),
    ];
    assert_eq!(
        Robustness::of(&banks, worst(&banks)),
        Robustness::CrossBankDisagreement
    );
}

#[test]
fn a_replicated_pass_clear_of_the_band_is_interior() {
    let banks = [
        BankOutcome::new("selection", true, x(2.9737e-3)),
        BankOutcome::new("held-out", true, x(3.148652e-3)),
    ];
    assert_eq!(
        Robustness::of(&banks, worst(&banks)),
        Robustness::ReplicatedInterior
    );
    assert!(!Robustness::ReplicatedInterior.is_low_confidence());
    assert_eq!(
        Robustness::ReplicatedInterior.name(),
        "ReplicatedInterior"
    );
}

#[test]
fn a_replicated_refusal_inside_the_band_is_boundary_adjacent_not_decisive() {
    let banks = [
        BankOutcome::new("selection", false, x(3.55e-3)),
        BankOutcome::new("held-out", false, x(3.56e-3)),
    ];
    assert_eq!(
        Robustness::of(&banks, worst(&banks)),
        Robustness::BoundaryAdjacent
    );
}

#[test]
fn the_worst_bank_decides_not_the_first_or_the_mean() {
    // Order must not matter, and a favourable first bank must not carry.
    let a = [
        BankOutcome::new("selection", false, x(3.6480e-3)),
        BankOutcome::new("held-out", false, x(3.7821e-3)),
    ];
    let b = [
        BankOutcome::new("held-out", false, x(3.7821e-3)),
        BankOutcome::new("selection", false, x(3.6480e-3)),
    ];
    assert_eq!(Robustness::of(&a, worst(&a)), Robustness::of(&b, worst(&b)));
}

// ---- the two machines, side by side and never merged ------------------

#[test]
fn map_outcome_derives_both_independently() {
    let banks = vec![
        BankOutcome::new("selection", false, x(3.6480e-3)),
        BankOutcome::new("held-out", false, x(3.7821e-3)),
    ];
    let place = worst(&banks);
    let t1 = MapOutcome::of(banks, place, 2);
    assert_eq!(t1.authority, AuthorityState::Refused);
    assert_eq!(t1.robustness, Robustness::ReplicatedRefusal);
    assert_eq!(t1.worst_binding(), Some(x(3.7821e-3)));
    assert_eq!(
        t1.outcomes.len(),
        2,
        "the evidence is kept, not just its verdict"
    );
}

#[test]
fn an_outcome_with_no_banks_has_no_worst_binding() {
    let none = MapOutcome::of(vec![], worst(&[]), 2);
    assert_eq!(none.worst_binding(), None);
    assert_eq!(none.authority, AuthorityState::Pending);
    assert_eq!(none.robustness, Robustness::Unreplicated);
}

/// A reading that is no number gives way to one that is.
#[test]
fn a_missing_number_is_never_the_worst() {
    let banks = [
        BankOutcome::new("a", true, x(f64::NAN)),
        BankOutcome::new("b", true, x(1.0)),
        BankOutcome::new("c", true, x(f64::NAN)),
        BankOutcome::new("d", true, x(0.5)),
    ];
    assert_eq!(worst_binding_of(&banks), Some(x(1.0)));
}

/// Where no bank read a number the highest value is below every threshold.
#[test]
fn no_number_at_all_is_clear_of_every_threshold() {
    let banks = vec![
        BankOutcome::new("a", true, x(f64::NAN)),
        BankOutcome::new("b", true, x(f64::NAN)),
    ];
    assert_eq!(highest_binding(&banks), x(f64::NEG_INFINITY));
    assert_eq!(highest_binding(&[]), x(f64::NEG_INFINITY));
    assert_eq!(worst(&banks), BandPosition::ClearOfThreshold);
    let place = worst(&banks);
    let m = MapOutcome::of(banks, place, 2);
    assert_eq!(m.robustness, Robustness::ReplicatedInterior);
    let banks = [
        BankOutcome::new("a", true, x(f64::NAN)),
        BankOutcome::new("b", true, x(2.0)),
        BankOutcome::new("c", true, x(-3.0)),
    ];
    assert_eq!(highest_binding(&banks), x(2.0));
}

//! Promoting measured candidates into a precision map.
use larql_represent::experiment::{
    ExperimentProvenance, RepresentationExperiment, RepresentationStatus, RoleScope,
};
use larql_represent::map::Precision;
use larql_represent::policy::Role;
use larql_represent::quality::{
    LogitEvidence, QualityBank, QualityEvidence, QualityGate, RoutingEvidence,
};
use larql_represent::reading::{Phrase, Piece, Reading};
use larql_represent::selection::{promote, unselected, Refusal};

/// A double, as the library holds it.
fn x(v: f64) -> Reading {
    Reading::from_bits(v.to_bits())
}

/// A phrase, with its numbers written out.
fn say(p: &Phrase) -> String {
    p.pieces
        .iter()
        .map(|piece| match piece {
            Piece::Words(w) => w.clone(),
            Piece::Scientific(v) => format!("{:.3e}", f64::from_bits(v.bits)),
            Piece::Fixed(v) => format!("{:.4}", f64::from_bits(v.bits)),
            Piece::CountScientific(n) => format!("{:.3e}", *n as f64),
            Piece::Times(n, d) => format!("{:.2}", *n as f64 / *d as f64),
            Piece::Percent(n, d) => format!("{:.1}", *n as f64 / *d as f64 * 100.0),
            Piece::Quoted(w) => format!("{w:?}"),
            Piece::Plain(v) => format!("{:?}", f64::from_bits(v.bits)),
        })
        .collect()
}

/// A candidate exactly as Q1 emits one: measured, natively dispatched,
/// and with NO logit bank behind it.
fn q1_candidate(target: &str, native: bool) -> RepresentationExperiment {
    RepresentationExperiment {
        model: "Kimi-Linear-48B-A3B-Instruct".into(),
        scope: RoleScope::role(Role::ExpertWeight),
        component: "RoutedExpertBank(layer=1, slots=9)".into(),
        source: "BF16".into(),
        target: target.into(),
        hardware: "Apple M3 Max".into(),
        source_bytes: 127_401_984,
        target_bytes: 52_254_720,
        quality: None,
        status: RepresentationStatus {
            represented: true,
            available: true,
            backend_supported: native,
            runnable: true,
            measured: native,
            selected: false,
        },
        provenance: ExperimentProvenance {
            gate: "emit_representation_experiment_records".into(),
            fixture: "LARQL_KIMI_MOE_FIXTURE".into(),
            native_kernel: native,
            caveats: vec![],
        },
    }
}

/// A record that has PASSED `kimi-logit-v1`, which is the only way a
/// quality claim can exist — there is no boolean to set.
fn with_quality_bank(mut c: RepresentationExperiment) -> RepresentationExperiment {
    c.quality = Some(QualityEvidence {
        gate: QualityGate {
            require_model_activations: None,
            id: "kimi-logit-v1".into(),
            positions_min: 512,
            kl_p99_max: x(1e-3),
            top1_flip_max: Some(0),
            top10_change_max: Some(8),
            route_flip_max: Some(0),
            covered_mass_min: None,
            top1_mass_displaced_max: None,
            top10_mass_displaced_p99_max: None,
            route_mixture_mass_p99_max: None,
            route_mixture_mass_max: None,
        },
        bank: QualityBank {
            activations: None,
            positions: 512,
            logits: LogitEvidence {
                kl_p50: x(1.2e-4),
                kl_p95: x(5.0e-4),
                kl_p99: x(9.1e-4),
                max_logit_delta: x(2.2e-2),
                top1_flips: 0,
                top10_changes: 2,
            },
            routing: RoutingEvidence {
                route_flips: 0,
                positions_with_route_change: 0,
                layers_with_route_change: 0,
                first_layer_with_route_change: None,
                route_margin: None,
                route_weight_mass_moved: None,
            },
            min_covered_mass: None,
            top10_margin: None,
            top10_candidate_margin: None,
            top10_mass_displaced: None,
            top10_rank_displacement: None,
            top1_margin: None,
            top1_candidate_margin: None,
            top1_mass_displaced: None,
        },
    });
    c
}

/// **Today's actual state, and the point of the quality gate.**
///
/// Q1 measured Q6_K thoroughly: it encodes, it dispatches through its
/// own kernel, it is 2.15x faster at 88 % of the bandwidth-bound ideal.
/// None of that is evidence about the model's output distribution, so
/// promotion must REFUSE — and say which gate is missing.
#[test]
fn a_measured_but_quality_unproven_candidate_is_refused() {
    let p = promote("kimi-q1".to_string(), "Q6_K".to_string(),
        &[q1_candidate("Q6_K", true)],
    );
    assert_eq!(p.promoted(), 0);
    assert_eq!(p.verdicts[0].outcome, Err(Refusal::QualityUnproven));
    assert!(
        p.map.roles.is_empty(),
        "a map may not name a role no evidence promoted"
    );
    // The fail-safe direction: an unpromoted role resolves to SOURCE
    // precision, so a refusal costs bytes, never correctness.
    assert!(matches!(
        p.map
            .resolve(Role::ExpertWeight, "3.mlp.experts.7.down_proj.weight"),
        Precision::Source
    ));
    assert!(say(&p.describe()).contains("no logit-level quality bank"));
}

/// With a bank behind it, the same candidate promotes, and the map now
/// governs the role.
#[test]
fn a_quality_proven_candidate_promotes_and_governs_its_role() {
    let c = with_quality_bank(q1_candidate("Q6_K", true));
    let p = promote("kimi-q2".to_string(), "Q6_K".to_string(), &[c]);
    assert_eq!(p.promoted(), 1);
    assert_eq!(p.verdicts[0].outcome, Ok(()));
    assert_eq!(p.map.roles, vec!["expert-weight"]);
    assert!(matches!(
        p.map
            .resolve(Role::ExpertWeight, "3.mlp.experts.7.down_proj.weight"),
        Precision::Compiled("Q6_K")
    ));
    // Roles nobody measured stay at source precision — the authority is
    // the map, not the backend's capability list.
    for role in [Role::Router, Role::Norm, Role::OutputHead] {
        assert!(matches!(
            p.map.resolve(role, "whatever"),
            Precision::Source
        ));
    }
    assert_eq!(
        unselected(&p.map, &[Role::ExpertWeight, Role::Router, Role::Norm]),
        vec![Role::Router, Role::Norm]
    );
}

/// **Capability is not authority.** A candidate whose backend support is
/// the ONLY thing it has going for it must not promote — this is the
/// failure the whole module exists to prevent.
#[test]
fn backend_support_alone_never_promotes() {
    let mut c = q1_candidate("Q4_K", true);
    c.status = RepresentationStatus {
        backend_supported: true,
        ..RepresentationStatus::default()
    };
    let p = promote("capability-only".to_string(), "Q4_K".to_string(), &[c]);
    assert_eq!(p.promoted(), 0);
    assert!(!RepresentationStatus {
        backend_supported: true,
        ..RepresentationStatus::default()
    }
    .ladder_complete());
}

/// A simulated point may carry quality numbers and still not promote:
/// its speed was never measured through a kernel that exists.
#[test]
fn a_simulated_candidate_is_refused_even_with_a_quality_bank() {
    let c = with_quality_bank(q1_candidate("MXFP4", false));
    let p = promote("kimi-mxfp4".to_string(), "MXFP4".to_string(), &[c]);
    assert_eq!(p.verdicts[0].outcome, Err(Refusal::NotNativelyMeasured));
}

/// Two candidates for one scope refuse BOTH, rather than letting input
/// order decide which representation a region gets.
#[test]
fn two_candidates_for_one_scope_refuse_each_other() {
    let a = with_quality_bank(q1_candidate("Q6_K", true));
    let b = with_quality_bank(q1_candidate("Q4_K", true));
    let p = promote("tie".to_string(), "Q6_K".to_string(), &[a, b]);
    assert_eq!(p.promoted(), 0);
    for v in &p.verdicts {
        assert!(matches!(
            v.outcome,
            Err(Refusal::ConflictingCandidates { .. })
        ));
    }
}

/// A narrower scope becomes a precision-map EXCEPTION, which is how
/// "gate/up at Q6, down at BF16" or "late layers protected" are
/// expressed — the thing a model-wide format label cannot say.
#[test]
fn a_narrow_scope_promotes_to_an_exception() {
    let mut c = with_quality_bank(q1_candidate("Q6_K", true));
    c.scope = RoleScope::role(Role::ExpertWeight)
        .projection("down_proj")
        .layers(20, 26);
    let p = promote("late-down-protected".to_string(), "Q4_K".to_string(), &[c]);
    assert_eq!(p.promoted(), 1);
    assert_eq!(p.map.exceptions.len(), 1);
    assert_eq!(p.map.exceptions[0].projection.as_deref(), Some("down_proj"));
    assert_eq!(p.map.exceptions[0].layers, Some((20, 26)));
    // The exception governs its own region and nothing else. Names are
    // OBJECT-RELATIVE — they begin at the depth index and end at
    // `.weight` — because that is what `layer_of`/`projection_of` parse.
    assert!(matches!(
        p.map
            .resolve(Role::ExpertWeight, "22.mlp.experts.3.down_proj.weight"),
        Precision::Compiled("Q6_K")
    ));
    assert!(matches!(
        p.map
            .resolve(Role::ExpertWeight, "22.mlp.experts.3.gate_proj.weight"),
        Precision::Compiled("Q4_K")
    ));
}

/// Several candidates for one scope is the NORMAL state, not a tie:
/// `CAN_REPRESENT_AS` is a many edge. When none of them is eligible, the
/// report must say why none was eligible — not that they conflict.
#[test]
fn unproven_rivals_report_their_own_missing_evidence_not_a_conflict() {
    let p = promote("kimi-q1-candidates".to_string(), "BF16".to_string(),
        &[
            q1_candidate("Q6_K", true),
            q1_candidate("Q4_K", true),
            q1_candidate("MXFP4", false),
        ],
    );
    assert_eq!(p.promoted(), 0);
    for v in &p.verdicts {
        assert_eq!(
            v.outcome,
            Err(Refusal::QualityUnproven),
            "{} should report its own missing bank, not a tie",
            v.target
        );
    }
}

/// **"Not measured" and "measured and refused" are different
/// instructions.**
///
/// `QualityUnproven` says go and run the bank. `QualityGateFailed` says
/// this representation is not good enough for THIS region — which is the
/// signal to narrow the scope, not to gather more positions. Collapsing
/// them would make the precision-allocation search unguidable.
#[test]
fn a_failed_gate_is_reported_differently_from_an_absent_one() {
    let unmeasured = q1_candidate("Q6_K", true);
    let p = promote("m".to_string(), "BF16".to_string(), &[unmeasured]);
    assert_eq!(p.verdicts[0].outcome, Err(Refusal::QualityUnproven));

    let mut refused = with_quality_bank(q1_candidate("Q6_K", true));
    // The bank ran, over enough positions, and the ROUTING moved — a
    // decision change, not an arithmetic one.
    if let Some(q) = refused.quality.as_mut() {
        q.bank.routing = RoutingEvidence {
            route_flips: 37,
            positions_with_route_change: 21,
            layers_with_route_change: 4,
            first_layer_with_route_change: None,
            route_margin: None,
            route_weight_mass_moved: None,
        };
    }
    let p = promote("m".to_string(), "BF16".to_string(), &[refused.clone()]);
    match &p.verdicts[0].outcome {
        Err(Refusal::QualityGateFailed { verdict }) => {
            let said = say(verdict);
            assert!(said.contains("kimi-logit-v1"), "{said}");
            assert!(said.contains("route_flips"), "{said}");
        }
        other => panic!("expected a gate failure, got {other:?}"),
    }
    // And the mechanism is legible: logits were fine, routing was not.
    let q = refused.quality.as_ref().expect("bank");
    assert!(!q.is_arithmetic_only());
    assert!(q.gate.kl_p99_max.exceeds(q.bank.logits.kl_p99));
}

/// Each refusal says what it is for.
#[test]
fn every_refusal_is_described() {
    assert!(say(&Refusal::LadderIncomplete.describe()).len() > 0);
    assert!(say(&Refusal::NotNativelyMeasured.describe()).len() > 0);
    let tie = Refusal::ConflictingCandidates {
        other: "Q4_K".into(),
    };
    assert!(say(&tie.describe()).contains("Q4_K"));
}

/// A candidate whose kernel ran and whose bank passed still waits for the
/// rest of its ladder.
#[test]
fn an_incomplete_ladder_is_refused() {
    let mut c = with_quality_bank(q1_candidate("Q6_K", true));
    c.status.available = false;
    let p = promote("m".to_string(), "Q6_K".to_string(), &[c]);
    assert_eq!(p.verdicts[0].outcome, Err(Refusal::LadderIncomplete));
}

#[test]
fn an_exception_governs_its_own_role_alone() {
    let mut router = with_quality_bank(q1_candidate("Q8_0", true));
    router.scope = RoleScope::role(Role::Router);
    let experts = with_quality_bank(q1_candidate("Q6_K", true));
    for order in [
        vec![router.clone(), experts.clone()],
        vec![experts, router],
    ] {
        let p = promote("m".into(), "Q4_K".into(), &order);
        assert_eq!(p.promoted(), 2);
        assert_eq!(
            p.map.resolve(Role::Router, "3.mlp.gate.weight"),
            Precision::Compiled("Q8_0")
        );
        assert_eq!(
            p.map
                .resolve(Role::ExpertWeight, "3.mlp.experts.1.up_proj.weight"),
            Precision::Compiled("Q6_K")
        );
        assert_eq!(
            p.map.resolve(Role::Norm, "3.input_layernorm.weight"),
            Precision::Source
        );
    }
}

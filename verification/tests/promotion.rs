//! Which candidate to measure next, when some of its costs cannot be priced.
use larql_represent::measurement::{EvidenceScale, MeasurementStatus, Statistic};
use larql_represent::promotion::{
    CandidateAssessment, MarginalConstraintCost, MarginalCost, MoveClass, PromotionCandidate,
    PromotionReadiness, ProxyObservation, ProxyRisk, RankingScore,
};
use larql_represent::reading::Reading;
use larql_represent::search_evidence::{SearchCalibrationRegistry, SearchEvidence};

/// A double, as the library holds it.
fn x(v: f64) -> Reading {
    Reading::from_bits(v.to_bits())
}

/// A diagnostic assessment: kl orders and cannot be priced, the routed mixture
/// can be neither. A move that removes no more than its parent buys nothing.
fn candidate(name: &str, removes: f64) -> CandidateAssessment {
    CandidateAssessment {
        candidate_map: name.into(),
        marginal: MarginalCost {
            costs: vec![
                MarginalConstraintCost {
                    what: Statistic::KlP99,
                    evidence: SearchEvidence::OrderingProxy {
                        calibration: "ROUTE-CAL-1".into(),
                    },
                },
                MarginalConstraintCost {
                    what: Statistic::RouteMixtureMassP99,
                    evidence: SearchEvidence::Unusable,
                },
            ],
        },
        ranking_score: RankingScore {
            class: if removes > 0.16 {
                MoveClass::Unscorable
            } else {
                MoveClass::Worthless
            },
            place: -((removes * 1e6) as i64),
        },
    }
}

/// A candidate, with the pressure its usable proxies sum to.
fn promotion(
    assessment: CandidateAssessment,
    proxies: Vec<ProxyObservation>,
) -> PromotionCandidate {
    let pressure: f64 = proxies
        .iter()
        .filter(|p| p.usable())
        .map(|p| f64::from_bits(p.candidate.bits) - f64::from_bits(p.parent.bits))
        .sum();
    PromotionCandidate::new(assessment, proxies, x(pressure))
}

fn flip_rate(parent: f64, cand: f64) -> ProxyObservation {
    ProxyObservation {
        statistic: Statistic::RouteFlipRate,
        for_criterion: Statistic::RouteMixtureMassP99,
        parent: x(parent),
        candidate: x(cand),
        evidence: SearchEvidence::OrderingProxy {
            calibration: "ROUTE-CAL-1".into(),
        },
    }
}

// ── The invariant. ──

#[test]
fn an_unpriced_dimension_cannot_create_an_advantage_by_being_invisible() {
    // A buys MORE and costs LESS on the one dimension anybody can
    // price. Its route cost is unpriceable at this scale — and the
    // flip-rate proxy says it moves routing hard.
    let a = promotion(
        candidate("A dangerous", 0.24),
        vec![flip_rate(0.16, 0.31)],
    );
    // B buys less, costs marginally more on kl, and its proxy is benign.
    let b = promotion(
        candidate("B benign", 0.22),
        vec![flip_rate(0.16, 0.15)],
    );

    // Everything an economics-only ranking can see favours A.
    assert!(
        a.assessment.ranking_score.place < b.assessment.ranking_score.place,
        "A buys more, and on economics alone A would win"
    );

    // It must not, because the reason its route cost looks like nothing
    // is that nothing could measure it.
    assert_eq!(a.readiness(), PromotionReadiness::ProxyRisky);
    assert_eq!(b.readiness(), PromotionReadiness::ProxySupported);
    assert_eq!(
        b.cmp_rank(&a),
        std::cmp::Ordering::Less,
        "B must promote first"
    );
    assert!(a.why().contains("Elevated"), "{}", a.why());
}

#[test]
fn no_proxy_at_all_is_worse_than_a_warning_proxy() {
    // "Nobody has measured this" ranks below "a proxy says it is bad",
    // because a warning is information and silence is not.
    let risky = promotion(
        candidate("risky", 0.22),
        vec![flip_rate(0.16, 0.30)],
    );
    let uninformed = promotion(candidate("uninformed", 0.22), vec![]);
    assert_eq!(risky.readiness(), PromotionReadiness::ProxyRisky);
    assert_eq!(uninformed.readiness(), PromotionReadiness::Uninformed);
    assert_eq!(risky.cmp_rank(&uninformed), std::cmp::Ordering::Less);
    assert!(
        uninformed.why().contains("no proxy"),
        "{}",
        uninformed.why()
    );
}

#[test]
fn an_unusable_proxy_carries_no_weight() {
    // ROUTE-CAL-1 marked diagnostic route mass p99 Unusable. Offering it
    // AS a proxy must not launder it into evidence.
    let mut p = flip_rate(0.16, 0.15);
    p.evidence = SearchEvidence::Unusable;
    let c = promotion(candidate("c", 0.22), vec![p]);
    assert_eq!(
        c.readiness(),
        PromotionReadiness::Uninformed,
        "an unusable observation is not a benign one"
    );
}

#[test]
fn the_weakest_unpriceable_dimension_decides_not_the_average() {
    // One benign proxy must not offset one missing.
    let a = promotion(
        candidate("a", 0.22),
        vec![flip_rate(0.16, 0.15)],
    );
    assert_eq!(a.readiness(), PromotionReadiness::ProxySupported);
    let mut orphan = flip_rate(0.16, 0.15);
    orphan.for_criterion = Statistic::Top10Changes;
    let b = promotion(candidate("b", 0.22), vec![orphan]);
    assert_eq!(
        b.readiness(),
        PromotionReadiness::Uninformed,
        "a proxy for a different criterion speaks to nothing here"
    );
}

#[test]
fn a_worthless_move_ranks_last_whatever_its_evidence() {
    let worthless = promotion(
        candidate("worthless", 0.16),
        vec![flip_rate(0.16, 0.10)],
    );
    let uninformed = promotion(candidate("uninformed", 0.22), vec![]);
    assert_eq!(
        worthless.assessment.ranking_score.class,
        MoveClass::Worthless
    );
    assert_eq!(
        uninformed.cmp_rank(&worthless),
        std::cmp::Ordering::Less,
        "even the least informed real gain beats a move that buys nothing"
    );
}

#[test]
fn the_order_is_total_and_reproducible() {
    let mk = |n: &str| {
        promotion(candidate(n, 0.22), vec![flip_rate(0.16, 0.15)])
    };
    let (a, b) = (mk("aaa"), mk("zzz"));
    assert_eq!(a.cmp_rank(&b), std::cmp::Ordering::Less, "identity decides");
    assert_eq!(b.cmp_rank(&a), std::cmp::Ordering::Greater);
    let mut one = [a.clone(), b.clone()];
    let mut two = [b, a];
    one.sort_by(PromotionCandidate::cmp_rank);
    two.sort_by(PromotionCandidate::cmp_rank);
    let names = |v: &[PromotionCandidate]| {
        v.iter()
            .map(|c| c.assessment.candidate_map.clone())
            .collect::<Vec<_>>()
    };
    assert_eq!(names(&one), names(&two));
}

#[test]
fn a_proxy_is_a_direction_and_never_a_magnitude() {
    // The conflation search_evidence exists to prevent: rho +0.991 is
    // good enough to say "worse", not good enough to say "worse by
    // this much of the remaining budget".
    let big = flip_rate(0.16, 0.90);
    let small = flip_rate(0.16, 0.17);
    assert_eq!(big.risk(), ProxyRisk::Elevated);
    assert_eq!(small.risk(), ProxyRisk::Elevated);
    let c = promotion(candidate("c", 0.22), vec![big]);
    // No route price appears anywhere in the assessment.
    assert_eq!(c.assessment.ranking_score.class, MoveClass::Unscorable);
    assert_eq!(c.readiness(), PromotionReadiness::ProxyRisky);
}

/// **(5)** A candidate is CLASSIFIED by the proxy and never priced by
/// it: readiness improves, and no route-flip cost exists to spend.
#[test]
fn the_proxy_classifies_a_candidate_without_pricing_it() {
    let evidence = SearchCalibrationRegistry::route_cal_1().evidence_for(
        Statistic::RouteFlipRate,
        EvidenceScale::Diagnostic,
        &MeasurementStatus::Measured,
    );
    let proxy = ProxyObservation {
        statistic: Statistic::RouteFlipRate,
        for_criterion: Statistic::RouteMixtureMassP99,
        parent: x(0.180),
        candidate: x(0.176),
        evidence,
    };
    let candidate = promotion(candidate("c", 0.22), vec![proxy]);
    assert_eq!(
        candidate.readiness(),
        PromotionReadiness::ProxySupported,
        "the search may PREFER on it"
    );
    assert!(
        !candidate
            .assessment
            .marginal
            .costs
            .iter()
            .any(|c| c.what == Statistic::RouteFlipRate || c.what == Statistic::RouteFlips),
        "and there is no route-flip cost anywhere to spend against a budget"
    );
}

/// Every tier of readiness promotes before the next.
#[test]
fn a_priceable_candidate_promotes_before_a_proxied_one() {
    let mut priced = candidate("priced", 0.17);
    for c in &mut priced.marginal.costs {
        c.evidence = SearchEvidence::Direct;
    }
    let priced = promotion(priced, vec![]);
    assert_eq!(priced.readiness(), PromotionReadiness::Priceable);
    assert_eq!(priced.why(), "Priceable: every judged dimension was priceable");
    let proxied = promotion(candidate("proxied", 0.24), vec![flip_rate(0.16, 0.15)]);
    assert_eq!(priced.cmp_rank(&proxied), std::cmp::Ordering::Less);
    assert_eq!(proxied.cmp_rank(&proxied), std::cmp::Ordering::Equal);
    assert!(proxied.why().contains("orders itself"), "{}", proxied.why());
}

/// Within a tier and equal economics, the lower pressure promotes first.
#[test]
fn pressure_separates_what_economics_call_equal() {
    let low = promotion(candidate("z", 0.22), vec![flip_rate(0.16, 0.10)]);
    let high = promotion(candidate("a", 0.22), vec![flip_rate(0.16, 0.15)]);
    assert_eq!(low.cmp_rank(&high), std::cmp::Ordering::Less);
}

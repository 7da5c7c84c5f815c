//! The acceptance contracts this build implements, by name.
//!
//! A gate is frozen under its name: a threshold that turns out wrong gets a
//! new id, because editing one in place would re-date every claim that ever
//! cited it.
use crate::error::VindexError;
use crate::quality::{failures_of, passes, Criterion, QualityBank, QualityGate};
use crate::reading::Reading;
use crate::text::same;
use vstd::prelude::*;
use vstd::string::*;

verus! {

/// 1e-3.
pub const KL_P99_STRICT: u64 = 0x3f50_624d_d2f1_a9fc;

/// 3.5e-3.
pub const KL_P99_BALANCED: u64 = 0x3f6c_ac08_3126_e979;

/// 0.60.
pub const COVERED_MASS: u64 = 0x3fe3_3333_3333_3333;

/// 0.55.
pub const COVERED_MASS_BALANCED: u64 = 0x3fe1_9999_9999_999a;

/// 0.05.
pub const TOP1_GIVE_UP: u64 = 0x3fa9_9999_9999_999a;

/// 0.10.
pub const TOP10_MASS: u64 = 0x3fb9_9999_9999_999a;

/// 0.12.
pub const DISPLACED_BALANCED: u64 = 0x3fbe_b851_eb85_1eb8;

/// 0.15.
pub const ROUTE_MASS_P99: u64 = 0x3fc3_3333_3333_3333;

/// 0.25.
pub const ROUTE_MASS_MAX: u64 = 0x3fd0_0000_0000_0000;

/// A limit with these bits.
pub open spec fn limit(bits: u64) -> Option<Reading> {
    Some(Reading { bits })
}

/// The thresholds of `kimi-logit-v1`.
pub open spec fn is_v1(g: QualityGate) -> bool {
    &&& g.id@ == "kimi-logit-v1"@
    &&& g.positions_min == 4096
    &&& g.kl_p99_max.bits == KL_P99_STRICT
    &&& g.top1_flip_max == Some(8u64)
    &&& g.top10_change_max == Some(82u64)
    &&& g.route_flip_max == Some(82u64)
    &&& g.covered_mass_min is None
    &&& g.require_model_activations is None
    &&& g.top1_mass_displaced_max is None
    &&& g.top10_mass_displaced_p99_max is None
    &&& g.route_mixture_mass_p99_max is None
    &&& g.route_mixture_mass_max is None
}

/// The thresholds of `kimi-logit-v2`: v1's, and a floor on coverage.
pub open spec fn is_v2(g: QualityGate) -> bool {
    &&& g.id@ == "kimi-logit-v2"@
    &&& g.positions_min == 4096
    &&& g.kl_p99_max.bits == KL_P99_STRICT
    &&& g.top1_flip_max == Some(8u64)
    &&& g.top10_change_max == Some(82u64)
    &&& g.route_flip_max == Some(82u64)
    &&& g.covered_mass_min == limit(COVERED_MASS)
    &&& g.require_model_activations is None
    &&& g.top1_mass_displaced_max is None
    &&& g.top10_mass_displaced_p99_max is None
    &&& g.route_mixture_mass_p99_max is None
    &&& g.route_mixture_mass_max is None
}

/// The thresholds of `kimi-logit-v3`: no counts, limits on consequence.
pub open spec fn is_v3(g: QualityGate) -> bool {
    &&& g.id@ == "kimi-logit-v3"@
    &&& g.positions_min == 4096
    &&& g.kl_p99_max.bits == KL_P99_STRICT
    &&& g.top1_flip_max is None
    &&& g.top10_change_max is None
    &&& g.route_flip_max is None
    &&& g.covered_mass_min == limit(COVERED_MASS)
    &&& g.require_model_activations is None
    &&& g.top1_mass_displaced_max == limit(TOP1_GIVE_UP)
    &&& g.top10_mass_displaced_p99_max == limit(TOP10_MASS)
    &&& g.route_mixture_mass_p99_max == limit(ROUTE_MASS_P99)
    &&& g.route_mixture_mass_max == limit(ROUTE_MASS_MAX)
}

/// The thresholds of `kimi-logit-balanced-v1`.
pub open spec fn is_balanced_v1(g: QualityGate) -> bool {
    &&& g.id@ == "kimi-logit-balanced-v1"@
    &&& g.positions_min == 4096
    &&& g.kl_p99_max.bits == KL_P99_BALANCED
    &&& g.top1_flip_max is None
    &&& g.top10_change_max is None
    &&& g.route_flip_max is None
    &&& g.covered_mass_min == limit(COVERED_MASS_BALANCED)
    &&& g.require_model_activations is None
    &&& g.top1_mass_displaced_max == limit(DISPLACED_BALANCED)
    &&& g.top10_mass_displaced_p99_max == limit(DISPLACED_BALANCED)
    &&& g.route_mixture_mass_p99_max == limit(ROUTE_MASS_P99)
    &&& g.route_mixture_mass_max == limit(ROUTE_MASS_MAX)
}

/// `kimi-logit-v1`, the first acceptance contract: a stated prior, written as
/// fractions of an 8192-position bank.
pub fn kimi_logit_v1() -> (r: QualityGate)
    ensures
        is_v1(r),
{
    QualityGate {
        id: "kimi-logit-v1".to_owned(),
        positions_min: 4096,
        kl_p99_max: Reading { bits: KL_P99_STRICT },
        top1_flip_max: Some(8),
        top10_change_max: Some(82),
        route_flip_max: Some(82),
        covered_mass_min: None,
        require_model_activations: None,
        top1_mass_displaced_max: None,
        top10_mass_displaced_p99_max: None,
        route_mixture_mass_p99_max: None,
        route_mixture_mass_max: None,
    }
}

/// `kimi-logit-v2`: v1 plus a bank-validity criterion. The bank has to say how
/// much of the baseline distribution its truncation covered.
pub fn kimi_logit_v2() -> (r: QualityGate)
    ensures
        is_v2(r),
{
    QualityGate {
        id: "kimi-logit-v2".to_owned(),
        covered_mass_min: Some(Reading { bits: COVERED_MASS }),
        require_model_activations: None,
        ..kimi_logit_v1()
    }
}

/// `kimi-logit-v3`: judged by consequence, not by discrete-change counts. One
/// large mixture replacement fails it; a thousand near-ties do not.
pub fn kimi_logit_v3() -> (r: QualityGate)
    ensures
        is_v3(r),
{
    QualityGate {
        id: "kimi-logit-v3".to_owned(),
        top1_flip_max: None,
        top10_change_max: None,
        route_flip_max: None,
        top1_mass_displaced_max: Some(Reading { bits: TOP1_GIVE_UP }),
        top10_mass_displaced_p99_max: Some(Reading { bits: TOP10_MASS }),
        route_mixture_mass_p99_max: Some(Reading { bits: ROUTE_MASS_P99 }),
        route_mixture_mass_max: Some(Reading { bits: ROUTE_MASS_MAX }),
        ..kimi_logit_v2()
    }
}

/// `kimi-logit-balanced-v1`: noticeable but bounded movement, each limit drawn
/// from the gap between the last candidate whose changes stayed small and the
/// first whose consequences changed character.
pub fn kimi_logit_balanced_v1() -> (r: QualityGate)
    ensures
        is_balanced_v1(r),
{
    QualityGate {
        id: "kimi-logit-balanced-v1".to_owned(),
        kl_p99_max: Reading { bits: KL_P99_BALANCED },
        covered_mass_min: Some(Reading { bits: COVERED_MASS_BALANCED }),
        require_model_activations: None,
        top1_mass_displaced_max: Some(Reading { bits: DISPLACED_BALANCED }),
        top10_mass_displaced_p99_max: Some(Reading { bits: DISPLACED_BALANCED }),
        ..kimi_logit_v3()
    }
}

/// The quality gate of this name is implemented.
pub open spec fn is_implemented(id: Seq<char>) -> bool {
    id == "kimi-logit-v1"@ || id == "kimi-logit-v2"@ || id == "kimi-logit-v3"@ || id
        == "kimi-logit-balanced-v1"@
}

/// The quality gate is the implemented one of its name.
pub open spec fn is_registered(g: QualityGate) -> bool {
    is_v1(g) || is_v2(g) || is_v3(g) || is_balanced_v1(g)
}

/// The refusal of a gate this build does not implement.
pub open spec fn no_gate_text(id: Seq<char>) -> Seq<char> {
    "no gate named `"@ + id
        + "` is implemented by this build — a run judged under another gate would carry a verdict nobody asked for"@
}

/// The names of the implemented gates, oldest first.
pub open spec fn gate_names() -> Seq<Seq<char>> {
    seq![
        "kimi-logit-v1"@,
        "kimi-logit-v2"@,
        "kimi-logit-v3"@,
        "kimi-logit-balanced-v1"@,
    ]
}

/// The names [`gate_by_id`] resolves, oldest first.
pub fn implemented_gates() -> (r: Vec<&'static str>)
    ensures
        r@.map_values(|s: &'static str| s@) == gate_names(),
        forall|i: int| 0 <= i < r@.len() ==> is_implemented((#[trigger] r@[i])@),
        forall|id: Seq<char>|
            #[trigger] is_implemented(id) ==> exists|i: int|
                0 <= i < r@.len() && (#[trigger] r@[i])@ == id,
{
    let r: Vec<&'static str> = vec![
        "kimi-logit-v1",
        "kimi-logit-v2",
        "kimi-logit-v3",
        "kimi-logit-balanced-v1",
    ];
    assert forall|id: Seq<char>| #[trigger] is_implemented(id) implies exists|i: int|
        0 <= i < r@.len() && (#[trigger] r@[i])@ == id by {
        if id == "kimi-logit-v1"@ {
            assert(r@[0]@ == id);
        } else if id == "kimi-logit-v2"@ {
            assert(r@[1]@ == id);
        } else if id == "kimi-logit-v3"@ {
            assert(r@[2]@ == id);
        } else {
            assert(r@[3]@ == id);
        }
    }
    assert(r@.map_values(|s: &'static str| s@) =~= gate_names());
    r
}

/// The quality gate of this name. No fallback: an unknown id is refused, never
/// resolved to whichever gate happens to be current.
pub fn gate_by_id(id: &str) -> (r: Result<QualityGate, VindexError>)
    ensures
        match r {
            Ok(g) => is_registered(g) && g.id@ == id@,
            Err(e) => !is_implemented(id@) && e.text() == no_gate_text(id@),
        },
{
    if same(id, "kimi-logit-v1") {
        Ok(kimi_logit_v1())
    } else if same(id, "kimi-logit-v2") {
        Ok(kimi_logit_v2())
    } else if same(id, "kimi-logit-v3") {
        Ok(kimi_logit_v3())
    } else if same(id, "kimi-logit-balanced-v1") {
        Ok(kimi_logit_balanced_v1())
    } else {
        let mut m: String = "no gate named `".to_owned();
        m.append(id);
        m.append(
            "` is implemented by this build — a run judged under another gate would carry a verdict nobody asked for",
        );
        Err(VindexError::Parse(m))
    }
}

/// **v2 is v1 plus coverage and nothing else.** A bank passes v2 exactly when
/// it passes v1 and recorded a coverage of at least 0.60.
pub proof fn law_v2_is_v1_and_coverage(v1: QualityGate, v2: QualityGate, b: QualityBank)
    requires
        is_v1(v1),
        is_v2(v2),
    ensures
        passes(v2, b) <==> passes(v1, b) && (b.min_covered_mass matches Some(got) && (Reading {
            bits: COVERED_MASS,
        }).within(got)),
{
}

/// **v3 gives counts no authority.** Two banks that differ in how many
/// discrete changes there were, and both have some of each kind, are judged
/// alike.
pub proof fn law_v3_ignores_counts(v3: QualityGate, a: QualityBank, b: QualityBank)
    requires
        is_v3(v3),
        a.logits.top1_flips > 0,
        a.logits.top10_changes > 0,
        a.routing.route_flips > 0,
        b.logits.top1_flips > 0,
        b.logits.top10_changes > 0,
        b.routing.route_flips > 0,
        a.positions == b.positions,
        a.logits.kl_p99 == b.logits.kl_p99,
        a.min_covered_mass == b.min_covered_mass,
        a.top1_mass_displaced == b.top1_mass_displaced,
        a.top10_mass_displaced == b.top10_mass_displaced,
        a.routing.route_weight_mass_moved == b.routing.route_weight_mass_moved,
    ensures
        failures_of(v3, a) == failures_of(v3, b),
{
}

/// **An unmeasured consequence is not a small one.** A gate that bounds a
/// consequence refuses a bank that changed something and recorded no severity.
pub proof fn law_unmeasured_consequence_fails(g: QualityGate, b: QualityBank)
    requires
        ({
            ||| g.top1_mass_displaced_max is Some && b.top1_mass_displaced is None
                && b.logits.top1_flips > 0
            ||| g.top10_mass_displaced_p99_max is Some && b.top10_mass_displaced is None
                && b.logits.top10_changes > 0
            ||| (g.route_mixture_mass_p99_max is Some || g.route_mixture_mass_max is Some)
                && b.routing.route_weight_mass_moved is None && b.routing.route_flips > 0
            ||| g.covered_mass_min is Some && b.min_covered_mass is None
            ||| g.require_model_activations == Some(true) && b.activations is None
        }),
    ensures
        !passes(g, b),
{
}

/// **Nothing changed is not a missing measurement.** A bank without a single
/// discrete change is never refused for recording no displacement.
pub proof fn law_nothing_changed_needs_no_severity(g: QualityGate, b: QualityBank, i: int)
    requires
        b.logits.top1_flips == 0,
        b.logits.top10_changes == 0,
        b.routing.route_flips == 0,
        b.top1_mass_displaced is None,
        b.top10_mass_displaced is None,
        b.routing.route_weight_mass_moved is None,
        0 <= i < failures_of(g, b).len(),
    ensures
        failures_of(g, b)[i].0 != Criterion::Top1Displacement,
        failures_of(g, b)[i].0 != Criterion::TopKDisplacement,
        failures_of(g, b)[i].0 != Criterion::RouteDisplacement,
{
}

/// **What each implemented gate lets through.** `kimi-logit-v1` passes a bank
/// of at least 4096 positions exactly where its p99 divergence is not above
/// 1e-3, with at most 8 top-1 flips and at most 82 changes of each of the
/// other kinds.
pub proof fn law_what_v1_lets_through(g: QualityGate, b: QualityBank)
    requires
        is_v1(g),
    ensures
        passes(g, b) <==> {
            &&& b.positions >= 4096
            &&& !b.logits.kl_p99.above(Reading { bits: 0x3f50_624d_d2f1_a9fc })
            &&& b.logits.top1_flips <= 8
            &&& b.logits.top10_changes <= 82
            &&& b.routing.route_flips <= 82
        },
{
}

/// **The balanced gate is the looser one.** A bank that passes v3 passes the
/// balanced gate too.
pub proof fn law_v3_implies_balanced(v3: QualityGate, balanced: QualityGate, b: QualityBank)
    requires
        is_v3(v3),
        is_balanced_v1(balanced),
        passes(v3, b),
    ensures
        passes(balanced, b),
{
}

/// **Each limit is the double nearest to its decimal.** A double below one is
/// a whole number of some negative power of two: that whole number, less the
/// decimal over the same power, is at most a half.
pub proof fn law_limits_are_their_decimals(v1: QualityGate, v3: QualityGate, balanced: QualityGate)
    requires
        is_v1(v1),
        is_v3(v3),
        is_balanced_v1(balanced),
    ensures
        ({
            let m = v1.kl_p99_max.bits - 0x3f40_0000_0000_0000;
            -1000 <= 2 * (1000 * m - 0x4000_0000_0000_0000) <= 1000
        }),
        v3.kl_p99_max == v1.kl_p99_max,
        ({
            let m = balanced.kl_p99_max.bits - 0x3f50_0000_0000_0000;
            -2000 <= 2 * (2000 * m - 7 * 0x2000_0000_0000_0000) <= 2000
        }),
        v3.covered_mass_min matches Some(x) && ({
            let m = x.bits - 0x3fd0_0000_0000_0000;
            -5 <= 2 * (5 * m - 3 * 0x20_0000_0000_0000) <= 5
        }),
        balanced.covered_mass_min matches Some(x) && ({
            let m = x.bits - 0x3fd0_0000_0000_0000;
            -20 <= 2 * (20 * m - 11 * 0x20_0000_0000_0000) <= 20
        }),
        v3.top1_mass_displaced_max matches Some(x) && ({
            let m = x.bits - 0x3f90_0000_0000_0000;
            -20 <= 2 * (20 * m - 0x200_0000_0000_0000) <= 20
        }),
        v3.top10_mass_displaced_p99_max matches Some(x) && ({
            let m = x.bits - 0x3fa0_0000_0000_0000;
            -10 <= 2 * (10 * m - 0x100_0000_0000_0000) <= 10
        }),
        balanced.top1_mass_displaced_max matches Some(x) && ({
            let m = x.bits - 0x3fa0_0000_0000_0000;
            -25 <= 2 * (25 * m - 3 * 0x100_0000_0000_0000) <= 25
        }),
        balanced.top10_mass_displaced_p99_max == balanced.top1_mass_displaced_max,
        v3.route_mixture_mass_p99_max matches Some(x) && ({
            let m = x.bits - 0x3fb0_0000_0000_0000;
            -20 <= 2 * (20 * m - 3 * 0x80_0000_0000_0000) <= 20
        }),
        v3.route_mixture_mass_max matches Some(x) && 4 * (x.bits - 0x3fc0_0000_0000_0000)
            == 0x40_0000_0000_0000,
        balanced.route_mixture_mass_p99_max == v3.route_mixture_mass_p99_max,
        balanced.route_mixture_mass_max == v3.route_mixture_mass_max,
{
}

/// **A name means one gate.** Two gates registered under one name judge every
/// bank alike, and no two implemented names are the same.
pub proof fn law_a_name_means_one_gate(g: QualityGate, h: QualityGate, b: QualityBank)
    requires
        is_registered(g),
        is_registered(h),
        g.id@ == h.id@,
    ensures
        failures_of(g, b) == failures_of(h, b),
        is_implemented(g.id@),
{
    reveal_strlit("kimi-logit-v1");
    reveal_strlit("kimi-logit-v2");
    reveal_strlit("kimi-logit-v3");
    reveal_strlit("kimi-logit-balanced-v1");
    assert("kimi-logit-v1"@[12] == '1');
    assert("kimi-logit-v2"@[12] == '2');
    assert("kimi-logit-v3"@[12] == '3');
    assert("kimi-logit-v1"@.len() == 13);
    assert("kimi-logit-v2"@.len() == 13);
    assert("kimi-logit-v3"@.len() == 13);
    assert("kimi-logit-balanced-v1"@.len() == 22);
}

} // verus!

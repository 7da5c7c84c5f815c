//! What was measured, at which scale, and how well.
use vstd::prelude::*;

verus! {

/// How much evidence a measurement was taken over.
#[derive(Debug, Clone, Copy, PartialEq, Eq, Hash, Structural)]
pub enum EvidenceScale {
    Diagnostic,
    Authority,
}

impl EvidenceScale {
    /// The name identities are written with.
    pub open spec fn title(self) -> Seq<char> {
        match self {
            EvidenceScale::Diagnostic => "Diagnostic"@,
            EvidenceScale::Authority => "Authority"@,
        }
    }

    /// The name identities are written with.
    pub fn name(self) -> (r: &'static str)
        ensures
            r@ == self.title(),
    {
        match self {
            EvidenceScale::Diagnostic => "Diagnostic",
            EvidenceScale::Authority => "Authority",
        }
    }
}

/// Whether a statistic's evidence supports it.
#[derive(Debug, Clone, Copy, PartialEq, Eq, Structural)]
pub enum MeasurementStatus {
    Measured,
    /// A tail statistic over too few observations to have a tail.
    InsufficientTailSupport { observations: u64 },
    NotObserved,
}

impl MeasurementStatus {
    /// Whether the number may be priced on the measurement's own strength.
    pub fn is_priceable(&self) -> (r: bool)
        ensures
            r == (*self is Measured),
    {
        matches!(self, MeasurementStatus::Measured)
    }
}

/// What a gate or a proxy reads.
#[derive(Debug, Clone, Copy, PartialEq, Eq, Hash, Structural)]
pub enum Statistic {
    KlP99,
    Top1Flips,
    Top10Changes,
    RouteFlips,
    RouteFlipRate,
    Top1MassDisplacedMax,
    Top10MassDisplacedP99,
    RouteMixtureMassP99,
    RouteMixtureMassMax,
    MinCoveredMass,
}

impl Statistic {
    /// The quality gate's own wording, or a proxy's own name.
    pub open spec fn title(self) -> Seq<char> {
        match self {
            Statistic::KlP99 => "kl p99"@,
            Statistic::Top1Flips => "top-1 flips"@,
            Statistic::Top10Changes => "top-10 changes"@,
            Statistic::RouteFlips => "route flips"@,
            Statistic::RouteFlipRate => "route flip rate"@,
            Statistic::Top1MassDisplacedMax => "top-1 probability given up"@,
            Statistic::Top10MassDisplacedP99 => "top-10 mass displaced at p99"@,
            Statistic::RouteMixtureMassP99 => "routed mixture moved at p99"@,
            Statistic::RouteMixtureMassMax => "routed mixture moved at max"@,
            Statistic::MinCoveredMass => "covered mass"@,
        }
    }

    /// The quality gate's own wording, or a proxy's own name.
    pub fn name(self) -> (r: &'static str)
        ensures
            r@ == self.title(),
    {
        match self {
            Statistic::KlP99 => "kl p99",
            Statistic::Top1Flips => "top-1 flips",
            Statistic::Top10Changes => "top-10 changes",
            Statistic::RouteFlips => "route flips",
            Statistic::RouteFlipRate => "route flip rate",
            Statistic::Top1MassDisplacedMax => "top-1 probability given up",
            Statistic::Top10MassDisplacedP99 => "top-10 mass displaced at p99",
            Statistic::RouteMixtureMassP99 => "routed mixture moved at p99",
            Statistic::RouteMixtureMassMax => "routed mixture moved at max",
            Statistic::MinCoveredMass => "covered mass",
        }
    }
}

} // verus!

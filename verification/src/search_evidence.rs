//! How a search may use a statistic, which is not the same question as
//! whether that statistic was measured.
//!
//! The ladder has four rungs, and only the top two may produce a number that
//! a contract is priced against: direct support, a calibrated estimate, an
//! ordering proxy, and nothing.
use crate::measurement::{EvidenceScale, MeasurementStatus, Statistic};
use crate::reading::Reading;
use vstd::prelude::*;
use vstd::string::*;

verus! {

/// How a search may use one statistic at one evidence scale.
#[derive(Debug, PartialEq, Eq)]
pub enum SearchEvidence {
    /// Directly supported: may be priced against the contract.
    Direct,
    /// Thinly supported, but magnitude transfer has been demonstrated. May be
    /// priced, provisionally, naming the calibration.
    CalibratedEstimate { calibration: String },
    /// Useful for ordering candidates. The magnitude is not trusted.
    OrderingProxy { calibration: String },
    /// No demonstrated search value.
    Unusable,
}

/// What evidence is, by the calibration it names.
pub enum Support {
    Direct,
    CalibratedEstimate(Seq<char>),
    OrderingProxy(Seq<char>),
    Unusable,
}

impl View for SearchEvidence {
    type V = Support;

    open spec fn view(&self) -> Support {
        match *self {
            SearchEvidence::Direct => Support::Direct,
            SearchEvidence::CalibratedEstimate { calibration } => Support::CalibratedEstimate(
                calibration@,
            ),
            SearchEvidence::OrderingProxy { calibration } => Support::OrderingProxy(calibration@),
            SearchEvidence::Unusable => Support::Unusable,
        }
    }
}

impl Clone for SearchEvidence {
    fn clone(&self) -> (r: Self)
        ensures
            r == *self,
    {
        match self {
            SearchEvidence::Direct => SearchEvidence::Direct,
            SearchEvidence::CalibratedEstimate { calibration } => {
                SearchEvidence::CalibratedEstimate { calibration: calibration.clone() }
            },
            SearchEvidence::OrderingProxy { calibration } => {
                SearchEvidence::OrderingProxy { calibration: calibration.clone() }
            },
            SearchEvidence::Unusable => SearchEvidence::Unusable,
        }
    }
}

impl Support {
    /// A number from this evidence may be priced against the contract.
    pub open spec fn prices(self) -> bool {
        self is Direct || self is CalibratedEstimate
    }

    /// It may be used to order candidates.
    pub open spec fn ranks(self) -> bool {
        !(self is Unusable)
    }

    /// Position on the ladder, higher being stronger.
    pub open spec fn rung(self) -> int {
        match self {
            Support::Direct => 3,
            Support::CalibratedEstimate(_) => 2,
            Support::OrderingProxy(_) => 1,
            Support::Unusable => 0,
        }
    }
}

impl SearchEvidence {
    /// Whether a number from this evidence may be priced against the contract.
    pub fn is_priceable(&self) -> (r: bool)
        ensures
            r == self@.prices(),
    {
        matches!(self, SearchEvidence::Direct | SearchEvidence::CalibratedEstimate { .. })
    }

    /// Whether it may be used to order candidates.
    pub fn orders(&self) -> (r: bool)
        ensures
            r == self@.ranks(),
    {
        !matches!(self, SearchEvidence::Unusable)
    }

    /// Position on the ladder, higher being stronger.
    pub fn confidence_rank(&self) -> (r: u8)
        ensures
            r == self@.rung(),
    {
        match self {
            SearchEvidence::Direct => 3,
            SearchEvidence::CalibratedEstimate { .. } => 2,
            SearchEvidence::OrderingProxy { .. } => 1,
            SearchEvidence::Unusable => 0,
        }
    }
}

/// **The ladder is one order.** Whatever prices also orders, and stronger
/// evidence may do whatever weaker evidence may.
pub proof fn law_ladder_is_monotone(weak: Support, strong: Support)
    requires
        weak.rung() <= strong.rung(),
    ensures
        strong.prices() ==> strong.ranks(),
        weak.prices() ==> strong.prices(),
        weak.ranks() ==> strong.ranks(),
{
}

/// One recorded finding about how a statistic behaves at a scale.
#[derive(Debug, Clone, PartialEq)]
pub struct SearchCalibration {
    pub id: String,
    pub statistic: Statistic,
    pub scale: EvidenceScale,
    pub verdict: SearchEvidence,
    /// Paired diagnostic and authority observations behind the verdict.
    pub pairs: u32,
    /// Rank correlation, where one was computed.
    pub rank_correlation: Option<Reading>,
    /// What was found, in a sentence a reader can disagree with.
    pub finding: String,
}

/// A finding, by what it says.
pub struct Registration {
    pub id: Seq<char>,
    pub statistic: Statistic,
    pub scale: EvidenceScale,
    pub verdict: Support,
    pub pairs: u32,
    pub rank_correlation: Option<Reading>,
    pub finding: Seq<char>,
}

impl View for SearchCalibration {
    type V = Registration;

    open spec fn view(&self) -> Registration {
        Registration {
            id: self.id@,
            statistic: self.statistic,
            scale: self.scale,
            verdict: self.verdict@,
            pairs: self.pairs,
            rank_correlation: self.rank_correlation,
            finding: self.finding@,
        }
    }
}

/// What has been learned about the instruments.
#[derive(Debug, Clone, PartialEq)]
pub struct SearchCalibrationRegistry {
    pub entries: Vec<SearchCalibration>,
}

/// The first registration for a statistic at a scale from `from` on, or the
/// number of entries.
pub open spec fn registered_at(
    entries: Seq<SearchCalibration>,
    statistic: Statistic,
    scale: EvidenceScale,
    from: int,
) -> int
    decreases entries.len() - from,
{
    if from >= entries.len() || (entries[from].statistic == statistic && entries[from].scale
        == scale) {
        from
    } else {
        registered_at(entries, statistic, scale, from + 1)
    }
}

/// What a search may do with a statistic at a scale.
pub open spec fn support_for(
    entries: Seq<SearchCalibration>,
    statistic: Statistic,
    scale: EvidenceScale,
    status: MeasurementStatus,
) -> Support {
    let i = registered_at(entries, statistic, scale, 0);
    if i < entries.len() {
        entries[i].verdict@
    } else if scale == EvidenceScale::Authority && status is Measured {
        Support::Direct
    } else {
        Support::Unusable
    }
}

impl Default for SearchCalibrationRegistry {
    fn default() -> (r: Self)
        ensures
            r.entries@ == Seq::<SearchCalibration>::empty(),
    {
        SearchCalibrationRegistry { entries: Vec::new() }
    }
}

impl SearchCalibrationRegistry {
    /// A registry of these findings.
    pub fn new(entries: Vec<SearchCalibration>) -> (r: Self)
        ensures
            r.entries == entries,
    {
        SearchCalibrationRegistry { entries }
    }

    fn find(&self, statistic: Statistic, scale: EvidenceScale) -> (r: usize)
        ensures
            r == registered_at(self.entries@, statistic, scale, 0),
    {
        let mut i: usize = 0;
        while i < self.entries.len()
            invariant
                i <= self.entries@.len(),
                registered_at(self.entries@, statistic, scale, 0) == registered_at(
                    self.entries@,
                    statistic,
                    scale,
                    i as int,
                ),
            decreases self.entries@.len() - i,
        {
            if self.entries[i].statistic == statistic && self.entries[i].scale == scale {
                return i;
            }
            i = i + 1;
        }
        i
    }

    /// The first finding for a statistic at a scale.
    pub fn lookup(&self, statistic: Statistic, scale: EvidenceScale) -> (r: Option<
        &SearchCalibration,
    >)
        ensures
            match r {
                Some(e) => registered_at(self.entries@, statistic, scale, 0) < self.entries@.len()
                    && *e == self.entries@[registered_at(self.entries@, statistic, scale, 0)],
                None => registered_at(self.entries@, statistic, scale, 0) >= self.entries@.len(),
            },
    {
        let i: usize = self.find(statistic, scale);
        if i < self.entries.len() {
            Some(&self.entries[i])
        } else {
            None
        }
    }

    /// What a search may do with `statistic` at `scale`.
    ///
    /// A registration wins where one exists, in both directions. Without one
    /// the measurement decides at authority scale; at diagnostic scale an
    /// unregistered statistic is unusable, because magnitude transfer is a
    /// claim a calibration has to earn.
    pub fn evidence_for(
        &self,
        statistic: Statistic,
        scale: EvidenceScale,
        status: &MeasurementStatus,
    ) -> (r: SearchEvidence)
        ensures
            r@ == support_for(self.entries@, statistic, scale, *status),
    {
        if let Some(e) = self.lookup(statistic, scale) {
            return e.verdict.clone();
        }
        match scale {
            EvidenceScale::Authority => {
                if status.is_priceable() {
                    SearchEvidence::Direct
                } else {
                    SearchEvidence::Unusable
                }
            },
            EvidenceScale::Diagnostic => SearchEvidence::Unusable,
        }
    }

    /// What the first route calibration established, as the registry a search
    /// starts from.
    pub fn route_cal_1() -> (r: Self)
        ensures
            r.entries@.len() == 4,
            r.entries@[0]@ == (Registration {
                id: "ROUTE-CAL-1"@,
                statistic: Statistic::KlP99,
                scale: EvidenceScale::Diagnostic,
                verdict: Support::OrderingProxy("ROUTE-CAL-1"@),
                pairs: 7,
                rank_correlation: Some(Reading { bits: 0x3feb_6c8b_4395_8106 }),
                finding: "diagnostic kl orders candidates well, but magnitude transfer is NOT established — the same programme measured promotion drift of +84% on a narrow map and -3.9% on a broad one, so a diagnostic reading may not be priced against the contract's budget"@,
            }),
            r.entries@[1]@ == (Registration {
                id: "ROUTE-CAL-1"@,
                statistic: Statistic::RouteMixtureMassP99,
                scale: EvidenceScale::Diagnostic,
                verdict: Support::Unusable,
                pairs: 7,
                rank_correlation: Some(Reading { bits: 0x3fe3_645a_1cac_0831 }),
                finding: "a 256-position bank observes 1-105 route-change events, so its p99 is the MAXIMUM; it reported the most expensive route move in the programme (strict->wide, 32.1% of remaining budget) as free, and got the sign wrong on two of five moves"@,
            }),
            r.entries@[2]@ == (Registration {
                id: "ROUTE-CAL-1"@,
                statistic: Statistic::RouteFlipRate,
                scale: EvidenceScale::Diagnostic,
                verdict: Support::OrderingProxy("ROUTE-CAL-1"@),
                pairs: 7,
                rank_correlation: Some(Reading { bits: 0x3fef_b645_a1ca_c083 }),
                finding: "flips per position transfer at a ratio of 0.89-1.02 for every map with at least 40 diagnostic events — a COUNT statistic survives the sample size where a TAIL statistic does not. Usable to order and to screen; never to admit, because the contract judges mixture mass and not flips"@,
            }),
            r.entries@[3]@ == (Registration {
                id: "ROUTE-CAL-1"@,
                statistic: Statistic::Top10MassDisplacedP99,
                scale: EvidenceScale::Diagnostic,
                verdict: Support::Unusable,
                pairs: 0,
                rank_correlation: None,
                finding: "thin-tailed at diagnostic scale (74 observations on the four-family map) and NO paired calibration has been run — unusable by default rather than by measurement, and the way to change that is to measure it"@,
            }),
    {
        let mut entries: Vec<SearchCalibration> = Vec::new();
        entries.push(
            SearchCalibration {
                id: "ROUTE-CAL-1".to_owned(),
                statistic: Statistic::KlP99,
                scale: EvidenceScale::Diagnostic,
                verdict: SearchEvidence::OrderingProxy { calibration: "ROUTE-CAL-1".to_owned() },
                pairs: 7,
                rank_correlation: Some(Reading { bits: 0x3feb_6c8b_4395_8106 }),
                finding: "diagnostic kl orders candidates well, but magnitude transfer is NOT established — the same programme measured promotion drift of +84% on a narrow map and -3.9% on a broad one, so a diagnostic reading may not be priced against the contract's budget".to_owned(),
            },
        );
        entries.push(
            SearchCalibration {
                id: "ROUTE-CAL-1".to_owned(),
                statistic: Statistic::RouteMixtureMassP99,
                scale: EvidenceScale::Diagnostic,
                verdict: SearchEvidence::Unusable,
                pairs: 7,
                rank_correlation: Some(Reading { bits: 0x3fe3_645a_1cac_0831 }),
                finding: "a 256-position bank observes 1-105 route-change events, so its p99 is the MAXIMUM; it reported the most expensive route move in the programme (strict->wide, 32.1% of remaining budget) as free, and got the sign wrong on two of five moves".to_owned(),
            },
        );
        entries.push(
            SearchCalibration {
                id: "ROUTE-CAL-1".to_owned(),
                statistic: Statistic::RouteFlipRate,
                scale: EvidenceScale::Diagnostic,
                verdict: SearchEvidence::OrderingProxy { calibration: "ROUTE-CAL-1".to_owned() },
                pairs: 7,
                rank_correlation: Some(Reading { bits: 0x3fef_b645_a1ca_c083 }),
                finding: "flips per position transfer at a ratio of 0.89-1.02 for every map with at least 40 diagnostic events — a COUNT statistic survives the sample size where a TAIL statistic does not. Usable to order and to screen; never to admit, because the contract judges mixture mass and not flips".to_owned(),
            },
        );
        entries.push(
            SearchCalibration {
                id: "ROUTE-CAL-1".to_owned(),
                statistic: Statistic::Top10MassDisplacedP99,
                scale: EvidenceScale::Diagnostic,
                verdict: SearchEvidence::Unusable,
                pairs: 0,
                rank_correlation: None,
                finding: "thin-tailed at diagnostic scale (74 observations on the four-family map) and NO paired calibration has been run — unusable by default rather than by measurement, and the way to change that is to measure it".to_owned(),
            },
        );
        SearchCalibrationRegistry::new(entries)
    }
}

/// **An unregistered diagnostic never prices.** Without a registration the
/// fall-through at diagnostic scale is unusable however well it was measured.
pub proof fn law_unregistered_diagnostic_is_unusable(
    entries: Seq<SearchCalibration>,
    statistic: Statistic,
    status: MeasurementStatus,
)
    requires
        forall|i: int|
            0 <= i < entries.len() ==> !((#[trigger] entries[i]).statistic == statistic
                && entries[i].scale == EvidenceScale::Diagnostic),
    ensures
        support_for(entries, statistic, EvidenceScale::Diagnostic, status) == Support::Unusable,
{
    lemma_registered_at(entries, statistic, EvidenceScale::Diagnostic, 0);
}

/// **A registration wins in both directions.** Where one exists, how well the
/// statistic was measured changes nothing.
pub proof fn law_registration_decides(
    entries: Seq<SearchCalibration>,
    statistic: Statistic,
    scale: EvidenceScale,
    a: MeasurementStatus,
    b: MeasurementStatus,
    i: int,
)
    requires
        0 <= i < entries.len(),
        entries[i].statistic == statistic,
        entries[i].scale == scale,
    ensures
        support_for(entries, statistic, scale, a) == support_for(entries, statistic, scale, b),
{
    lemma_registered_at(entries, statistic, scale, 0);
}

proof fn lemma_registered_at(
    entries: Seq<SearchCalibration>,
    statistic: Statistic,
    scale: EvidenceScale,
    from: int,
)
    requires
        0 <= from <= entries.len(),
    ensures
        from <= registered_at(entries, statistic, scale, from) <= entries.len(),
        ({
            let r = registered_at(entries, statistic, scale, from);
            r < entries.len() ==> entries[r].statistic == statistic && entries[r].scale == scale
        }),
        forall|j: int|
            from <= j < registered_at(entries, statistic, scale, from) ==> !((#[trigger] entries[j]).statistic
                == statistic && entries[j].scale == scale),
    decreases entries.len() - from,
{
    if from < entries.len() && !(entries[from].statistic == statistic && entries[from].scale
        == scale) {
        lemma_registered_at(entries, statistic, scale, from + 1);
    }
}

/// **Four rungs.** Direct support and a calibrated estimate may be priced,
/// an ordering proxy may only order, and the rest may do neither; each rung
/// stands above the next.
pub proof fn law_what_each_rung_may_do(a: Support, b: Support)
    ensures
        a.prices() <==> a is Direct || a is CalibratedEstimate,
        a.ranks() <==> a is Direct || a is CalibratedEstimate || a is OrderingProxy,
        a is Direct && b is CalibratedEstimate ==> a.rung() == b.rung() + 1,
        a is CalibratedEstimate && b is OrderingProxy ==> a.rung() == b.rung() + 1,
        a is OrderingProxy && b is Unusable ==> a.rung() == b.rung() + 1,
        a is Unusable ==> a.rung() == 0,
{
}

/// **The first registration is the one that counts**, and without one only
/// what was measured at authority scale has any standing.
pub proof fn law_the_first_registration_counts(
    entries: Seq<SearchCalibration>,
    statistic: Statistic,
    scale: EvidenceScale,
    status: MeasurementStatus,
    i: int,
)
    ensures
        0 <= i < entries.len() && entries[i].statistic == statistic && entries[i].scale == scale
            && (forall|j: int|
            0 <= j < i ==> !((#[trigger] entries[j]).statistic == statistic && entries[j].scale
                == scale)) ==> support_for(entries, statistic, scale, status)
            == entries[i].verdict@,
        (forall|j: int|
            0 <= j < entries.len() ==> !((#[trigger] entries[j]).statistic == statistic
                && entries[j].scale == scale)) ==> (support_for(entries, statistic, scale, status)
            is Direct <==> scale == EvidenceScale::Authority && status is Measured) && (support_for(
            entries,
            statistic,
            scale,
            status,
        ) is Direct || support_for(entries, statistic, scale, status) is Unusable),
{
    lemma_registered_at(entries, statistic, scale, 0);
    let r = registered_at(entries, statistic, scale, 0);
    if r < entries.len() {
        assert(entries[r].statistic == statistic);
    }
    if 0 <= i < entries.len() && entries[i].statistic == statistic && entries[i].scale == scale
        && (forall|j: int|
        0 <= j < i ==> !((#[trigger] entries[j]).statistic == statistic && entries[j].scale
            == scale)) {
        if r < i {
            assert(entries[r].statistic == statistic && entries[r].scale == scale);
        }
        if i < r {
            assert(entries[i].statistic == statistic);
        }
    }
}

} // verus!

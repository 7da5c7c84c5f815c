//! Which candidate to measure next, when some of its costs cannot be priced.
//!
//! An unpriced dimension must not create an advantage by being invisible.
//! Pricing and proxy ordering stay separate, and are combined in stages: what
//! can be priced, then what benign proxies support, then what a proxy warns
//! about, then what nobody can speak to, and last what buys nothing.
use crate::measurement::Statistic;
use crate::ranking::Ranked;
use crate::reading::Reading;
use crate::search_evidence::SearchEvidence;
use crate::text::{
    before, lemma_text_before_strict, lemma_text_before_total, lemma_text_before_transitive,
    text_before,
};
use std::cmp::Ordering;
use vstd::prelude::*;
use vstd::string::*;

verus! {

/// What one move costs one constraint, and on what evidence.
#[derive(Debug, Clone, PartialEq, Eq)]
pub struct MarginalConstraintCost {
    pub what: Statistic,
    pub evidence: SearchEvidence,
}

/// The costs of one move.
#[derive(Debug, Clone, PartialEq, Eq)]
pub struct MarginalCost {
    pub costs: Vec<MarginalConstraintCost>,
}

/// What kind of move an assessment found.
#[derive(Debug, Clone, Copy, PartialEq, Eq, Structural)]
pub enum MoveClass {
    Scored,
    Unscorable,
    /// It buys nothing.
    Worthless,
}

/// A move's economics: its class, and its place among its siblings, the
/// lowest first.
#[derive(Debug, Clone, Copy, PartialEq, Eq, Structural)]
pub struct RankingScore {
    pub class: MoveClass,
    pub place: i64,
}

/// What pricing made of a candidate.
#[derive(Debug, Clone, PartialEq, Eq)]
pub struct CandidateAssessment {
    pub candidate_map: String,
    pub marginal: MarginalCost,
    pub ranking_score: RankingScore,
}

/// Which way a proxy points for the criterion it stands in for.
#[derive(Debug, Clone, Copy, PartialEq, Eq, Structural)]
pub enum ProxyRisk {
    /// The proxy did not worsen.
    Benign,
    /// The proxy worsened. A direction, not a magnitude.
    Elevated,
}

impl ProxyRisk {
    /// The name traces use.
    pub open spec fn title(self) -> Seq<char> {
        match self {
            ProxyRisk::Benign => "Benign"@,
            ProxyRisk::Elevated => "Elevated"@,
        }
    }

    /// The name traces use.
    pub fn name(self) -> (r: &'static str)
        ensures
            r@ == self.title(),
    {
        match self {
            ProxyRisk::Benign => "Benign",
            ProxyRisk::Elevated => "Elevated",
        }
    }
}

/// An ordering-only observation standing in for a criterion that cannot be
/// priced at this evidence scale.
#[derive(Debug, Clone, PartialEq)]
pub struct ProxyObservation {
    pub statistic: Statistic,
    /// The contract criterion it stands in for.
    pub for_criterion: Statistic,
    pub parent: Reading,
    pub candidate: Reading,
    /// Why this proxy may be believed for ordering.
    pub evidence: SearchEvidence,
}

impl ProxyObservation {
    /// The direction the proxy points: it rose, and it may be believed.
    pub open spec fn direction(&self) -> ProxyRisk {
        if self.evidence@.ranks() && self.candidate.above(self.parent) {
            ProxyRisk::Elevated
        } else {
            ProxyRisk::Benign
        }
    }

    /// The direction only.
    pub fn risk(&self) -> (r: ProxyRisk)
        ensures
            r == self.direction(),
    {
        if self.evidence.orders() && self.candidate.exceeds(self.parent) {
            ProxyRisk::Elevated
        } else {
            ProxyRisk::Benign
        }
    }

    /// Whether this observation may be believed at all.
    pub fn usable(&self) -> (r: bool)
        ensures
            r == self.evidence@.ranks(),
    {
        self.evidence.orders()
    }
}

/// How ready a candidate is to be promoted to an authority measurement.
#[derive(Debug, Clone, Copy, PartialEq, Eq, Structural)]
pub enum PromotionReadiness {
    /// Every dimension the contract judges was priceable.
    Priceable,
    /// Every unpriceable dimension orders itself or has benign proxy evidence.
    ProxySupported,
    /// A proxy warns about an unpriceable dimension.
    ProxyRisky,
    /// An unpriceable dimension that no proxy can speak to.
    Uninformed,
}

impl PromotionReadiness {
    /// Higher promotes first.
    pub open spec fn rank(self) -> int {
        match self {
            PromotionReadiness::Priceable => 3,
            PromotionReadiness::ProxySupported => 2,
            PromotionReadiness::ProxyRisky => 1,
            PromotionReadiness::Uninformed => 0,
        }
    }

    /// The name traces use.
    pub open spec fn title(self) -> Seq<char> {
        match self {
            PromotionReadiness::Priceable => "Priceable"@,
            PromotionReadiness::ProxySupported => "ProxySupported"@,
            PromotionReadiness::ProxyRisky => "ProxyRisky"@,
            PromotionReadiness::Uninformed => "Uninformed"@,
        }
    }

    fn tier(self) -> (r: u8)
        ensures
            r == self.rank(),
    {
        match self {
            PromotionReadiness::Priceable => 3,
            PromotionReadiness::ProxySupported => 2,
            PromotionReadiness::ProxyRisky => 1,
            PromotionReadiness::Uninformed => 0,
        }
    }

    /// The name traces use.
    pub fn name(self) -> (r: &'static str)
        ensures
            r@ == self.title(),
    {
        match self {
            PromotionReadiness::Priceable => "Priceable",
            PromotionReadiness::ProxySupported => "ProxySupported",
            PromotionReadiness::ProxyRisky => "ProxyRisky",
            PromotionReadiness::Uninformed => "Uninformed",
        }
    }
}

/// A candidate, its assessment, and whatever proxy evidence speaks to the
/// parts of it that could not be priced.
#[derive(Debug, Clone, PartialEq)]
pub struct PromotionCandidate {
    pub assessment: CandidateAssessment,
    pub proxies: Vec<ProxyObservation>,
    /// The sum of the usable proxies' movements: the secondary key within a
    /// tier, lower preferred.
    pub pressure: Reading,
}

/// The first usable proxy for a criterion from `from` on, or the number of
/// proxies.
pub open spec fn proxy_at(proxies: Seq<ProxyObservation>, criterion: Statistic, from: int) -> int
    decreases proxies.len() - from,
{
    if from >= proxies.len() || (proxies[from].for_criterion == criterion
        && proxies[from].evidence@.ranks()) {
        from
    } else {
        proxy_at(proxies, criterion, from + 1)
    }
}

/// The cost cannot be priced.
pub open spec fn unpriced(c: MarginalConstraintCost) -> bool {
    !c.evidence@.prices()
}

/// The cost can be neither priced nor ordered by its own evidence.
pub open spec fn blind(c: MarginalConstraintCost) -> bool {
    !c.evidence@.prices() && !c.evidence@.ranks()
}

impl PromotionCandidate {
    /// A usable proxy speaks to the criterion.
    pub open spec fn has_proxy(&self, criterion: Statistic) -> bool {
        proxy_at(self.proxies@, criterion, 0) < self.proxies@.len()
    }

    /// The direction of the proxy that speaks to the criterion.
    pub open spec fn proxy_direction(&self, criterion: Statistic) -> ProxyRisk {
        self.proxies@[proxy_at(self.proxies@, criterion, 0)].direction()
    }

    /// Some cost cannot be priced.
    pub open spec fn has_unpriced(&self) -> bool {
        exists|i: int|
            0 <= i < self.assessment.marginal.costs@.len() && unpriced(
                #[trigger] self.assessment.marginal.costs@[i],
            )
    }

    /// Among the first `n` costs, one that nothing can speak to.
    pub open spec fn uninformed_in(&self, n: int) -> bool {
        exists|i: int|
            0 <= i < n && blind(#[trigger] self.assessment.marginal.costs@[i]) && !self.has_proxy(
                self.assessment.marginal.costs@[i].what,
            )
    }

    /// Among the first `n` costs, one that a proxy warns about.
    pub open spec fn warned_in(&self, n: int) -> bool {
        exists|i: int|
            0 <= i < n && blind(#[trigger] self.assessment.marginal.costs@[i]) && self.has_proxy(
                self.assessment.marginal.costs@[i].what,
            ) && self.proxy_direction(self.assessment.marginal.costs@[i].what)
                == ProxyRisk::Elevated
    }

    /// How ready the candidate is: the weakest unpriceable dimension decides,
    /// never the average.
    pub open spec fn ready(&self) -> PromotionReadiness {
        let n = self.assessment.marginal.costs@.len() as int;
        if !self.has_unpriced() {
            PromotionReadiness::Priceable
        } else if self.uninformed_in(n) {
            PromotionReadiness::Uninformed
        } else if self.warned_in(n) {
            PromotionReadiness::ProxyRisky
        } else {
            PromotionReadiness::ProxySupported
        }
    }

    /// A move that buys nothing ranks last whatever its evidence.
    pub open spec fn standing(&self) -> int {
        if self.assessment.ranking_score.class == MoveClass::Worthless {
            0
        } else {
            self.ready().rank() + 1
        }
    }

    /// A candidate of this assessment and these proxies.
    pub fn new(
        assessment: CandidateAssessment,
        proxies: Vec<ProxyObservation>,
        pressure: Reading,
    ) -> (r: Self)
        ensures
            r.assessment == assessment,
            r.proxies == proxies,
            r.pressure == pressure,
    {
        PromotionCandidate { assessment, proxies, pressure }
    }

    /// Proxy evidence for one unpriceable criterion, if any is usable.
    pub fn proxy_for(&self, criterion: Statistic) -> (r: Option<&ProxyObservation>)
        ensures
            match r {
                Some(p) => self.has_proxy(criterion) && *p == self.proxies@[proxy_at(
                    self.proxies@,
                    criterion,
                    0,
                )],
                None => !self.has_proxy(criterion),
            },
    {
        let mut i: usize = 0;
        while i < self.proxies.len()
            invariant
                i <= self.proxies@.len(),
                proxy_at(self.proxies@, criterion, 0) == proxy_at(
                    self.proxies@,
                    criterion,
                    i as int,
                ),
            decreases self.proxies@.len() - i,
        {
            if self.proxies[i].for_criterion == criterion && self.proxies[i].usable() {
                return Some(&self.proxies[i]);
            }
            i = i + 1;
        }
        None
    }

    /// How ready this candidate is, decided by the weakest unpriceable
    /// dimension.
    pub fn readiness(&self) -> (r: PromotionReadiness)
        ensures
            r == self.ready(),
    {
        let costs: &Vec<MarginalConstraintCost> = &self.assessment.marginal.costs;
        let mut any: bool = false;
        let mut uninformed: bool = false;
        let mut warned: bool = false;
        let mut i: usize = 0;
        while i < costs.len()
            invariant
                costs == self.assessment.marginal.costs,
                i <= costs@.len(),
                any <==> exists|j: int| 0 <= j < i && unpriced(#[trigger] costs@[j]),
                uninformed <==> self.uninformed_in(i as int),
                warned <==> self.warned_in(i as int),
            decreases costs@.len() - i,
        {
            let c: &MarginalConstraintCost = &costs[i];
            assert(*c == self.assessment.marginal.costs@[i as int]);
            if !c.evidence.is_priceable() {
                any = true;
                // A dimension whose own evidence orders is its own proxy.
                if !c.evidence.orders() {
                    match self.proxy_for(c.what) {
                        Some(p) => {
                            if p.risk() == ProxyRisk::Elevated {
                                warned = true;
                            }
                        },
                        None => {
                            uninformed = true;
                        },
                    }
                }
            }
            i = i + 1;
        }
        if !any {
            PromotionReadiness::Priceable
        } else if uninformed {
            PromotionReadiness::Uninformed
        } else if warned {
            PromotionReadiness::ProxyRisky
        } else {
            PromotionReadiness::ProxySupported
        }
    }

    fn tier(&self) -> (r: u8)
        ensures
            r == self.standing(),
    {
        if self.assessment.ranking_score.class == MoveClass::Worthless {
            0
        } else {
            self.readiness().tier() + 1
        }
    }

    /// The candidates agree in everything that ranks them.
    pub open spec fn ties(&self, other: &Self) -> bool {
        &&& self.standing() == other.standing()
        &&& self.assessment.ranking_score.place == other.assessment.ranking_score.place
        &&& self.pressure == other.pressure
        &&& self.assessment.candidate_map@ == other.assessment.candidate_map@
    }

    /// Total order, best first: readiness tier, then the assessment's own
    /// economics, then proxy pressure, then the candidate's identity.
    pub fn cmp_rank(&self, other: &Self) -> (r: Ordering)
        ensures
            match r {
                Ordering::Less => self.ahead(other),
                Ordering::Equal => self.ties(other),
                Ordering::Greater => other.ahead(self),
            },
    {
        proof {
            lemma_text_before_total(
                self.assessment.candidate_map@,
                other.assessment.candidate_map@,
            );
        }
        if self.ranks_ahead(other) {
            Ordering::Less
        } else if other.ranks_ahead(self) {
            Ordering::Greater
        } else {
            Ordering::Equal
        }
    }

    /// Why one unpriceable cost stands where it does.
    pub open spec fn remark(&self, c: MarginalConstraintCost) -> Seq<char> {
        if c.evidence@.ranks() {
            c.what.title() + " unpriceable, orders itself"@
        } else if self.has_proxy(c.what) {
            c.what.title() + " unpriceable, "@ + self.proxies@[proxy_at(
                self.proxies@,
                c.what,
                0,
            )].statistic.title() + " "@ + self.proxy_direction(c.what).title()
        } else {
            c.what.title() + " unpriceable, no proxy"@
        }
    }

    /// The remarks on the unpriceable among the first `n` costs, joined.
    pub open spec fn remarks(&self, n: int) -> Seq<char>
        decreases n,
    {
        if n <= 0 {
            Seq::empty()
        } else {
            let c = self.assessment.marginal.costs@[n - 1];
            let earlier = self.remarks(n - 1);
            if !unpriced(c) {
                earlier
            } else if self.any_unpriced_in(n - 1) {
                earlier + "; "@ + self.remark(c)
            } else {
                self.remark(c)
            }
        }
    }

    /// Among the first `n` costs, one that cannot be priced.
    pub open spec fn any_unpriced_in(&self, n: int) -> bool {
        exists|i: int| 0 <= i < n && unpriced(#[trigger] self.assessment.marginal.costs@[i])
    }

    /// What `why` says.
    pub open spec fn reason(&self) -> Seq<char> {
        if self.has_unpriced() {
            self.ready().title() + ": "@ + self.remarks(
                self.assessment.marginal.costs@.len() as int,
            )
        } else {
            self.ready().title() + ": every judged dimension was priceable"@
        }
    }

    fn remark_on(&self, c: &MarginalConstraintCost) -> (r: String)
        ensures
            r@ == self.remark(*c),
    {
        let mut s: String = c.what.name().to_owned();
        if c.evidence.orders() {
            s.append(" unpriceable, orders itself");
            return s;
        }
        match self.proxy_for(c.what) {
            Some(p) => {
                s.append(" unpriceable, ");
                s.append(p.statistic.name());
                s.append(" ");
                s.append(p.risk().name());
            },
            None => {
                s.append(" unpriceable, no proxy");
            },
        }
        s
    }

    /// Why this candidate ranks where it does, in one line a search trace can
    /// carry.
    pub fn why(&self) -> (r: String)
        ensures
            r@ == self.reason(),
    {
        let costs: &Vec<MarginalConstraintCost> = &self.assessment.marginal.costs;
        let mut detail: String = String::new();
        let mut any: bool = false;
        let mut i: usize = 0;
        while i < costs.len()
            invariant
                costs == self.assessment.marginal.costs,
                i <= costs@.len(),
                any == self.any_unpriced_in(i as int),
                detail@ == self.remarks(i as int),
            decreases costs@.len() - i,
        {
            assert(costs@[i as int] == self.assessment.marginal.costs@[i as int]);
            if !costs[i].evidence.is_priceable() {
                let remark: String = self.remark_on(&costs[i]);
                if any {
                    detail.append("; ");
                    detail.append(remark.as_str());
                } else {
                    detail = remark;
                }
                any = true;
            }
            i = i + 1;
        }
        let mut s: String = self.readiness().name().to_owned();
        if any {
            s.append(": ");
            s.append(detail.as_str());
        } else {
            s.append(": every judged dimension was priceable");
        }
        s
    }
}

impl Ranked for PromotionCandidate {
    open spec fn ahead(&self, other: &Self) -> bool {
        if self.standing() != other.standing() {
            self.standing() > other.standing()
        } else if self.assessment.ranking_score.place != other.assessment.ranking_score.place {
            self.assessment.ranking_score.place < other.assessment.ranking_score.place
        } else if self.pressure.place() != other.pressure.place() {
            self.pressure.place() < other.pressure.place()
        } else {
            text_before(self.assessment.candidate_map@, other.assessment.candidate_map@)
        }
    }

    proof fn asymmetric(a: &Self, b: &Self) {
        lemma_text_before_strict(a.assessment.candidate_map@, b.assessment.candidate_map@);
    }

    proof fn splits(a: &Self, b: &Self, c: &Self) {
        let x = a.assessment.candidate_map@;
        let y = b.assessment.candidate_map@;
        let z = c.assessment.candidate_map@;
        lemma_text_before_total(x, y);
        lemma_text_before_total(y, z);
        if text_before(y, x) && text_before(z, y) {
            lemma_text_before_transitive(z, y, x);
        }
        if text_before(y, x) && text_before(x, z) {
            lemma_text_before_transitive(y, x, z);
        }
        lemma_text_before_strict(x, z);
    }

    fn ranks_ahead(&self, other: &Self) -> (r: bool) {
        let (a, b): (u8, u8) = (self.tier(), other.tier());
        if a != b {
            return a > b;
        }
        let (p, q): (i64, i64) = (
            self.assessment.ranking_score.place,
            other.assessment.ranking_score.place,
        );
        if p != q {
            return p < q;
        }
        if self.pressure.sorts_before(other.pressure) {
            return true;
        }
        if other.pressure.sorts_before(self.pressure) {
            return false;
        }
        before(
            self.assessment.candidate_map.as_str(),
            other.assessment.candidate_map.as_str(),
        )
    }
}

/// **An unpriced dimension cannot create an advantage by being invisible.**
/// A candidate with a dimension nobody can speak to ranks behind every
/// candidate worth something whose unpriceable dimensions are all spoken to,
/// whatever its economics.
pub proof fn law_invisible_costs_give_no_advantage(
    blind_one: PromotionCandidate,
    seen: PromotionCandidate,
)
    requires
        blind_one.ready() == PromotionReadiness::Uninformed,
        seen.ready() != PromotionReadiness::Uninformed,
        seen.assessment.ranking_score.class != MoveClass::Worthless,
    ensures
        seen.ahead(&blind_one),
        !blind_one.ahead(&seen),
{
}

/// **A warning outranks silence and is outranked by support.**
pub proof fn law_proxy_tiers(
    supported: PromotionCandidate,
    risky: PromotionCandidate,
    uninformed: PromotionCandidate,
)
    requires
        supported.ready() == PromotionReadiness::ProxySupported,
        risky.ready() == PromotionReadiness::ProxyRisky,
        uninformed.ready() == PromotionReadiness::Uninformed,
        supported.assessment.ranking_score.class != MoveClass::Worthless,
        risky.assessment.ranking_score.class != MoveClass::Worthless,
    ensures
        supported.ahead(&risky),
        risky.ahead(&uninformed),
{
}

/// **A move that buys nothing ranks last whatever its evidence.**
pub proof fn law_worthless_ranks_last(worthless: PromotionCandidate, other: PromotionCandidate)
    requires
        worthless.assessment.ranking_score.class == MoveClass::Worthless,
        other.assessment.ranking_score.class != MoveClass::Worthless,
    ensures
        other.ahead(&worthless),
{
}

/// **A proxy is a direction and never a magnitude.** Proxies that point the
/// same way leave a candidate equally ready.
pub proof fn law_proxy_is_a_direction(a: PromotionCandidate, b: PromotionCandidate)
    requires
        a.assessment == b.assessment,
        a.proxies@.len() == b.proxies@.len(),
        forall|i: int|
            0 <= i < a.proxies@.len() ==> {
                &&& (#[trigger] a.proxies@[i]).for_criterion == b.proxies@[i].for_criterion
                &&& a.proxies@[i].evidence@ == b.proxies@[i].evidence@
                &&& a.proxies@[i].direction() == b.proxies@[i].direction()
            },
    ensures
        a.ready() == b.ready(),
{
    assert forall|c: Statistic| #[trigger] proxy_at(a.proxies@, c, 0) == proxy_at(
        b.proxies@,
        c,
        0,
    ) by {
        lemma_same_proxy(a.proxies@, b.proxies@, c, 0);
    }
    let n = a.assessment.marginal.costs@.len() as int;
    assert forall|c: Statistic| #[trigger] a.has_proxy(c) == b.has_proxy(c) && (a.has_proxy(c)
        ==> a.proxy_direction(c) == b.proxy_direction(c)) by {
        lemma_same_proxy(a.proxies@, b.proxies@, c, 0);
        let k = proxy_at(a.proxies@, c, 0);
        if k < a.proxies@.len() {
            assert(a.proxies@[k].direction() == b.proxies@[k].direction());
        }
    }
    assert(a.uninformed_in(n) == b.uninformed_in(n));
    assert(a.warned_in(n) == b.warned_in(n)) by {
        if a.warned_in(n) {
            let i = choose|i: int|
                0 <= i < n && blind(#[trigger] a.assessment.marginal.costs@[i]) && a.has_proxy(
                    a.assessment.marginal.costs@[i].what,
                ) && a.proxy_direction(a.assessment.marginal.costs@[i].what)
                    == ProxyRisk::Elevated;
            assert(blind(b.assessment.marginal.costs@[i]));
        }
        if b.warned_in(n) {
            let i = choose|i: int|
                0 <= i < n && blind(#[trigger] b.assessment.marginal.costs@[i]) && b.has_proxy(
                    b.assessment.marginal.costs@[i].what,
                ) && b.proxy_direction(b.assessment.marginal.costs@[i].what)
                    == ProxyRisk::Elevated;
            assert(blind(a.assessment.marginal.costs@[i]));
            assert(a.has_proxy(a.assessment.marginal.costs@[i].what));
        }
    }
}

proof fn lemma_same_proxy(
    a: Seq<ProxyObservation>,
    b: Seq<ProxyObservation>,
    c: Statistic,
    from: int,
)
    requires
        0 <= from <= a.len(),
        a.len() == b.len(),
        forall|i: int|
            0 <= i < a.len() ==> (#[trigger] a[i]).for_criterion == b[i].for_criterion
                && a[i].evidence@ == b[i].evidence@,
    ensures
        proxy_at(a, c, from) == proxy_at(b, c, from),
        from <= proxy_at(a, c, from) <= a.len(),
    decreases a.len() - from,
{
    if from < a.len() {
        assert(a[from].for_criterion == b[from].for_criterion);
        if !(a[from].for_criterion == c && a[from].evidence@.ranks()) {
            lemma_same_proxy(a, b, c, from + 1);
        }
    }
}

/// A proxy that may be believed speaks to a criterion, the first to do so.
pub open spec fn speaks_first(
    proxies: Seq<ProxyObservation>,
    criterion: Statistic,
    j: int,
) -> bool {
    &&& 0 <= j < proxies.len()
    &&& proxies[j].for_criterion == criterion
    &&& !(proxies[j].evidence is Unusable)
    &&& forall|k: int|
        0 <= k < j ==> (#[trigger] proxies[k]).for_criterion != criterion
            || proxies[k].evidence is Unusable
}

/// **How ready a candidate is, from the evidence alone.** Priceable where
/// every cost is supported directly or by a calibrated estimate; uninformed
/// where some cost has no search value and no believable proxy speaks to it;
/// risky where every such cost is spoken to and the first proxy to speak to
/// one of them rose.
pub proof fn law_how_ready_a_candidate_is(c: PromotionCandidate)
    ensures
        c.ready() is Priceable <==> forall|i: int|
            0 <= i < c.assessment.marginal.costs@.len() ==> ((
            #[trigger] c.assessment.marginal.costs@[i]).evidence is Direct
                || c.assessment.marginal.costs@[i].evidence is CalibratedEstimate),
        c.ready() is Uninformed <==> exists|i: int|
            0 <= i < c.assessment.marginal.costs@.len() && (
            #[trigger] c.assessment.marginal.costs@[i]).evidence is Unusable && forall|j: int|
                !speaks_first(c.proxies@, c.assessment.marginal.costs@[i].what, j),
        c.ready() is ProxyRisky ==> exists|i: int, j: int|
            0 <= i < c.assessment.marginal.costs@.len() && (
            #[trigger] c.assessment.marginal.costs@[i]).evidence is Unusable
                && #[trigger] speaks_first(
                c.proxies@,
                c.assessment.marginal.costs@[i].what,
                j,
            ) && c.proxies@[j].candidate.above(c.proxies@[j].parent),
        c.ready() is ProxySupported ==> forall|i: int, j: int|
            0 <= i < c.assessment.marginal.costs@.len() && (
            #[trigger] c.assessment.marginal.costs@[i]).evidence is Unusable
                && #[trigger] speaks_first(
                c.proxies@,
                c.assessment.marginal.costs@[i].what,
                j,
            ) ==> !c.proxies@[j].candidate.above(c.proxies@[j].parent),
{
    let costs = c.assessment.marginal.costs@;
    let n = costs.len() as int;
    assert forall|i: int| 0 <= i < n implies (blind(#[trigger] costs[i])
        <==> costs[i].evidence is Unusable) && (unpriced(costs[i]) <==> !(costs[i].evidence
        is Direct || costs[i].evidence is CalibratedEstimate)) by {}
    assert forall|i: int, j: int|
        0 <= i < n && #[trigger] speaks_first(c.proxies@, costs[i].what, j) implies c.has_proxy(
        costs[i].what,
    ) && proxy_at(c.proxies@, costs[i].what, 0) == j by {
        lemma_proxy_at(c.proxies@, costs[i].what, 0);
        let r = proxy_at(c.proxies@, costs[i].what, 0);
        if r < j {
            assert(c.proxies@[r].for_criterion == costs[i].what);
        }
    }
    assert forall|i: int| 0 <= i < n && c.has_proxy((#[trigger] costs[i]).what) implies speaks_first(
        c.proxies@,
        costs[i].what,
        proxy_at(c.proxies@, costs[i].what, 0),
    ) by {
        lemma_proxy_at(c.proxies@, costs[i].what, 0);
    }
    if c.ready() is ProxyRisky {
        let i = choose|i: int|
            0 <= i < n && blind(#[trigger] costs[i]) && c.has_proxy(costs[i].what)
                && c.proxy_direction(costs[i].what) == ProxyRisk::Elevated;
        assert(speaks_first(c.proxies@, costs[i].what, proxy_at(c.proxies@, costs[i].what, 0)));
    }
    if c.ready() is ProxySupported {
        assert forall|i: int, j: int|
            0 <= i < n && (#[trigger] costs[i]).evidence is Unusable && #[trigger] speaks_first(
                c.proxies@,
                costs[i].what,
                j,
            ) implies !c.proxies@[j].candidate.above(c.proxies@[j].parent) by {
            assert(blind(costs[i]));
            assert(c.has_proxy(costs[i].what));
            assert(c.proxy_direction(costs[i].what) != ProxyRisk::Elevated);
        }
    }
    if c.ready() is Uninformed {
        let i = choose|i: int|
            0 <= i < n && blind(#[trigger] costs[i]) && !c.has_proxy(costs[i].what);
        assert forall|j: int| !speaks_first(c.proxies@, costs[i].what, j) by {}
    }
    if exists|i: int|
        0 <= i < n && (#[trigger] costs[i]).evidence is Unusable && forall|j: int|
            !speaks_first(c.proxies@, costs[i].what, j) {
        let i = choose|i: int|
            0 <= i < n && (#[trigger] costs[i]).evidence is Unusable && forall|j: int|
                !speaks_first(c.proxies@, costs[i].what, j);
        assert(blind(costs[i]));
        assert(unpriced(costs[i]));
        assert(!c.has_proxy(costs[i].what));
    }
    if !c.has_unpriced() {
        assert forall|i: int| 0 <= i < n implies ((#[trigger] costs[i]).evidence is Direct
            || costs[i].evidence is CalibratedEstimate) by {
            assert(!unpriced(costs[i]));
        }
    } else {
        let i = choose|i: int| 0 <= i < n && unpriced(#[trigger] costs[i]);
        assert(!(costs[i].evidence is Direct || costs[i].evidence is CalibratedEstimate));
    }
}

proof fn lemma_proxy_at(proxies: Seq<ProxyObservation>, criterion: Statistic, from: int)
    requires
        0 <= from <= proxies.len(),
    ensures
        from <= proxy_at(proxies, criterion, from) <= proxies.len(),
        ({
            let r = proxy_at(proxies, criterion, from);
            r < proxies.len() ==> proxies[r].for_criterion == criterion && !(proxies[r].evidence
                is Unusable)
        }),
        forall|k: int|
            from <= k < proxy_at(proxies, criterion, from) ==> (
            #[trigger] proxies[k]).for_criterion != criterion || proxies[k].evidence is Unusable,
    decreases proxies.len() - from,
{
    if from < proxies.len() && !(proxies[from].for_criterion == criterion
        && proxies[from].evidence@.ranks()) {
        lemma_proxy_at(proxies, criterion, from + 1);
    }
}

/// **What is promoted first.** Among candidates worth something a readier one
/// goes first, priceable before supported before risky before uninformed;
/// among equally ready ones the better economics, then the lower pressure,
/// then the name.
pub proof fn law_what_is_promoted_first(a: PromotionCandidate, b: PromotionCandidate)
    requires
        !(a.assessment.ranking_score.class is Worthless),
        !(b.assessment.ranking_score.class is Worthless),
    ensures
        a.ready() is Priceable && !(b.ready() is Priceable) ==> a.ahead(&b),
        a.ready() is ProxySupported && (b.ready() is ProxyRisky || b.ready() is Uninformed)
            ==> a.ahead(&b),
        a.ready() is ProxyRisky && b.ready() is Uninformed ==> a.ahead(&b),
        a.ready() == b.ready() && a.assessment.ranking_score.place
            < b.assessment.ranking_score.place ==> a.ahead(&b),
        a.ready() == b.ready() && a.assessment.ranking_score.place
            == b.assessment.ranking_score.place && b.pressure.above(a.pressure) ==> a.ahead(&b),
        a.ready() == b.ready() && a.assessment.ranking_score.place
            == b.assessment.ranking_score.place && a.pressure == b.pressure ==> (a.ahead(&b)
            <==> text_before(a.assessment.candidate_map@, b.assessment.candidate_map@)),
{
    crate::reading::law_the_total_order(b.pressure, a.pressure);
}

} // verus!

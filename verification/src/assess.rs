//! What can be derived about a candidate from facts already held.
//!
//! An assessment carries ingredients and no score of record. A score is
//! computed under a named rule when it is asked for. A delta keeps its sign
//! throughout: negative removes bytes, so less is better.
use crate::candidate::{keys_as, Candidate, Proposed};
use crate::canon::{short, short_of, FIELD, SECTION};
use crate::digest::{digest_of, digest_text};
use crate::experiment::named;
use crate::identity::RepresentationStateId;
use crate::key::{Keyed, MeasurementKey};
use crate::measurement::Statistic;
use crate::quality::Criterion;
use crate::ranking::Ranked;
use crate::reading::Reading;
use crate::realization::{LogicalBytes, RealizationId};
use crate::table::NameSet;
use crate::text::{
    before, lemma_text_before_strict, lemma_text_before_total, lemma_text_before_transitive, same,
    text_before,
};
use crate::transition::{Action, Move};
use vstd::prelude::*;
use vstd::string::*;

verus! {

/// The canonical-form version every ranking id is computed under.
pub const RANKING_SEMANTICS_ID_VERSION: &'static str = "ranking-semantics-id/v1";

/// Which registered rule orders candidates.
#[derive(Debug, Clone, PartialEq, Eq, PartialOrd, Ord, Hash)]
pub struct RankingSemanticsId {
    digest: String,
}

impl View for RankingSemanticsId {
    type V = Seq<char>;

    closed spec fn view(&self) -> Seq<char> {
        self.digest@
    }
}

impl RankingSemanticsId {
    /// The id as text.
    pub fn as_str(&self) -> (r: &str)
        ensures
            r@ == self@,
    {
        self.digest.as_str()
    }

    /// The first twelve characters, for reports.
    pub fn short(&self) -> (r: &str)
        ensures
            r@ == short_of(self@),
    {
        short(self.digest.as_str())
    }
}

/// The rules that are registered.
#[derive(Debug, Clone, Copy, PartialEq, Eq, Structural)]
pub enum RankingRule {
    /// Most bytes removed first: the only quantity that is exact before an
    /// experiment is run.
    PhysicalPrizeFirst,
}

impl RankingRule {
    /// The rule's name.
    pub fn name(self) -> (r: &'static str)
        ensures
            r@ == "physical-prize-first"@,
    {
        match self {
            RankingRule::PhysicalPrizeFirst => "physical-prize-first",
        }
    }
}

/// The ordering rule in force, and why.
#[derive(Debug, Clone, PartialEq, Eq)]
pub struct RankingSemantics {
    pub rule: RankingRule,
    /// Where the rule comes from. No part of the identity.
    pub provenance: Option<String>,
}

/// What a ranking id is a digest of.
pub open spec fn ranking_text() -> Seq<char> {
    RANKING_SEMANTICS_ID_VERSION@ + SECTION@ + "rule="@ + "physical-prize-first"@ + FIELD@
        + "tie_breaks="@ + "registered rule"@ + ","@ + "greater physical improvement"@ + ","@
        + "canonical child state id"@ + ","@ + "canonical child realization id"@ + ","@
        + "canonical action identity"@
}

impl RankingSemantics {
    /// The rule, without a reason yet.
    pub fn new(rule: RankingRule) -> (r: RankingSemantics)
        ensures
            r == (RankingSemantics { rule, provenance: None }),
    {
        RankingSemantics { rule, provenance: None }
    }

    /// For this reason.
    pub fn because(self, provenance: &str) -> (r: RankingSemantics)
        ensures
            r.rule == self.rule,
            named(r.provenance) == Some(provenance@),
    {
        RankingSemantics { rule: self.rule, provenance: Some(provenance.to_owned()) }
    }

    /// **The complete order, stated once.** Everything after the first is
    /// there so that no answer depends on how the candidates came.
    pub fn tie_break_chain(&self) -> (r: Vec<&'static str>)
        ensures
            r@.len() == 5,
            r@[0]@ == "registered rule"@,
            r@[1]@ == "greater physical improvement"@,
            r@[2]@ == "canonical child state id"@,
            r@[3]@ == "canonical child realization id"@,
            r@[4]@ == "canonical action identity"@,
    {
        let mut v: Vec<&'static str> = Vec::new();
        v.push("registered rule");
        v.push("greater physical improvement");
        v.push("canonical child state id");
        v.push("canonical child realization id");
        v.push("canonical action identity");
        v
    }

    /// What the rule is, its chain included and its reason not.
    pub fn id(&self) -> (r: RankingSemanticsId)
        ensures
            r@ == digest_of(ranking_text()),
            r@.len() == 64,
    {
        let chain: Vec<&'static str> = self.tie_break_chain();
        let mut s: String = RANKING_SEMANTICS_ID_VERSION.to_owned();
        s.append(SECTION);
        s.append("rule=");
        s.append(self.rule.name());
        s.append(FIELD);
        s.append("tie_breaks=");
        s.append(chain[0]);
        s.append(",");
        s.append(chain[1]);
        s.append(",");
        s.append(chain[2]);
        s.append(",");
        s.append(chain[3]);
        s.append(",");
        s.append(chain[4]);
        RankingSemanticsId { digest: digest_text(s.as_str()) }
    }
}

/// A score, computed on demand and never stored. Less is better.
#[derive(Debug, Clone, Copy, PartialEq, Eq, PartialOrd, Ord, Structural)]
pub struct Score {
    bytes: i64,
}

impl View for Score {
    type V = i64;

    closed spec fn view(&self) -> i64 {
        self.bytes
    }
}

impl Score {
    /// The score.
    pub fn get(self) -> (r: i64)
        ensures
            r == self@,
    {
        self.bytes
    }
}

/// Which side of a limit is inside.
#[derive(Debug, Clone, Copy, PartialEq, Eq, Structural)]
pub enum LimitKind {
    Ceiling,
    Floor,
}

/// One criterion of a contract, and what was read against it.
#[derive(Debug, Clone, Copy, PartialEq)]
pub struct Margin {
    pub criterion: Criterion,
    pub what: Statistic,
    pub kind: LimitKind,
    pub limit: Reading,
    pub observed: Option<Reading>,
    /// Nothing happened that the criterion could judge.
    pub vacuous: bool,
}

/// A state's standing against a contract, criterion by criterion.
#[derive(Debug, PartialEq)]
pub struct ConstraintVector {
    pub gate_id: String,
    pub margins: Vec<Margin>,
}

/// A standing, by its texts.
#[verifier::ext_equal]
pub struct Standing {
    pub gate_id: Seq<char>,
    pub margins: Seq<Margin>,
}

impl View for ConstraintVector {
    type V = Standing;

    open spec fn view(&self) -> Standing {
        Standing { gate_id: self.gate_id@, margins: self.margins@ }
    }
}

impl Clone for ConstraintVector {
    fn clone(&self) -> (r: Self)
        ensures
            r@ == self@,
    {
        let mut margins: Vec<Margin> = Vec::new();
        let mut i: usize = 0;
        while i < self.margins.len()
            invariant
                i <= self.margins@.len(),
                margins@ == self.margins@.take(i as int),
            decreases self.margins@.len() - i,
        {
            margins.push(self.margins[i]);
            assert(margins@ =~= self.margins@.take(i as int + 1));
            i = i + 1;
        }
        assert(margins@ =~= self.margins@);
        ConstraintVector { gate_id: self.gate_id.clone(), margins }
    }
}

/// The standing, where there is one.
pub open spec fn standing_as(s: Option<ConstraintVector>) -> Option<Standing> {
    match s {
        Some(v) => Some(v@),
        None => None,
    }
}

/// What a state's standing against the contract is, where it was observed.
pub trait ParentStanding {
    /// The standing of a state; `None` where it carries no reading.
    spec fn standing(&self, state: Seq<char>) -> Option<Standing>;

    /// The standing of a state; `None` where it carries no reading.
    fn of(&self, state: &RepresentationStateId) -> (r: Option<ConstraintVector>)
        ensures
            standing_as(r) == self.standing(state@),
    ;
}

/// Nothing has been measured.
#[derive(Debug, Clone, Copy, PartialEq, Eq, Structural)]
pub struct NothingMeasured;

impl Default for NothingMeasured {
    fn default() -> (r: Self)
        ensures
            r == NothingMeasured,
    {
        NothingMeasured
    }
}

impl ParentStanding for NothingMeasured {
    open spec fn standing(&self, state: Seq<char>) -> Option<Standing> {
        None
    }

    fn of(&self, state: &RepresentationStateId) -> (r: Option<ConstraintVector>) {
        None
    }
}

/// **What is derivable about one eligible candidate.** Everything is computed
/// from facts held, or `None` where the fact is absent.
#[derive(Debug, PartialEq)]
pub struct Assessment {
    pub action: Action,
    pub parent_state: RepresentationStateId,
    /// The edits the child holds.
    pub applied: NameSet,
    pub child_state: RepresentationStateId,
    pub child_realization: RealizationId,
    /// Negative removes bytes.
    pub physical_delta: i64,
    pub child_bytes: LogicalBytes,
    /// The experiment the candidate would run.
    pub intended_key: MeasurementKey,
    /// Readings of the child's physical state under other experiments.
    pub prior_observations: Vec<MeasurementKey>,
    /// The parent's standing; `None` where it is unmeasured.
    pub parent_standing: Option<ConstraintVector>,
}

/// An assessment, by what it states.
#[verifier::ext_equal]
pub struct Assessed {
    pub action: Move,
    pub parent_state: Seq<char>,
    pub applied: Seq<(Seq<char>, ())>,
    pub child_state: Seq<char>,
    pub child_realization: Seq<char>,
    pub physical_delta: i64,
    pub child_bytes: u64,
    pub intended_key: Keyed,
    pub prior_observations: Seq<Keyed>,
    pub parent_standing: Option<Standing>,
}

impl View for Assessment {
    type V = Assessed;

    open spec fn view(&self) -> Assessed {
        Assessed {
            action: self.action@,
            parent_state: self.parent_state@,
            applied: self.applied.rows(),
            child_state: self.child_state@,
            child_realization: self.child_realization@,
            physical_delta: self.physical_delta,
            child_bytes: self.child_bytes@,
            intended_key: self.intended_key@,
            prior_observations: keys_as(self.prior_observations@),
            parent_standing: standing_as(self.parent_standing),
        }
    }
}

/// What a candidate's assessment states.
pub open spec fn assessed(c: Proposed, standing: Option<Standing>) -> Assessed {
    Assessed {
        action: c.action,
        parent_state: c.parent_state,
        applied: c.applied,
        child_state: c.child.state.id,
        child_realization: c.child.realization,
        physical_delta: c.physical_delta,
        child_bytes: c.child.bytes,
        intended_key: c.intended_key,
        prior_observations: c.prior_observations,
        parent_standing: standing,
    }
}

fn copy_keys(keys: &Vec<MeasurementKey>) -> (r: Vec<MeasurementKey>)
    ensures
        r@ == keys@,
{
    let mut v: Vec<MeasurementKey> = Vec::new();
    let mut i: usize = 0;
    while i < keys.len()
        invariant
            i <= keys@.len(),
            v@ == keys@.take(i as int),
        decreases keys@.len() - i,
    {
        v.push(keys[i].clone());
        assert(v@ =~= keys@.take(i as int + 1));
        i = i + 1;
    }
    assert(v@ =~= keys@);
    v
}

impl Clone for Assessment {
    fn clone(&self) -> (r: Self)
        ensures
            r@ == self@,
    {
        Assessment {
            action: self.action.clone(),
            parent_state: self.parent_state.clone(),
            applied: self.applied.copy(),
            child_state: self.child_state.clone(),
            child_realization: self.child_realization.clone(),
            physical_delta: self.physical_delta,
            child_bytes: self.child_bytes,
            intended_key: self.intended_key.clone(),
            prior_observations: copy_keys(&self.prior_observations),
            parent_standing: match &self.parent_standing {
                Some(v) => Some(v.clone()),
                None => None,
            },
        }
    }
}

impl Assessment {
    /// Assess a candidate against facts already held.
    pub fn of(candidate: &Candidate, parent_standing: Option<ConstraintVector>) -> (r: Assessment)
        ensures
            r@ == assessed(candidate@, standing_as(parent_standing)),
    {
        Assessment {
            action: candidate.action.clone(),
            parent_state: candidate.parent_state.clone(),
            applied: candidate.applied.copy(),
            child_state: candidate.child.physical_id().clone(),
            child_realization: candidate.child.realization_id().clone(),
            physical_delta: candidate.physical_delta,
            child_bytes: candidate.child.logical_bytes(),
            intended_key: candidate.intended_key.clone(),
            prior_observations: copy_keys(&candidate.prior_observations),
            parent_standing,
        }
    }

    /// The score under a rule.
    pub fn score(&self, semantics: &RankingSemantics) -> (r: Score)
        ensures
            r@ == self@.physical_delta,
    {
        match semantics.rule {
            RankingRule::PhysicalPrizeFirst => Score { bytes: self.physical_delta },
        }
    }

    /// Whether the state was observed before, under another experiment.
    pub fn is_escalation(&self) -> (r: bool)
        ensures
            r == (self@.prior_observations.len() > 0),
    {
        assert(self@.prior_observations.len() == self.prior_observations@.len());
        self.prior_observations.len() > 0
    }
}

/// Whether one assessment is measured before another: the delta decides, then
/// the child's state, its realization and the move.
pub open spec fn measured_before(a: Assessed, b: Assessed) -> bool {
    if a.physical_delta != b.physical_delta {
        a.physical_delta < b.physical_delta
    } else if a.child_state != b.child_state {
        text_before(a.child_state, b.child_state)
    } else if a.child_realization != b.child_realization {
        text_before(a.child_realization, b.child_realization)
    } else {
        text_before(a.action.identity(), b.action.identity())
    }
}

/// Two assessments the whole chain does not tell apart.
pub open spec fn chain_agrees(a: Assessed, b: Assessed) -> bool {
    &&& a.physical_delta == b.physical_delta
    &&& a.child_state == b.child_state
    &&& a.child_realization == b.child_realization
    &&& a.action.identity() == b.action.identity()
}

/// The order is strict, and the chain leaves nothing undecided.
pub proof fn lemma_measured_before(a: Assessed, b: Assessed)
    ensures
        !(measured_before(a, b) && measured_before(b, a)),
        measured_before(a, b) || measured_before(b, a) || chain_agrees(a, b),
        !measured_before(a, a),
{
    lemma_text_before_strict(a.child_state, b.child_state);
    lemma_text_before_strict(a.child_realization, b.child_realization);
    lemma_text_before_strict(a.action.identity(), b.action.identity());
    lemma_text_before_total(a.child_state, b.child_state);
    lemma_text_before_total(a.child_realization, b.child_realization);
    lemma_text_before_total(a.action.identity(), b.action.identity());
}

/// The order chains.
pub proof fn lemma_measured_before_chains(a: Assessed, b: Assessed, c: Assessed)
    requires
        measured_before(a, b),
        measured_before(b, c),
    ensures
        measured_before(a, c),
{
    if a.physical_delta == b.physical_delta && b.physical_delta == c.physical_delta {
        if a.child_state != b.child_state && b.child_state != c.child_state {
            lemma_text_before_transitive(a.child_state, b.child_state, c.child_state);
            lemma_text_before_strict(a.child_state, b.child_state);
        } else if a.child_state == b.child_state && b.child_state == c.child_state {
            if a.child_realization != b.child_realization && b.child_realization
                != c.child_realization {
                lemma_text_before_transitive(
                    a.child_realization,
                    b.child_realization,
                    c.child_realization,
                );
                lemma_text_before_strict(a.child_realization, b.child_realization);
            } else if a.child_realization == b.child_realization && b.child_realization
                == c.child_realization {
                lemma_text_before_transitive(
                    a.action.identity(),
                    b.action.identity(),
                    c.action.identity(),
                );
            }
        }
    }
}

/// Where one is before another, every third is behind the first or before the
/// second.
pub proof fn lemma_measured_before_splits(a: Assessed, b: Assessed, c: Assessed)
    ensures
        measured_before(a, c) ==> measured_before(a, b) || measured_before(b, c),
{
    if measured_before(a, c) && !measured_before(a, b) {
        lemma_measured_before(a, b);
        if measured_before(b, a) {
            lemma_measured_before_chains(b, a, c);
        }
    }
}

impl Ranked for Assessment {
    open spec fn ahead(&self, other: &Self) -> bool {
        measured_before(self@, other@)
    }

    proof fn asymmetric(a: &Self, b: &Self) {
        lemma_measured_before(a@, b@);
    }

    proof fn splits(a: &Self, b: &Self, c: &Self) {
        lemma_measured_before_splits(a@, b@, c@);
    }

    fn ranks_ahead(&self, other: &Self) -> (r: bool) {
        if self.physical_delta != other.physical_delta {
            return self.physical_delta < other.physical_delta;
        }
        if !same(self.child_state.as_str(), other.child_state.as_str()) {
            return before(self.child_state.as_str(), other.child_state.as_str());
        }
        if !same(self.child_realization.as_str(), other.child_realization.as_str()) {
            return before(self.child_realization.as_str(), other.child_realization.as_str());
        }
        before(self.action.identity().as_str(), other.action.identity().as_str())
    }
}

/// **What is measured first.** The move that removes most; among equals the
/// child whose state comes first, then its realization, then the move itself.
/// Nothing else is asked.
pub proof fn law_what_is_measured_first(a: Assessed, b: Assessed)
    ensures
        a.physical_delta < b.physical_delta ==> measured_before(a, b) && !measured_before(b, a),
        a.physical_delta == b.physical_delta && text_before(a.child_state, b.child_state)
            ==> measured_before(a, b) && !measured_before(b, a),
        a.physical_delta == b.physical_delta && a.child_state == b.child_state && text_before(
            a.child_realization,
            b.child_realization,
        ) ==> measured_before(a, b) && !measured_before(b, a),
        a.physical_delta == b.physical_delta && a.child_state == b.child_state
            && a.child_realization == b.child_realization && text_before(
            a.action.identity(),
            b.action.identity(),
        ) ==> measured_before(a, b) && !measured_before(b, a),
        a.physical_delta == b.physical_delta && a.child_state == b.child_state
            && a.child_realization == b.child_realization && a.action.identity()
            == b.action.identity() ==> !measured_before(a, b),
{
    lemma_text_before_strict(a.child_state, b.child_state);
    lemma_text_before_strict(a.child_realization, b.child_realization);
    lemma_text_before_strict(a.action.identity(), b.action.identity());
    lemma_text_before_strict(b.action.identity(), a.action.identity());
}

/// **An assessment keeps the candidate's own facts**, and names the child by
/// its state and its realization.
pub proof fn law_an_assessment_keeps_the_facts(c: Proposed, standing: Option<Standing>)
    ensures
        assessed(c, standing).physical_delta == c.physical_delta,
        assessed(c, standing).child_bytes == c.child.bytes,
        assessed(c, standing).child_state == c.child.state.id,
        assessed(c, standing).child_realization == c.child.realization,
        assessed(c, standing).parent_state == c.parent_state,
        assessed(c, standing).action == c.action,
        assessed(c, standing).applied == c.applied,
        assessed(c, standing).intended_key == c.intended_key,
        assessed(c, standing).prior_observations == c.prior_observations,
        assessed(c, standing).parent_standing == standing,
{
}

} // verus!

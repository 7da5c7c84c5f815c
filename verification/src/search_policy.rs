//! Which unresolved experiment has the highest priority?
//!
//! That is not which candidate may replace the incumbent. Two realizations of
//! one state are two places to search from and one experiment, so ordered
//! candidates are grouped by the experiment they would run.
//!
//! With no experiment the neighbourhood is closed; with one there is nothing
//! to rank and nothing that could veto it; with more the registered rule
//! decides which is measured first.
use crate::assess::{
    assessed, chain_agrees, lemma_measured_before, lemma_measured_before_splits, measured_before,
    Assessed, Assessment, ParentStanding, RankingSemantics,
};
use crate::candidate::{eligible_among, Candidate, CandidateSet, Proposed};
use crate::identity::RepresentationStateId;
use crate::key::{Keyed, MeasurementKey};
use crate::ranking::{
    in_rank, in_rank_by, law_sorting_forgets_arrival, lemma_ranked, lemma_ranked_by, lemma_ranked_seen,
    lemma_settled_by, ranked, ranked_by, ranks, sort_by_rank, Ranked,
};
use crate::table::{
    in_order, lemma_in_order_unique, lemma_row_of, lemma_seen_lookup, lemma_seen_with_row,
    lemma_with_row_in_order, lemma_with_row_lookup, lookup, names, row_of, seen, with_row, Table,
};
use std::cmp::Ordering;
use vstd::prelude::*;
use vstd::seq_lib::*;
use vstd::string::*;

verus! {

/// One experiment, and every eligible candidate that would run it.
#[derive(Debug, Clone, PartialEq)]
pub struct MeasurementOpportunity {
    pub key: MeasurementKey,
    pub state: RepresentationStateId,
    /// Every route to it, in the policy's order.
    pub candidates: Vec<Assessment>,
}

/// One experiment, by what it states.
#[verifier::ext_equal]
pub struct Opportunity {
    pub key: Keyed,
    pub state: Seq<char>,
    pub candidates: Seq<Assessed>,
}

/// The assessments, by what they state.
pub open spec fn assessed_as(s: Seq<Assessment>) -> Seq<Assessed> {
    s.map_values(|a: Assessment| a@)
}

impl View for MeasurementOpportunity {
    type V = Opportunity;

    open spec fn view(&self) -> Opportunity {
        Opportunity {
            key: self.key@,
            state: self.state@,
            candidates: assessed_as(self.candidates@),
        }
    }
}

/// The opportunities, by what they state.
pub open spec fn opportunities_as(s: Seq<MeasurementOpportunity>) -> Seq<Opportunity> {
    s.map_values(|o: MeasurementOpportunity| o@)
}

/// The least delta among some routes.
pub open spec fn least_delta(s: Seq<Assessed>) -> i64
    decreases s.len(),
{
    if s.len() <= 1 {
        s[0].physical_delta
    } else {
        let rest = least_delta(s.drop_last());
        if s.last().physical_delta < rest {
            s.last().physical_delta
        } else {
            rest
        }
    }
}

impl MeasurementOpportunity {
    /// The best physical prize among the routes.
    pub fn physical_delta(&self) -> (r: i64)
        requires
            self@.candidates.len() > 0,
        ensures
            r == least_delta(self@.candidates),
    {
        assert(self@.candidates.len() == self.candidates@.len());
        let mut best: i64 = self.candidates[0].physical_delta;
        let mut i: usize = 1;
        let ghost all = self@.candidates;
        assert(all[0] == self.candidates@[0]@);
        assert(all.take(1)[0] == all[0]);
        while i < self.candidates.len()
            invariant
                1 <= i <= self.candidates@.len(),
                all == assessed_as(self.candidates@),
                best == least_delta(all.take(i as int)),
            decreases self.candidates@.len() - i,
        {
            let ghost next = all.take(i as int + 1);
            assert(next.drop_last() =~= all.take(i as int));
            assert(next.last() == self.candidates@[i as int]@);
            if self.candidates[i].physical_delta < best {
                best = self.candidates[i].physical_delta;
            }
            i = i + 1;
        }
        assert(all.take(all.len() as int) =~= all);
        best
    }

    /// The route the policy ranked first.
    pub fn leading(&self) -> (r: &Assessment)
        requires
            self@.candidates.len() > 0,
        ensures
            r@ == self@.candidates[0],
    {
        assert(self@.candidates.len() == self.candidates@.len());
        &self.candidates[0]
    }

    /// How many routes there are.
    pub fn routes(&self) -> (r: usize)
        ensures
            r == self@.candidates.len(),
    {
        self.candidates.len()
    }
}

/// Whether one opportunity is measured before another: by its leading route.
pub open spec fn scheduled_before(a: Opportunity, b: Opportunity) -> bool {
    if a.candidates.len() == 0 || b.candidates.len() == 0 {
        a.candidates.len() == 0 && b.candidates.len() > 0
    } else {
        measured_before(a.candidates[0], b.candidates[0])
    }
}

impl Ranked for MeasurementOpportunity {
    open spec fn ahead(&self, other: &Self) -> bool {
        scheduled_before(self@, other@)
    }

    proof fn asymmetric(a: &Self, b: &Self) {
        if a@.candidates.len() > 0 && b@.candidates.len() > 0 {
            lemma_measured_before(a@.candidates[0], b@.candidates[0]);
        }
    }

    proof fn splits(a: &Self, b: &Self, c: &Self) {
        if a@.candidates.len() > 0 && b@.candidates.len() > 0 && c@.candidates.len() > 0 {
            lemma_measured_before_splits(
                a@.candidates[0],
                b@.candidates[0],
                c@.candidates[0],
            );
        }
    }

    fn ranks_ahead(&self, other: &Self) -> (r: bool) {
        assert(self@.candidates.len() == self.candidates@.len());
        assert(other@.candidates.len() == other.candidates@.len());
        if self.candidates.len() == 0 || other.candidates.len() == 0 {
            self.candidates.len() == 0 && other.candidates.len() > 0
        } else {
            assert(self@.candidates[0] == self.candidates@[0]@);
            assert(other@.candidates[0] == other.candidates@[0]@);
            self.candidates[0].ranks_ahead(&other.candidates[0])
        }
    }
}

/// What the policy decided to do next.
#[derive(Debug, Clone, PartialEq)]
pub enum Selection {
    /// Nothing eligible.
    Exhausted,
    /// Exactly one experiment, so there is nothing to rank.
    Sole(Box<MeasurementOpportunity>),
    /// More than one, ordered by the registered rule.
    Ranked { chosen: Box<MeasurementOpportunity>, considered: usize },
}

/// What the policy decided, by what it states.
pub enum Selected {
    Exhausted,
    Sole(Opportunity),
    Ranked { chosen: Opportunity, considered: usize },
}

impl View for Selection {
    type V = Selected;

    open spec fn view(&self) -> Selected {
        match self {
            Selection::Exhausted => Selected::Exhausted,
            Selection::Sole(o) => Selected::Sole(o@),
            Selection::Ranked { chosen, considered } => Selected::Ranked {
                chosen: chosen@,
                considered: *considered,
            },
        }
    }
}

/// What a selection is, without its payload.
#[derive(Debug, Clone, Copy, PartialEq, Eq, Structural)]
pub enum SelectionShape {
    Exhausted,
    Sole,
    Ranked,
}

impl Selection {
    /// What this selection is, without its payload.
    pub fn shape(&self) -> (r: SelectionShape)
        ensures
            r == (match self@ {
                Selected::Exhausted => SelectionShape::Exhausted,
                Selected::Sole(_) => SelectionShape::Sole,
                Selected::Ranked { .. } => SelectionShape::Ranked,
            }),
    {
        match self {
            Selection::Exhausted => SelectionShape::Exhausted,
            Selection::Sole(o) => SelectionShape::Sole,
            Selection::Ranked { chosen, considered } => SelectionShape::Ranked,
        }
    }

    /// The experiment selected.
    pub fn opportunity(&self) -> (r: Option<&MeasurementOpportunity>)
        ensures
            match self@ {
                Selected::Exhausted => r is None,
                Selected::Sole(o) => r matches Some(x) && x@ == o,
                Selected::Ranked { chosen, .. } => r matches Some(x) && x@ == chosen,
            },
    {
        match self {
            Selection::Exhausted => None,
            Selection::Sole(o) => Some(o),
            Selection::Ranked { chosen, considered } => Some(chosen),
        }
    }

    /// Whether nothing was eligible.
    pub fn is_exhausted(&self) -> (r: bool)
        ensures
            r == (self@ is Exhausted),
    {
        matches!(self, Selection::Exhausted)
    }
}

/// What the candidates' assessments state.
pub open spec fn assessments<P: ParentStanding>(s: Seq<Proposed>, standing: &P) -> Seq<Assessed> {
    s.map_values(|c: Proposed| assessed(c, standing.standing(c.parent_state)))
}

/// The experiments these assessments would run, by key digest, each with its
/// routes in the order they come.
pub open spec fn grouped(s: Seq<Assessed>) -> Seq<(Seq<char>, Opportunity)>
    decreases s.len(),
{
    if s.len() == 0 {
        Seq::empty()
    } else {
        let rows = grouped(s.drop_last());
        let last = s.last();
        let name = last.intended_key.digest;
        let next = match lookup(rows, name) {
            Some(held) => Opportunity { candidates: held.candidates.push(last), ..held },
            None => Opportunity {
                key: last.intended_key,
                state: last.child_state,
                candidates: seq![last],
            },
        };
        with_row::<String, Opportunity>(rows, name, next)
    }
}

/// The experiments of these assessments, in the policy's order.
pub open spec fn scheduled(s: Seq<Assessed>) -> Seq<Opportunity> {
    ranked_by(
        grouped(s).map_values(|r: (Seq<char>, Opportunity)| r.1),
        |a: Opportunity, b: Opportunity| scheduled_before(a, b),
    )
}

/// The assessments in the policy's order.
pub open spec fn in_policy_order(s: Seq<Assessed>) -> Seq<Assessed> {
    ranked_by(s, |a: Assessed, b: Assessed| measured_before(a, b))
}

/// What the policy does next.
pub open spec fn selected(s: Seq<Opportunity>) -> Selected {
    if s.len() == 0 {
        Selected::Exhausted
    } else if s.len() == 1 {
        Selected::Sole(s[0])
    } else {
        Selected::Ranked { chosen: s[0], considered: s.len() as usize }
    }
}

/// How an opportunity is read.
pub open spec fn as_opportunity() -> spec_fn(MeasurementOpportunity) -> Opportunity {
    |o: MeasurementOpportunity| o@
}

/// **The policy**: an ordering, and nothing else.
#[derive(Debug, Clone, PartialEq)]
pub struct BestFirst {
    pub semantics: RankingSemantics,
}

impl BestFirst {
    /// The policy under a rule.
    pub fn new(semantics: RankingSemantics) -> (r: BestFirst)
        ensures
            r.semantics == semantics,
    {
        BestFirst { semantics }
    }

    /// Assess every eligible candidate.
    pub fn assess<P: ParentStanding>(&self, set: &CandidateSet, standing: &P) -> (r: Vec<
        Assessment,
    >)
        ensures
            assessed_as(r@) == assessments(eligible_among(set@), standing),
    {
        let eligible: Vec<&Candidate> = set.eligible();
        let ghost shown = eligible_among(set@);
        let ghost all = assessments(shown, standing);
        let mut v: Vec<Assessment> = Vec::new();
        let mut i: usize = 0;
        assert(eligible@.map_values(|c: &Candidate| c@).len() == eligible@.len());
        while i < eligible.len()
            invariant
                i <= eligible@.len(),
                eligible@.len() == shown.len(),
                eligible@.map_values(|c: &Candidate| c@) == shown,
                all == assessments(shown, standing),
                assessed_as(v@) == all.take(i as int),
            decreases eligible@.len() - i,
        {
            let candidate: &Candidate = eligible[i];
            let ghost held = v@;
            proof {
                assert(shown[i as int] == candidate@) by {
                    assert(eligible@.map_values(|c: &Candidate| c@)[i as int] == candidate@);
                }
            }
            let a: Assessment = Assessment::of(candidate, standing.of(&candidate.parent_state));
            v.push(a);
            proof {
                assert(a@ == all[i as int]);
                assert(assessed_as(v@) =~= assessed_as(held).push(a@));
                assert(assessed_as(v@) =~= all.take(i as int + 1));
            }
            i = i + 1;
        }
        assert(assessed_as(v@) =~= all);
        v
    }

    /// **The total order, applied.**
    pub fn order(&self, assessments: Vec<Assessment>) -> (r: Vec<Assessment>)
        ensures
            assessed_as(r@) == in_policy_order(assessed_as(assessments@)),
            in_rank(r@),
            r@ == ranked(assessments@),
    {
        let mut v: Vec<Assessment> = assessments;
        sort_by_rank(&mut v);
        proof {
            lemma_ranked_seen(
                assessments@,
                |a: Assessment| a@,
                |a: Assessed, b: Assessed| measured_before(a, b),
            );
        }
        v
    }

    /// How two candidates compare. `Less` is measured first.
    pub fn compare(&self, a: &Assessment, b: &Assessment) -> (r: Ordering)
        ensures
            r is Less <==> measured_before(a@, b@),
            r is Greater <==> measured_before(b@, a@),
            r is Equal <==> chain_agrees(a@, b@),
    {
        proof {
            lemma_measured_before(a@, b@);
            lemma_measured_before(b@, a@);
            lemma_measured_before(a@, a@);
        }
        if a.ranks_ahead(b) {
            Ordering::Less
        } else if b.ranks_ahead(a) {
            Ordering::Greater
        } else {
            Ordering::Equal
        }
    }

    /// Group ordered candidates into experiments. One experiment is one
    /// opportunity, however many routes reach it.
    pub fn opportunities(&self, ordered: Vec<Assessment>) -> (r: Vec<MeasurementOpportunity>)
        ensures
            opportunities_as(r@) == scheduled(assessed_as(ordered@)),
    {
        let ghost all = assessed_as(ordered@);
        let mut table: Table<String, MeasurementOpportunity> = Table::new();
        let mut i: usize = 0;
        assert(all.take(0) =~= Seq::<Assessed>::empty());
        assert(seen(table.rows(), as_opportunity()) =~= Seq::<(Seq<char>, Opportunity)>::empty());
        while i < ordered.len()
            invariant
                i <= ordered@.len(),
                all == assessed_as(ordered@),
                seen(table.rows(), as_opportunity()) == grouped(all.take(i as int)),
            decreases ordered@.len() - i,
        {
            let a: Assessment = ordered[i].clone();
            let name: String = a.intended_key.as_str().to_owned();
            let at: usize = table.find(&name);
            let ghost rows = table.rows();
            let ghost shown = seen(rows, as_opportunity());
            let ghost next = all.take(i as int + 1);
            proof {
                assert(next.drop_last() =~= all.take(i as int));
                assert(next.last() == a@);
                lemma_seen_lookup(rows, as_opportunity(), name@);
                lemma_row_of(rows, name@);
            }
            if at < table.len() {
                let ghost held = rows[at as int].1;
                let entry: &mut MeasurementOpportunity = table.value_at_mut(at);
                entry.candidates.push(a);
                proof {
                    let now = table.rows()[at as int].1;
                    assert(now@.candidates =~= held@.candidates.push(a@));
                    assert(seen(table.rows(), as_opportunity()) =~= grouped(next));
                }
            } else {
                let mut candidates: Vec<Assessment> = Vec::new();
                let key: MeasurementKey = a.intended_key.clone();
                let state: RepresentationStateId = a.child_state.clone();
                candidates.push(a);
                let o = MeasurementOpportunity { key, state, candidates };
                proof {
                    assert(o@.candidates =~= seq![a@]);
                    lemma_seen_with_row::<String, MeasurementOpportunity, Opportunity>(
                        rows,
                        as_opportunity(),
                        name@,
                        o,
                    );
                }
                table.insert(name, o);
            }
            i = i + 1;
        }
        assert(all.take(all.len() as int) =~= all);
        let mut v: Vec<MeasurementOpportunity> = table.into_values();
        let ghost values = v@;
        sort_by_rank(&mut v);
        proof {
            lemma_ranked_seen(
                values,
                |o: MeasurementOpportunity| o@,
                |a: Opportunity, b: Opportunity| scheduled_before(a, b),
            );
            assert(values.map_values(|o: MeasurementOpportunity| o@) =~= grouped(all).map_values(
                |r: (Seq<char>, Opportunity)| r.1,
            ));
        }
        v
    }

    /// **What to measure next.**
    pub fn select<P: ParentStanding>(&self, set: &CandidateSet, standing: &P) -> (r: Selection)
        ensures
            r@ == selected(
                scheduled(in_policy_order(assessments(eligible_among(set@), standing))),
            ),
    {
        let ordered: Vec<Assessment> = self.order(self.assess(set, standing));
        let mut opportunities: Vec<MeasurementOpportunity> = self.opportunities(ordered);
        let considered: usize = opportunities.len();
        let ghost all = opportunities_as(opportunities@);
        assert(all.len() == considered);
        if considered == 0 {
            return Selection::Exhausted;
        }
        assert(all[0] == opportunities@[0]@);
        let first: MeasurementOpportunity = opportunities.remove(0);
        if considered == 1 {
            Selection::Sole(Box::new(first))
        } else {
            Selection::Ranked { chosen: Box::new(first), considered }
        }
    }
}

/// **Replay has one answer.** However the candidates arrived, the same
/// candidates are put in the same order: place by place they agree in delta,
/// child, realization and move.
pub proof fn law_replay_has_one_answer(x: Seq<Assessment>, y: Seq<Assessment>, i: int)
    requires
        x.to_multiset() == y.to_multiset(),
        0 <= i < x.len(),
    ensures
        ranked(x).len() == ranked(y).len(),
        chain_agrees(ranked(x)[i]@, ranked(y)[i]@),
{
    lemma_ranked(x);
    lemma_ranked(y);
    law_sorting_forgets_arrival(ranked(x), ranked(y));
    lemma_measured_before(ranked(x)[i]@, ranked(y)[i]@);
}

/// The routes that run the experiment of this digest, in the order they come.
pub open spec fn routes_of(s: Seq<Assessed>, digest: Seq<char>) -> Seq<Assessed>
    decreases s.len(),
{
    if s.len() == 0 {
        Seq::empty()
    } else if s.last().intended_key.digest == digest {
        routes_of(s.drop_last(), digest).push(s.last())
    } else {
        routes_of(s.drop_last(), digest)
    }
}

/// How many routes some experiments have together.
pub open spec fn routes_among(s: Seq<Opportunity>) -> nat
    decreases s.len(),
{
    if s.len() == 0 {
        0
    } else {
        routes_among(s.drop_last()) + s.last().candidates.len()
    }
}

proof fn lemma_routes_of(s: Seq<Assessed>, digest: Seq<char>)
    ensures
        forall|k: int|
            0 <= k < routes_of(s, digest).len() ==> (#[trigger] routes_of(
                s,
                digest,
            )[k]).intended_key.digest == digest,
        forall|k: int|
            0 <= k < s.len() && (#[trigger] s[k]).intended_key.digest == digest ==> routes_of(
                s,
                digest,
            ).len() > 0,
        routes_of(s, digest).len() > 0 ==> exists|m: int|
            #![trigger s[m]]
            0 <= m < s.len() && s[m] == routes_of(s, digest)[0] && forall|k: int|
                0 <= k < m ==> (#[trigger] s[k]).intended_key.digest != digest,
    decreases s.len(),
{
    if s.len() > 0 {
        let init = s.drop_last();
        let held = routes_of(init, digest);
        lemma_routes_of(init, digest);
        assert forall|k: int|
            0 <= k < s.len() && (#[trigger] s[k]).intended_key.digest == digest implies routes_of(
            s,
            digest,
        ).len() > 0 by {
            if k < init.len() {
                assert(init[k] == s[k]);
            }
        }
        if held.len() > 0 {
            let m = choose|m: int|
                #![trigger init[m]]
                0 <= m < init.len() && init[m] == held[0] && forall|k: int|
                    0 <= k < m ==> (#[trigger] init[k]).intended_key.digest != digest;
            assert(s[m] == init[m]);
            assert forall|k: int| 0 <= k < m implies (#[trigger] s[k]).intended_key.digest
                != digest by {
                assert(init[k] == s[k]);
            }
            assert(routes_of(s, digest)[0] == held[0]);
        } else if s.last().intended_key.digest == digest {
            let m = s.len() - 1;
            assert(s[m] == routes_of(s, digest)[0]);
            assert forall|k: int| 0 <= k < m implies (#[trigger] s[k]).intended_key.digest
                != digest by {
                assert(init[k] == s[k]);
            }
        }
    }
}

proof fn lemma_routes_among_insert(s: Seq<Opportunity>, at: int, x: Opportunity)
    requires
        0 <= at <= s.len(),
    ensures
        routes_among(s.insert(at, x)) == routes_among(s) + x.candidates.len(),
    decreases s.len(),
{
    let t = s.insert(at, x);
    if at == s.len() {
        assert(t.drop_last() =~= s);
    } else {
        assert(t.drop_last() =~= s.drop_last().insert(at, x));
        assert(t.last() == s.last());
        lemma_routes_among_insert(s.drop_last(), at, x);
    }
}

proof fn lemma_routes_among_update(s: Seq<Opportunity>, at: int, x: Opportunity)
    requires
        0 <= at < s.len(),
    ensures
        routes_among(s.update(at, x)) + s[at].candidates.len() == routes_among(s)
            + x.candidates.len(),
    decreases s.len(),
{
    let t = s.update(at, x);
    if at == s.len() - 1 {
        assert(t.drop_last() =~= s.drop_last());
    } else {
        assert(t.drop_last() =~= s.drop_last().update(at, x));
        lemma_routes_among_update(s.drop_last(), at, x);
    }
}

proof fn lemma_routes_among_ranked(s: Seq<Opportunity>, ahead: spec_fn(
    Opportunity,
    Opportunity,
) -> bool)
    ensures
        routes_among(ranked_by(s, ahead)) == routes_among(s),
    decreases s.len(),
{
    if s.len() > 0 {
        let u = ranked_by(s.drop_last(), ahead);
        lemma_routes_among_ranked(s.drop_last(), ahead);
        let at = lemma_settled_by(u, s.last(), ahead);
        lemma_routes_among_insert(u, at, s.last());
    }
}

/// The experiments of some rows.
spec fn experiments(rows: Seq<(Seq<char>, Opportunity)>) -> Seq<Opportunity> {
    rows.map_values(|r: (Seq<char>, Opportunity)| r.1)
}

/// Every row holds the routes of its digest.
spec fn groups(rows: Seq<(Seq<char>, Opportunity)>, s: Seq<Assessed>) -> bool {
    forall|i: int|
        0 <= i < rows.len() ==> {
            let row = #[trigger] rows[i];
            &&& row.1.key.digest == row.0
            &&& row.1.candidates.len() > 0
            &&& row.1.candidates == routes_of(s, row.0)
        }
}

proof fn lemma_grouped(s: Seq<Assessed>)
    ensures
        in_order::<String, Opportunity>(grouped(s)),
        groups(grouped(s), s),
        forall|d: Seq<char>| routes_of(s, d).len() > 0 ==> #[trigger] names(grouped(s), d),
        routes_among(experiments(grouped(s))) == s.len(),
    decreases s.len(),
{
    if s.len() > 0 {
        let init = s.drop_last();
        let rows = grouped(init);
        let last = s.last();
        let name = last.intended_key.digest;
        lemma_grouped(init);
        lemma_row_of(rows, name);
        crate::table::lemma_place_of::<String, Opportunity>(rows, name);
        let next = match lookup(rows, name) {
            Some(held) => Opportunity { candidates: held.candidates.push(last), ..held },
            None => Opportunity {
                key: last.intended_key,
                state: last.child_state,
                candidates: seq![last],
            },
        };
        let after = with_row::<String, Opportunity>(rows, name, next);
        lemma_with_row_in_order::<String, Opportunity>(rows, name, next);
        let p = crate::table::place_of::<String, Opportunity>(rows, name);
        let r = row_of(rows, name);
        assert(next.candidates =~= routes_of(s, name)) by {
            if !names(rows, name) {
                assert(routes_of(init, name).len() == 0);
                assert(routes_of(init, name) =~= Seq::<Assessed>::empty());
            }
        }
        assert(groups(after, s)) by {
            assert forall|i: int| 0 <= i < after.len() implies {
                let row = #[trigger] after[i];
                &&& row.1.key.digest == row.0
                &&& row.1.candidates.len() > 0
                &&& row.1.candidates == routes_of(s, row.0)
            } by {
                let k = if names(rows, name) || i < p {
                    i
                } else {
                    i - 1
                };
                if after[i].0 == name {
                    if names(rows, name) {
                        lemma_in_order_unique::<String, Opportunity>(after, i, r);
                        assert(rows[r].1.key.digest == rows[r].0);
                    } else {
                        lemma_in_order_unique::<String, Opportunity>(after, i, p);
                    }
                    assert(after[i] == (name, next));
                } else {
                    assert(after[i] == rows[k]);
                }
            }
        }
        assert forall|d: Seq<char>| routes_of(s, d).len() > 0 implies #[trigger] names(
            after,
            d,
        ) by {
            lemma_with_row_lookup::<String, Opportunity>(rows, name, next, d);
            if d != name {
                assert(names(rows, d));
            }
        }
        if names(rows, name) {
            assert(experiments(after) =~= experiments(rows).update(r, next));
            lemma_routes_among_update(experiments(rows), r, next);
        } else {
            assert(experiments(after) =~= experiments(rows).insert(p, next));
            lemma_routes_among_insert(experiments(rows), p, next);
        }
    }
}

proof fn lemma_schedule_ranks()
    ensures
        ranks(|a: Opportunity, b: Opportunity| scheduled_before(a, b)),
{
    let ahead = |a: Opportunity, b: Opportunity| scheduled_before(a, b);
    assert forall|a: Opportunity, b: Opportunity| #[trigger] ahead(a, b) implies !ahead(b, a) by {
        if a.candidates.len() > 0 && b.candidates.len() > 0 {
            lemma_measured_before(a.candidates[0], b.candidates[0]);
        }
    }
    assert forall|a: Opportunity, b: Opportunity, c: Opportunity|
        #![trigger ahead(a, b), ahead(a, c)]
        #![trigger ahead(a, c), ahead(b, c)]
        ahead(a, c) implies ahead(a, b) || ahead(b, c) by {
        if a.candidates.len() > 0 && b.candidates.len() > 0 && c.candidates.len() > 0 {
            lemma_measured_before_splits(a.candidates[0], b.candidates[0], c.candidates[0]);
        }
    }
}

proof fn lemma_policy_ranks()
    ensures
        ranks(|a: Assessed, b: Assessed| measured_before(a, b)),
{
    let ahead = |a: Assessed, b: Assessed| measured_before(a, b);
    assert forall|a: Assessed, b: Assessed| #[trigger] ahead(a, b) implies !ahead(b, a) by {
        lemma_measured_before(a, b);
    }
    assert forall|a: Assessed, b: Assessed, c: Assessed|
        #![trigger ahead(a, b), ahead(a, c)]
        #![trigger ahead(a, c), ahead(b, c)]
        ahead(a, c) implies ahead(a, b) || ahead(b, c) by {
        lemma_measured_before_splits(a, b, c);
    }
}

/// What is scheduled is what was grouped, rearranged.
proof fn lemma_scheduled_rows(s: Seq<Assessed>)
    ensures
        experiments(grouped(s)).no_duplicates(),
        scheduled(s).no_duplicates(),
        scheduled(s).to_multiset() == experiments(grouped(s)).to_multiset(),
        forall|i: int|
            0 <= i < scheduled(s).len() ==> experiments(grouped(s)).contains(
                #[trigger] scheduled(s)[i],
            ),
        forall|i: int|
            0 <= i < grouped(s).len() ==> scheduled(s).contains((#[trigger] grouped(s)[i]).1),
{
    let rows = grouped(s);
    let values = experiments(rows);
    let ahead = |a: Opportunity, b: Opportunity| scheduled_before(a, b);
    let order = scheduled(s);
    lemma_grouped(s);
    lemma_schedule_ranks();
    lemma_ranked_by(values, ahead);
    assert forall|i: int, j: int|
        0 <= i < values.len() && 0 <= j < values.len() && i != j implies values[i] != values[j] by {
        assert(rows[i].1.key.digest == rows[i].0);
        assert(rows[j].1.key.digest == rows[j].0);
        if values[i] == values[j] {
            lemma_in_order_unique::<String, Opportunity>(rows, i, j);
        }
    }
    values.lemma_multiset_has_no_duplicates();
    order.lemma_multiset_has_no_duplicates_conv();
    assert forall|i: int| 0 <= i < order.len() implies values.contains(#[trigger] order[i]) by {
        assert(order.contains(order[i]));
        to_multiset_contains(order, order[i]);
        to_multiset_contains(values, order[i]);
    }
    assert forall|i: int| 0 <= i < rows.len() implies order.contains((#[trigger] rows[i]).1) by {
        assert(values[i] == rows[i].1);
        assert(values.contains(values[i]));
        to_multiset_contains(order, values[i]);
        to_multiset_contains(values, values[i]);
    }
}

/// **An experiment is scheduled once.** Among the experiments of a round no
/// two have one key; each holds exactly the routes that run it, at least one,
/// in the order they came; every route is in the experiment of its key, so in
/// one and no other, and together they are as many as came; and no experiment
/// stands behind one it is to be measured before.
pub proof fn law_an_experiment_is_scheduled_once(s: Seq<Assessed>)
    ensures
        forall|i: int, j: int|
            #![trigger scheduled(s)[i], scheduled(s)[j]]
            0 <= i < j < scheduled(s).len() ==> scheduled(s)[i].key.digest
                != scheduled(s)[j].key.digest,
        forall|i: int|
            0 <= i < scheduled(s).len() ==> (#[trigger] scheduled(s)[i]).candidates.len() > 0
                && scheduled(s)[i].candidates == routes_of(s, scheduled(s)[i].key.digest),
        forall|k: int|
            0 <= k < s.len() ==> exists|i: int|
                0 <= i < scheduled(s).len() && (#[trigger] scheduled(s)[i]).key.digest == (
                #[trigger] s[k]).intended_key.digest && scheduled(s)[i].candidates.contains(s[k]),
        routes_among(scheduled(s)) == s.len(),
        forall|i: int, j: int|
            #![trigger scheduled(s)[i], scheduled(s)[j]]
            0 <= i < j < scheduled(s).len() ==> !scheduled_before(
                scheduled(s)[j],
                scheduled(s)[i],
            ),
{
    let rows = grouped(s);
    let values = experiments(rows);
    let ahead = |a: Opportunity, b: Opportunity| scheduled_before(a, b);
    let order = scheduled(s);
    lemma_grouped(s);
    lemma_scheduled_rows(s);
    lemma_schedule_ranks();
    lemma_ranked_by(values, ahead);
    lemma_routes_among_ranked(values, ahead);
    assert forall|i: int| 0 <= i < order.len() implies (#[trigger] order[i]).candidates.len() > 0
        && order[i].candidates == routes_of(s, order[i].key.digest) by {
        let k = values.index_of(order[i]);
        assert(rows[k].1 == order[i]);
    }
    assert forall|i: int, j: int| #![trigger order[i], order[j]] 0 <= i < j < order.len() implies
        order[i].key.digest != order[j].key.digest by {
        let k = values.index_of(order[i]);
        let l = values.index_of(order[j]);
        assert(rows[k].1 == order[i] && rows[l].1 == order[j]);
        if rows[k].0 == rows[l].0 {
            lemma_in_order_unique::<String, Opportunity>(rows, k, l);
        }
    }
    assert forall|k: int| 0 <= k < s.len() implies exists|i: int|
        0 <= i < order.len() && (#[trigger] order[i]).key.digest == (
        #[trigger] s[k]).intended_key.digest && order[i].candidates.contains(s[k]) by {
        let d = s[k].intended_key.digest;
        lemma_routes_of(s, d);
        lemma_route_is_kept(s, k);
        assert(names(rows, d));
        lemma_row_of(rows, d);
        let r = row_of(rows, d);
        assert(rows[r].1.key.digest == d);
        let i = order.index_of(rows[r].1);
        assert(order[i] == rows[r].1);
    }
    assert forall|i: int, j: int| #![trigger order[i], order[j]] 0 <= i < j < order.len() implies
        !scheduled_before(order[j], order[i]) by {
        assert(!ahead(order[j], order[i]));
    }
}

proof fn lemma_route_is_kept(s: Seq<Assessed>, k: int)
    requires
        0 <= k < s.len(),
    ensures
        routes_of(s, s[k].intended_key.digest).contains(s[k]),
    decreases s.len(),
{
    let d = s[k].intended_key.digest;
    let init = s.drop_last();
    if k == s.len() - 1 {
        assert(routes_of(s, d).last() == s[k]);
    } else {
        assert(init[k] == s[k]);
        lemma_route_is_kept(init, k);
        let at = routes_of(init, d).index_of(s[k]);
        assert(routes_of(s, d)[at] == s[k]);
    }
}

/// In the policy's order nothing is to be measured before the first route of
/// its own experiment.
proof fn lemma_first_route_leads(t: Seq<Assessed>, at: int)
    requires
        in_rank_by(t, |a: Assessed, b: Assessed| measured_before(a, b)),
        0 <= at < t.len(),
    ensures
        !measured_before(t[at], routes_of(t, t[at].intended_key.digest)[0]),
{
    let before = |a: Assessed, b: Assessed| measured_before(a, b);
    let d = t[at].intended_key.digest;
    lemma_routes_of(t, d);
    let m = choose|m: int|
        #![trigger t[m]]
        0 <= m < t.len() && t[m] == routes_of(t, d)[0] && forall|q: int|
            0 <= q < m ==> (#[trigger] t[q]).intended_key.digest != d;
    if m < at {
        assert(!before(t[at], t[m]));
    } else {
        assert(m == at);
        lemma_measured_before(t[at], t[at]);
    }
}

/// In the policy's order nothing is to be measured before the leading route
/// of the first experiment.
proof fn lemma_first_experiment_leads(t: Seq<Assessed>, at: int)
    requires
        in_rank_by(t, |a: Assessed, b: Assessed| measured_before(a, b)),
        0 <= at < t.len(),
    ensures
        scheduled(t).len() > 0,
        !measured_before(t[at], scheduled(t)[0].candidates[0]),
{
    let order = scheduled(t);
    law_an_experiment_is_scheduled_once(t);
    let route = t[at];
    let i = choose|i: int|
        0 <= i < order.len() && (#[trigger] order[i]).key.digest == route.intended_key.digest
            && order[i].candidates.contains(route);
    let lead = order[i].candidates[0];
    let first = order[0].candidates[0];
    lemma_first_route_leads(t, at);
    assert(order[0].candidates.len() > 0);
    if i > 0 {
        assert(!scheduled_before(order[i], order[0]));
    } else {
        lemma_measured_before(lead, lead);
    }
    lemma_measured_before_splits(route, lead, first);
}

/// **What leads the first experiment is measured before no other.** Of the
/// candidates of a round, put in the policy's order and grouped, none is to be
/// measured before the leading route of the first experiment; and there is an
/// experiment wherever there is a candidate.
pub proof fn law_the_first_experiment_leads(s: Seq<Assessed>)
    ensures
        scheduled(in_policy_order(s)).len() == 0 <==> s.len() == 0,
        s.len() > 0 ==> s.contains(scheduled(in_policy_order(s))[0].candidates[0]),
        forall|k: int|
            0 <= k < s.len() ==> !measured_before(
                #[trigger] s[k],
                scheduled(in_policy_order(s))[0].candidates[0],
            ),
{
    let before = |a: Assessed, b: Assessed| measured_before(a, b);
    let t = in_policy_order(s);
    let order = scheduled(t);
    lemma_policy_ranks();
    lemma_ranked_by(s, before);
    law_an_experiment_is_scheduled_once(t);
    if order.len() > 0 {
        let d = order[0].key.digest;
        let first = order[0].candidates[0];
        assert(order[0].candidates == routes_of(t, d));
        lemma_routes_of(t, d);
        assert(t.contains(first));
        to_multiset_contains(t, first);
        to_multiset_contains(s, first);
    }
    if s.len() > 0 {
        lemma_first_experiment_leads(t, 0);
    }
    assert forall|k: int| 0 <= k < s.len() implies !measured_before(
        #[trigger] s[k],
        order[0].candidates[0],
    ) by {
        assert(s.contains(s[k]));
        to_multiset_contains(s, s[k]);
        to_multiset_contains(t, s[k]);
        lemma_first_experiment_leads(t, t.index_of(s[k]));
    }
}

/// **The prize is the best of the routes'.** It is some route's delta, and no
/// route removes more.
pub proof fn law_the_prize_is_the_least_delta(s: Seq<Assessed>)
    requires
        s.len() > 0,
    ensures
        exists|i: int| 0 <= i < s.len() && (#[trigger] s[i]).physical_delta == least_delta(s),
        forall|i: int| 0 <= i < s.len() ==> least_delta(s) <= (#[trigger] s[i]).physical_delta,
    decreases s.len(),
{
    assert(s[s.len() - 1] == s.last());
    if s.len() > 1 {
        let init = s.drop_last();
        law_the_prize_is_the_least_delta(init);
        let k = choose|k: int|
            0 <= k < init.len() && (#[trigger] init[k]).physical_delta == least_delta(init);
        assert(s[k] == init[k]);
        assert forall|i: int| 0 <= i < s.len() implies least_delta(s) <= (
        #[trigger] s[i]).physical_delta by {
            if i < init.len() {
                assert(init[i] == s[i]);
            }
        }
    } else {
        assert(s[0].physical_delta == least_delta(s));
    }
}

/// **What is selected is what stands first**, and how it was chosen says how
/// much there was to choose from.
pub proof fn law_what_is_selected(s: Seq<Opportunity>)
    requires
        s.len() <= usize::MAX,
    ensures
        selected(s) is Exhausted <==> s.len() == 0,
        selected(s) is Sole <==> s.len() == 1,
        selected(s) is Ranked <==> s.len() >= 2,
        selected(s) matches Selected::Sole(o) ==> o == s[0],
        selected(s) matches Selected::Ranked { chosen, considered } ==> chosen == s[0]
            && considered == s.len(),
{
}

/// **An opportunity is ranked by its leading route.**
pub proof fn law_the_leading_route_ranks(a: Opportunity, b: Opportunity)
    requires
        a.candidates.len() > 0,
        b.candidates.len() > 0,
    ensures
        scheduled_before(a, b) <==> measured_before(a.candidates[0], b.candidates[0]),
{
}

/// **An experiment is the one its routes run.** Its key is its leading
/// route's key and its state that route's child; every route in it has its
/// key's digest, and every route of that digest is in it.
pub proof fn law_an_experiment_is_what_its_routes_run(s: Seq<Assessed>, i: int)
    requires
        0 <= i < scheduled(s).len(),
    ensures
        scheduled(s)[i].candidates.len() > 0,
        scheduled(s)[i].key == scheduled(s)[i].candidates[0].intended_key,
        scheduled(s)[i].state == scheduled(s)[i].candidates[0].child_state,
        forall|k: int|
            0 <= k < scheduled(s)[i].candidates.len() ==> (
            #[trigger] scheduled(s)[i].candidates[k]).intended_key.digest
                == scheduled(s)[i].key.digest && s.contains(scheduled(s)[i].candidates[k]),
        forall|k: int|
            0 <= k < s.len() && (#[trigger] s[k]).intended_key.digest
                == scheduled(s)[i].key.digest ==> scheduled(s)[i].candidates.contains(s[k]),
{
    let rows = grouped(s);
    let o = scheduled(s)[i];
    lemma_grouped(s);
    lemma_grouped_heads(s);
    lemma_scheduled_rows(s);
    let r = experiments(rows).index_of(o);
    assert(rows[r].1 == o);
    assert(o.candidates == routes_of(s, rows[r].0));
    lemma_routes_of(s, rows[r].0);
    lemma_routes_come_from(s, rows[r].0);
    assert forall|k: int|
        0 <= k < s.len() && (#[trigger] s[k]).intended_key.digest == o.key.digest implies o.candidates.contains(
        s[k],
    ) by {
        lemma_route_is_kept(s, k);
    }
}

proof fn lemma_routes_come_from(s: Seq<Assessed>, digest: Seq<char>)
    ensures
        forall|k: int|
            0 <= k < routes_of(s, digest).len() ==> s.contains(#[trigger] routes_of(s, digest)[k]),
    decreases s.len(),
{
    if s.len() > 0 {
        let init = s.drop_last();
        lemma_routes_come_from(init, digest);
        assert forall|k: int| 0 <= k < routes_of(s, digest).len() implies s.contains(
            #[trigger] routes_of(s, digest)[k],
        ) by {
            if k < routes_of(init, digest).len() {
                let x = routes_of(init, digest)[k];
                assert(init.contains(x));
                let j = init.index_of(x);
                assert(s[j] == x);
            } else {
                assert(s[s.len() - 1] == routes_of(s, digest)[k]);
            }
        }
    }
}

proof fn lemma_grouped_heads(s: Seq<Assessed>)
    ensures
        forall|i: int|
            0 <= i < grouped(s).len() ==> (#[trigger] grouped(s)[i]).1.key
                == grouped(s)[i].1.candidates[0].intended_key && grouped(s)[i].1.state
                == grouped(s)[i].1.candidates[0].child_state,
    decreases s.len(),
{
    if s.len() > 0 {
        let init = s.drop_last();
        let rows = grouped(init);
        let last = s.last();
        let name = last.intended_key.digest;
        lemma_grouped(init);
        lemma_grouped_heads(init);
        lemma_row_of(rows, name);
        crate::table::lemma_place_of::<String, Opportunity>(rows, name);
        let next = match lookup(rows, name) {
            Some(held) => Opportunity { candidates: held.candidates.push(last), ..held },
            None => Opportunity {
                key: last.intended_key,
                state: last.child_state,
                candidates: seq![last],
            },
        };
        let after = with_row::<String, Opportunity>(rows, name, next);
        let p = crate::table::place_of::<String, Opportunity>(rows, name);
        let r = row_of(rows, name);
        assert forall|i: int| 0 <= i < after.len() implies (#[trigger] after[i]).1.key
            == after[i].1.candidates[0].intended_key && after[i].1.state
            == after[i].1.candidates[0].child_state by {
            if names(rows, name) {
                assert(rows[r].1.candidates.len() > 0);
                if i != r {
                    assert(after[i] == rows[i]);
                }
            } else if i < p {
                assert(after[i] == rows[i]);
            } else if i > p {
                assert(after[i] == rows[i - 1]);
            }
        }
    }
}

} // verus!

//! The moves available from a state, and what became of each.
//!
//! A candidate disappears for one of three mechanical reasons: it changes no
//! decision, the transition policy refuses it on bytes, or this exact
//! experiment is on record. That a move is unlikely to teach anything is none
//! of them.
use crate::evidence_bank::EvidenceBankId;
use crate::identity::RepresentationStateId;
use crate::instrument::InstrumentSemanticsId;
use crate::key::{keyed, Keyed, MeasurementKey};
use crate::measurement::EvidenceScale;
use crate::quality::spaces;
use crate::realization::{LogicalBytes, RealizationId, Realized, ResolvedState};
use crate::table::NameSet;
use crate::text::{decimal, decimal_text};
use crate::transition::{Action, Move};
use vstd::prelude::*;
use vstd::string::*;

verus! {

/// **The experiment a candidate would run.**
#[derive(Debug, Clone, PartialEq, Eq)]
pub struct MeasurementIntent {
    pub bank: EvidenceBankId,
    pub scale: EvidenceScale,
    pub instrument: InstrumentSemanticsId,
}

impl MeasurementIntent {
    /// The key of this experiment on a state.
    pub open spec fn key_of(&self, state: Seq<char>) -> Keyed {
        keyed(state, self.bank@, self.scale, self.instrument@)
    }

    /// This experiment.
    pub fn new(
        bank: EvidenceBankId,
        scale: EvidenceScale,
        instrument: InstrumentSemanticsId,
    ) -> (r: MeasurementIntent)
        ensures
            r.bank == bank,
            r.scale == scale,
            r.instrument == instrument,
    {
        MeasurementIntent { bank, scale, instrument }
    }

    /// The key of this experiment on a state.
    pub fn key_for(&self, state: &RepresentationStateId) -> (r: MeasurementKey)
        ensures
            r@ == self.key_of(state@),
    {
        MeasurementKey::new(state, &self.bank, self.scale, &self.instrument)
    }
}

/// A move that may legitimately be measured.
#[derive(Debug, Clone, PartialEq)]
pub struct Candidate {
    /// The realization it departs from.
    pub parent_realization: RealizationId,
    pub parent_state: RepresentationStateId,
    /// The edits it would hold.
    pub applied: NameSet,
    pub action: Action,
    pub child: ResolvedState,
    /// Bytes added, negative where they are removed.
    pub physical_delta: i64,
    /// The experiment it would run.
    pub intended_key: MeasurementKey,
    /// Readings of the same physical state under other experiments.
    pub prior_observations: Vec<MeasurementKey>,
}

/// A candidate, by what it states.
#[verifier::ext_equal]
pub struct Proposed {
    pub parent_realization: Seq<char>,
    pub parent_state: Seq<char>,
    pub applied: Seq<(Seq<char>, ())>,
    pub action: Move,
    pub child: Realized,
    pub physical_delta: i64,
    pub intended_key: Keyed,
    pub prior_observations: Seq<Keyed>,
}

/// The keys, by what they state.
pub open spec fn keys_as(s: Seq<MeasurementKey>) -> Seq<Keyed> {
    s.map_values(|k: MeasurementKey| k@)
}

impl View for Candidate {
    type V = Proposed;

    open spec fn view(&self) -> Proposed {
        Proposed {
            parent_realization: self.parent_realization@,
            parent_state: self.parent_state@,
            applied: self.applied.rows(),
            action: self.action@,
            child: self.child@,
            physical_delta: self.physical_delta,
            intended_key: self.intended_key@,
            prior_observations: keys_as(self.prior_observations@),
        }
    }
}

/// The only reasons a candidate may vanish before it is measured.
#[derive(Debug, Clone, PartialEq)]
pub enum PreMeasurementPrune {
    /// This exact experiment is on record.
    AlreadyObserved { key: MeasurementKey },
    /// The transition policy refuses it on bytes.
    PhysicallyDominated { parent_bytes: LogicalBytes, child_bytes: LogicalBytes },
    /// The move makes no experiment of its own.
    StructurallyInvalid { why: String },
}

/// A reason, by what it states.
pub enum Prune {
    AlreadyObserved(Keyed),
    PhysicallyDominated { parent_bytes: u64, child_bytes: u64 },
    StructurallyInvalid(Seq<char>),
}

impl View for PreMeasurementPrune {
    type V = Prune;

    open spec fn view(&self) -> Prune {
        match self {
            PreMeasurementPrune::AlreadyObserved { key } => Prune::AlreadyObserved(key@),
            PreMeasurementPrune::PhysicallyDominated { parent_bytes, child_bytes } => {
                Prune::PhysicallyDominated {
                    parent_bytes: parent_bytes@,
                    child_bytes: child_bytes@,
                }
            },
            PreMeasurementPrune::StructurallyInvalid { why } => Prune::StructurallyInvalid(why@),
        }
    }
}

impl PreMeasurementPrune {
    /// The category, for reports.
    pub fn category(&self) -> (r: &'static str)
        ensures
            r@ == (match self@ {
                Prune::AlreadyObserved(_) => "already-observed"@,
                Prune::PhysicallyDominated { .. } => "physically-dominated"@,
                Prune::StructurallyInvalid(_) => "structurally-invalid"@,
            }),
    {
        match self {
            PreMeasurementPrune::AlreadyObserved { key } => "already-observed",
            PreMeasurementPrune::PhysicallyDominated { parent_bytes, child_bytes } => {
                "physically-dominated"
            },
            PreMeasurementPrune::StructurallyInvalid { why } => "structurally-invalid",
        }
    }
}

/// What became of one enumerated move.
#[derive(Debug, Clone, PartialEq)]
pub enum CandidateDisposition {
    Eligible(Box<Candidate>),
    Pruned {
        action: Action,
        /// What the move led to.
        child_state: Option<RepresentationStateId>,
        reason: PreMeasurementPrune,
    },
}

/// What became of one enumerated move, by what it states.
pub enum Disposed {
    Eligible(Proposed),
    Pruned { action: Move, child_state: Option<Seq<char>>, reason: Prune },
}

impl View for CandidateDisposition {
    type V = Disposed;

    open spec fn view(&self) -> Disposed {
        match self {
            CandidateDisposition::Eligible(c) => Disposed::Eligible(c@),
            CandidateDisposition::Pruned { action, child_state, reason } => Disposed::Pruned {
                action: action@,
                child_state: match child_state {
                    Some(id) => Some(id@),
                    None => None,
                },
                reason: reason@,
            },
        }
    }
}

impl Disposed {
    /// The move.
    pub open spec fn step(self) -> Move {
        match self {
            Disposed::Eligible(c) => c.action,
            Disposed::Pruned { action, .. } => action,
        }
    }
}

impl CandidateDisposition {
    /// The move.
    pub fn action(&self) -> (r: &Action)
        ensures
            r@ == self@.step(),
    {
        match self {
            CandidateDisposition::Eligible(c) => &c.action,
            CandidateDisposition::Pruned { action, child_state, reason } => action,
        }
    }
}

/// How many moves there were, and what became of them.
#[derive(Debug, Clone, Copy, PartialEq, Eq, Structural)]
pub struct Census {
    pub enumerated: usize,
    pub eligible: usize,
    pub already_observed: usize,
    pub physically_dominated: usize,
    pub structurally_invalid: usize,
}

impl Default for Census {
    fn default() -> (r: Self)
        ensures
            r == (Census {
                enumerated: 0,
                eligible: 0,
                already_observed: 0,
                physically_dominated: 0,
                structurally_invalid: 0,
            }),
    {
        Census {
            enumerated: 0,
            eligible: 0,
            already_observed: 0,
            physically_dominated: 0,
            structurally_invalid: 0,
        }
    }
}

/// A count at the right of six places.
pub open spec fn in_six_places(n: nat) -> Seq<char> {
    spaces(6 - decimal(n).len()) + decimal(n)
}

impl Census {
    /// Nothing disappeared silently.
    pub open spec fn adds_up(self) -> bool {
        self.enumerated == self.eligible + self.already_observed + self.physically_dominated
            + self.structurally_invalid
    }

    /// The census, line by line.
    pub open spec fn text(self) -> Seq<char> {
        "generated "@ + in_six_places(self.enumerated as nat) + "\nstructural invalid "@
            + in_six_places(self.structurally_invalid as nat) + "\nphysical dominance "@
            + in_six_places(self.physically_dominated as nat) + "\nalready measured "@
            + in_six_places(self.already_observed as nat) + "\neligible "@ + in_six_places(
            self.eligible as nat,
        )
    }

    /// **Nothing disappears silently.**
    pub fn conserves(&self) -> (r: bool)
        requires
            self.eligible + self.already_observed + self.physically_dominated
                + self.structurally_invalid <= usize::MAX,
        ensures
            r == self.adds_up(),
    {
        self.enumerated == self.eligible + self.already_observed + self.physically_dominated
            + self.structurally_invalid
    }

    /// The census, line by line.
    pub fn describe(&self) -> (r: String)
        ensures
            r@ == self.text(),
    {
        let mut s: String = "generated ".to_owned();
        push_in_six_places(&mut s, self.enumerated);
        s.append("\nstructural invalid ");
        push_in_six_places(&mut s, self.structurally_invalid);
        s.append("\nphysical dominance ");
        push_in_six_places(&mut s, self.physically_dominated);
        s.append("\nalready measured ");
        push_in_six_places(&mut s, self.already_observed);
        s.append("\neligible ");
        push_in_six_places(&mut s, self.eligible);
        s
    }
}

fn push_in_six_places(s: &mut String, n: usize)
    ensures
        final(s)@ == old(s)@ + in_six_places(n as nat),
{
    let digits: String = decimal_text(n as u64);
    let width: usize = digits.as_str().unicode_len();
    let mut i: usize = width;
    let ghost all = 6 - width as int;
    assert(s@ =~= old(s)@ + spaces(0));
    proof {
        reveal_strlit(" ");
    }
    while i < 6
        invariant
            width <= i,
            i <= 6 || i == width,
            s@ == old(s)@ + spaces(i - width),
            " "@ == seq![' '],
        decreases 6 - i,
    {
        s.append(" ");
        assert(s@ =~= old(s)@ + spaces(i + 1 - width));
        i = i + 1;
    }
    s.append(digits.as_str());
    assert(spaces(i - width) =~= spaces(6 - width as int));
    assert(s@ =~= old(s)@ + in_six_places(n as nat));
}

/// How many of the moves became what.
pub open spec fn tallied(s: Seq<Disposed>) -> (int, int, int, int)
    decreases s.len(),
{
    if s.len() == 0 {
        (0, 0, 0, 0)
    } else {
        let t = tallied(s.drop_last());
        match s.last() {
            Disposed::Eligible(_) => (t.0 + 1, t.1, t.2, t.3),
            Disposed::Pruned { reason, .. } => match reason {
                Prune::AlreadyObserved(_) => (t.0, t.1 + 1, t.2, t.3),
                Prune::PhysicallyDominated { .. } => (t.0, t.1, t.2 + 1, t.3),
                Prune::StructurallyInvalid(_) => (t.0, t.1, t.2, t.3 + 1),
            },
        }
    }
}

proof fn lemma_tallied(s: Seq<Disposed>)
    ensures
        tallied(s).0 >= 0,
        tallied(s).1 >= 0,
        tallied(s).2 >= 0,
        tallied(s).3 >= 0,
        tallied(s).0 + tallied(s).1 + tallied(s).2 + tallied(s).3 == s.len(),
    decreases s.len(),
{
    if s.len() > 0 {
        lemma_tallied(s.drop_last());
    }
}

/// The candidates among the moves, in order.
pub open spec fn eligible_among(s: Seq<Disposed>) -> Seq<Proposed>
    decreases s.len(),
{
    if s.len() == 0 {
        Seq::empty()
    } else {
        match s.last() {
            Disposed::Eligible(c) => eligible_among(s.drop_last()).push(c),
            _ => eligible_among(s.drop_last()),
        }
    }
}

/// The pruned moves and why, in order.
pub open spec fn pruned_among(s: Seq<Disposed>) -> Seq<(Move, Prune)>
    decreases s.len(),
{
    if s.len() == 0 {
        Seq::empty()
    } else {
        match s.last() {
            Disposed::Pruned { action, reason, .. } => pruned_among(s.drop_last()).push(
                (action, reason),
            ),
            _ => pruned_among(s.drop_last()),
        }
    }
}

/// Every move available from one state, and what became of each.
#[derive(Debug, Clone, PartialEq)]
pub struct CandidateSet {
    dispositions: Vec<CandidateDisposition>,
}

/// What became of the moves, by what it states.
pub open spec fn disposed_as(s: Seq<CandidateDisposition>) -> Seq<Disposed> {
    s.map_values(|d: CandidateDisposition| d@)
}

impl View for CandidateSet {
    type V = Seq<Disposed>;

    closed spec fn view(&self) -> Seq<Disposed> {
        disposed_as(self.dispositions@)
    }
}

impl Default for CandidateSet {
    fn default() -> (r: Self)
        ensures
            r@ == Seq::<Disposed>::empty(),
    {
        let r = CandidateSet { dispositions: Vec::new() };
        assert(r@ =~= Seq::<Disposed>::empty());
        r
    }
}

impl CandidateSet {
    /// The set of these moves.
    pub fn of(dispositions: Vec<CandidateDisposition>) -> (r: CandidateSet)
        ensures
            r@ == disposed_as(dispositions@),
    {
        CandidateSet { dispositions }
    }

    /// What became of each move, in enumeration order.
    pub fn dispositions(&self) -> (r: &Vec<CandidateDisposition>)
        ensures
            disposed_as(r@) == self@,
    {
        &self.dispositions
    }

    /// The candidates, in enumeration order.
    pub fn eligible(&self) -> (r: Vec<&Candidate>)
        ensures
            r@.map_values(|c: &Candidate| c@) == eligible_among(self@),
    {
        let mut v: Vec<&Candidate> = Vec::new();
        let mut i: usize = 0;
        assert(self@.take(0) =~= Seq::<Disposed>::empty());
        assert(v@.map_values(|c: &Candidate| c@) =~= Seq::<Proposed>::empty());
        while i < self.dispositions.len()
            invariant
                i <= self.dispositions@.len(),
                self@ == disposed_as(self.dispositions@),
                v@.map_values(|c: &Candidate| c@) == eligible_among(self@.take(i as int)),
            decreases self.dispositions@.len() - i,
        {
            let ghost next = self@.take(i as int + 1);
            let ghost held = v@;
            assert(next.drop_last() =~= self@.take(i as int));
            assert(next.last() == self.dispositions@[i as int]@);
            if let CandidateDisposition::Eligible(c) = &self.dispositions[i] {
                v.push(c);
                assert(v@.map_values(|c: &Candidate| c@) =~= held.map_values(
                    |c: &Candidate| c@,
                ).push(c@));
            }
            i = i + 1;
        }
        assert(self@.take(self@.len() as int) =~= self@);
        v
    }

    /// The pruned moves and why, in enumeration order.
    pub fn pruned(&self) -> (r: Vec<(&Action, &PreMeasurementPrune)>)
        ensures
            r@.map_values(|p: (&Action, &PreMeasurementPrune)| (p.0@, p.1@)) == pruned_among(self@),
    {
        let mut v: Vec<(&Action, &PreMeasurementPrune)> = Vec::new();
        let mut i: usize = 0;
        assert(self@.take(0) =~= Seq::<Disposed>::empty());
        assert(v@.map_values(|p: (&Action, &PreMeasurementPrune)| (p.0@, p.1@)) =~= Seq::<
            (Move, Prune),
        >::empty());
        while i < self.dispositions.len()
            invariant
                i <= self.dispositions@.len(),
                self@ == disposed_as(self.dispositions@),
                v@.map_values(|p: (&Action, &PreMeasurementPrune)| (p.0@, p.1@)) == pruned_among(
                    self@.take(i as int),
                ),
            decreases self.dispositions@.len() - i,
        {
            let ghost next = self@.take(i as int + 1);
            let ghost held = v@;
            assert(next.drop_last() =~= self@.take(i as int));
            assert(next.last() == self.dispositions@[i as int]@);
            if let CandidateDisposition::Pruned { action, child_state, reason } =
                &self.dispositions[i] {
                v.push((action, reason));
                assert(v@.map_values(|p: (&Action, &PreMeasurementPrune)| (p.0@, p.1@))
                    =~= held.map_values(
                    |p: (&Action, &PreMeasurementPrune)| (p.0@, p.1@),
                ).push((action@, reason@)));
            }
            i = i + 1;
        }
        assert(self@.take(self@.len() as int) =~= self@);
        v
    }

    /// How many moves there were.
    pub fn len(&self) -> (r: usize)
        ensures
            r == self@.len(),
    {
        self.dispositions.len()
    }

    /// Whether there was no move.
    pub fn is_empty(&self) -> (r: bool)
        ensures
            r == (self@.len() == 0),
    {
        self.dispositions.len() == 0
    }

    /// **The census**, which adds up for every set.
    pub fn census(&self) -> (r: Census)
        ensures
            r.enumerated == self@.len(),
            (
                r.eligible as int,
                r.already_observed as int,
                r.physically_dominated as int,
                r.structurally_invalid as int,
            ) == tallied(self@),
            r.adds_up(),
    {
        let mut eligible: usize = 0;
        let mut already_observed: usize = 0;
        let mut physically_dominated: usize = 0;
        let mut structurally_invalid: usize = 0;
        let mut i: usize = 0;
        assert(self@.take(0) =~= Seq::<Disposed>::empty());
        while i < self.dispositions.len()
            invariant
                i <= self.dispositions@.len(),
                self@ == disposed_as(self.dispositions@),
                (
                    eligible as int,
                    already_observed as int,
                    physically_dominated as int,
                    structurally_invalid as int,
                ) == tallied(self@.take(i as int)),
            decreases self.dispositions@.len() - i,
        {
            let ghost next = self@.take(i as int + 1);
            proof {
                assert(next.drop_last() =~= self@.take(i as int));
                assert(next.last() == self.dispositions@[i as int]@);
                lemma_tallied(self@.take(i as int));
            }
            match &self.dispositions[i] {
                CandidateDisposition::Eligible(c) => {
                    eligible = eligible + 1;
                },
                CandidateDisposition::Pruned { action, child_state, reason } => match reason {
                    PreMeasurementPrune::AlreadyObserved { key } => {
                        already_observed = already_observed + 1;
                    },
                    PreMeasurementPrune::PhysicallyDominated { parent_bytes, child_bytes } => {
                        physically_dominated = physically_dominated + 1;
                    },
                    PreMeasurementPrune::StructurallyInvalid { why } => {
                        structurally_invalid = structurally_invalid + 1;
                    },
                },
            }
            i = i + 1;
        }
        proof {
            assert(self@.take(self@.len() as int) =~= self@);
            lemma_tallied(self@);
        }
        Census {
            enumerated: self.dispositions.len(),
            eligible,
            already_observed,
            physically_dominated,
            structurally_invalid,
        }
    }
}

/// **Every move is counted once, as what became of it.** The count over two
/// lists is the sum of their counts, and one move counts one.
pub proof fn law_every_move_is_counted(a: Seq<Disposed>, b: Seq<Disposed>, one: Disposed)
    ensures
        tallied(a + b).0 == tallied(a).0 + tallied(b).0,
        tallied(a + b).1 == tallied(a).1 + tallied(b).1,
        tallied(a + b).2 == tallied(a).2 + tallied(b).2,
        tallied(a + b).3 == tallied(a).3 + tallied(b).3,
        tallied(seq![one]) == (match one {
            Disposed::Eligible(_) => (1int, 0int, 0int, 0int),
            Disposed::Pruned { reason: Prune::AlreadyObserved(_), .. } => (0int, 1int, 0int, 0int),
            Disposed::Pruned { reason: Prune::PhysicallyDominated { .. }, .. } => (
                0int,
                0int,
                1int,
                0int,
            ),
            Disposed::Pruned { reason: Prune::StructurallyInvalid(_), .. } => (
                0int,
                0int,
                0int,
                1int,
            ),
        }),
    decreases b.len(),
{
    let none = Seq::<Disposed>::empty();
    assert(seq![one].drop_last() =~= none);
    assert(seq![one].last() == one);
    assert(tallied(none) == (0int, 0int, 0int, 0int));
    if b.len() == 0 {
        assert(a + b =~= a);
        assert(b =~= none);
    } else {
        law_every_move_is_counted(a, b.drop_last(), one);
        assert((a + b).drop_last() =~= a + b.drop_last());
        assert((a + b).last() == b.last());
    }
}

/// **A move is a candidate or it is pruned, and is listed as the one it is.**
/// The candidates and the pruned moves keep the order of the moves, and
/// together they are all of them.
pub proof fn law_every_move_is_listed(a: Seq<Disposed>, b: Seq<Disposed>, one: Disposed)
    ensures
        eligible_among(a + b) == eligible_among(a) + eligible_among(b),
        pruned_among(a + b) == pruned_among(a) + pruned_among(b),
        eligible_among(a).len() + pruned_among(a).len() == a.len(),
        one matches Disposed::Eligible(c) ==> eligible_among(seq![one]) == seq![c],
        one matches Disposed::Pruned { action, reason, .. } ==> pruned_among(seq![one])
            == seq![(action, reason)],
    decreases a.len(), b.len(),
{
    let none = Seq::<Disposed>::empty();
    assert(seq![one].drop_last() =~= none);
    assert(seq![one].last() == one);
    assert(eligible_among(none) =~= Seq::<Proposed>::empty());
    assert(pruned_among(none) =~= Seq::<(Move, Prune)>::empty());
    if one is Eligible {
        assert(eligible_among(seq![one]) =~= seq![one->Eligible_0]);
    } else {
        assert(pruned_among(seq![one]) =~= seq![(one->action, one->reason)]);
    }
    if a.len() > 0 {
        law_every_move_is_listed(a.drop_last(), none, one);
    }
    if b.len() == 0 {
        assert(a + b =~= a);
        assert(b =~= none);
        assert(eligible_among(a) + eligible_among(b) =~= eligible_among(a));
        assert(pruned_among(a) + pruned_among(b) =~= pruned_among(a));
    } else {
        law_every_move_is_listed(a, b.drop_last(), one);
        assert((a + b).drop_last() =~= a + b.drop_last());
        assert((a + b).last() == b.last());
        assert(eligible_among(a + b) =~= eligible_among(a) + eligible_among(b));
        assert(pruned_among(a + b) =~= pruned_among(a) + pruned_among(b));
    }
}

/// **A census adds up where what became of the moves makes up the moves.**
pub proof fn law_when_a_census_adds_up(c: Census)
    ensures
        c.adds_up() <==> c.enumerated - c.eligible - c.already_observed - c.physically_dominated
            - c.structurally_invalid == 0,
{
}

/// **An experiment is run on the state it is asked of**, with the intent's own
/// bank, scale and instrument.
pub proof fn law_an_intent_is_run_on_its_state(intent: MeasurementIntent, state: Seq<char>)
    ensures
        intent.key_of(state).state == state,
        intent.key_of(state).bank == intent.bank@,
        intent.key_of(state).scale == intent.scale,
        intent.key_of(state).instrument == intent.instrument@,
{
}

} // verus!

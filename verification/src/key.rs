//! Have we already run this experiment against this physical state?
//!
//! A key is a state, a bank, a scale and an instrument. It says what was
//! performed against what, and nothing of what the result meant, so a later
//! contract reinterprets observations already held.
use crate::canon::{short, short_of, FIELD, SECTION};
use crate::digest::{digest_of, digest_text};
use crate::error::VindexError;
use crate::evidence_bank::EvidenceBankId;
use crate::identity::RepresentationStateId;
use crate::instrument::InstrumentSemanticsId;
use crate::measurement::EvidenceScale;
use crate::quality::{bank_shown, Distribution, LogitEvidence, QualityBank, RoutingEvidence};
use crate::reading::{Phrase, Piece, Reading, Shown};
use crate::realization::Realized;
use crate::table::{
    in_order, lemma_place_of_is, lemma_row_of_is, lemma_seen_lookup, lemma_seen_with_row, lemma_with_row_in_order,
    lemma_with_row_lookup, lookup, names, seen, with_row, Key, Table,
};
use crate::text::{before, lemma_text_before_strict, lemma_text_before_total, same, text_before};
use std::cmp::Ordering;
use vstd::prelude::*;
use vstd::string::*;

verus! {

/// The canonical-form version every key is computed under.
pub const MEASUREMENT_KEY_VERSION: &'static str = "measurement-key/v1";

/// A scale as keys write it.
pub open spec fn scale_text(scale: EvidenceScale) -> Seq<char> {
    match scale {
        EvidenceScale::Diagnostic => "diagnostic"@,
        EvidenceScale::Authority => "authority"@,
    }
}

/// What a key is a digest of.
pub open spec fn key_text(
    state: Seq<char>,
    bank: Seq<char>,
    scale: EvidenceScale,
    instrument: Seq<char>,
) -> Seq<char> {
    MEASUREMENT_KEY_VERSION@ + SECTION@ + "state="@ + state + FIELD@ + "bank="@ + bank + FIELD@
        + "scale="@ + scale_text(scale) + FIELD@ + "instrument="@ + instrument
}

/// **What makes two observations the same observation.**
#[derive(Debug, PartialEq, Eq)]
pub struct MeasurementKey {
    state: RepresentationStateId,
    bank: EvidenceBankId,
    scale: EvidenceScale,
    instrument: InstrumentSemanticsId,
    digest: String,
}

/// A key, by its texts.
pub struct Keyed {
    pub state: Seq<char>,
    pub bank: Seq<char>,
    pub scale: EvidenceScale,
    pub instrument: Seq<char>,
    pub digest: Seq<char>,
}

/// The key of this experiment on this state.
pub open spec fn keyed(
    state: Seq<char>,
    bank: Seq<char>,
    scale: EvidenceScale,
    instrument: Seq<char>,
) -> Keyed {
    Keyed {
        state,
        bank,
        scale,
        instrument,
        digest: digest_of(key_text(state, bank, scale, instrument)),
    }
}

impl View for MeasurementKey {
    type V = Keyed;

    closed spec fn view(&self) -> Keyed {
        Keyed {
            state: self.state@,
            bank: self.bank@,
            scale: self.scale,
            instrument: self.instrument@,
            digest: self.digest@,
        }
    }
}

impl Clone for MeasurementKey {
    fn clone(&self) -> (r: Self)
        ensures
            r == *self,
    {
        MeasurementKey {
            state: self.state.clone(),
            bank: self.bank.clone(),
            scale: self.scale,
            instrument: self.instrument.clone(),
            digest: self.digest.clone(),
        }
    }
}

/// Keys are ordered by their digests.
impl PartialOrd for MeasurementKey {
    fn partial_cmp(&self, other: &Self) -> (r: Option<Ordering>) {
        Some(MeasurementKey::cmp(self, other))
    }
}

impl vstd::std_specs::cmp::PartialOrdSpecImpl for MeasurementKey {
    open spec fn obeys_partial_cmp_spec() -> bool {
        true
    }

    open spec fn partial_cmp_spec(&self, other: &Self) -> Option<Ordering> {
        if text_before(self@.digest, other@.digest) {
            Some(Ordering::Less)
        } else if text_before(other@.digest, self@.digest) {
            Some(Ordering::Greater)
        } else {
            Some(Ordering::Equal)
        }
    }
}

impl MeasurementKey {
    /// How two keys compare: as their digests do.
    pub fn cmp(&self, other: &Self) -> (r: Ordering)
        ensures
            r is Less <==> text_before(self@.digest, other@.digest),
            r is Greater <==> text_before(other@.digest, self@.digest),
            r is Equal <==> self@.digest == other@.digest,
    {
        proof {
            lemma_text_before_strict(self@.digest, other@.digest);
            lemma_text_before_total(self@.digest, other@.digest);
        }
        if before(self.digest.as_str(), other.digest.as_str()) {
            Ordering::Less
        } else if before(other.digest.as_str(), self.digest.as_str()) {
            Ordering::Greater
        } else {
            Ordering::Equal
        }
    }

    /// The key of this experiment on this state.
    pub fn new(
        state: &RepresentationStateId,
        bank: &EvidenceBankId,
        scale: EvidenceScale,
        instrument: &InstrumentSemanticsId,
    ) -> (r: MeasurementKey)
        ensures
            r@ == keyed(state@, bank@, scale, instrument@),
    {
        let mut s: String = MEASUREMENT_KEY_VERSION.to_owned();
        s.append(SECTION);
        s.append("state=");
        s.append(state.as_str());
        s.append(FIELD);
        s.append("bank=");
        s.append(bank.as_str());
        s.append(FIELD);
        s.append("scale=");
        match scale {
            EvidenceScale::Diagnostic => s.append("diagnostic"),
            EvidenceScale::Authority => s.append("authority"),
        }
        s.append(FIELD);
        s.append("instrument=");
        s.append(instrument.as_str());
        MeasurementKey {
            state: state.clone(),
            bank: bank.clone(),
            scale,
            instrument: instrument.clone(),
            digest: digest_text(s.as_str()),
        }
    }

    /// Which physical state was measured.
    pub fn state(&self) -> (r: &RepresentationStateId)
        ensures
            r@ == self@.state,
    {
        &self.state
    }

    /// Over which samples.
    pub fn bank(&self) -> (r: &EvidenceBankId)
        ensures
            r@ == self@.bank,
    {
        &self.bank
    }

    /// At which scale.
    pub fn scale(&self) -> (r: EvidenceScale)
        ensures
            r == self@.scale,
    {
        self.scale
    }

    /// By what instrument.
    pub fn instrument(&self) -> (r: &InstrumentSemanticsId)
        ensures
            r@ == self@.instrument,
    {
        &self.instrument
    }

    /// The digest keys are ordered by.
    pub fn as_str(&self) -> (r: &str)
        ensures
            r@ == self@.digest,
    {
        self.digest.as_str()
    }

    /// The first twelve characters, for reports.
    pub fn short(&self) -> (r: &str)
        ensures
            r@ == short_of(self@.digest),
    {
        short(self.digest.as_str())
    }
}

proof fn lemma_key_length(
    state: Seq<char>,
    bank: Seq<char>,
    scale: EvidenceScale,
    instrument: Seq<char>,
)
    ensures
        key_text(state, bank, scale, instrument).len() == MEASUREMENT_KEY_VERSION@.len()
            + SECTION@.len() + "state="@.len() + state.len() + FIELD@.len() + "bank="@.len()
            + bank.len() + FIELD@.len() + "scale="@.len() + scale_text(scale).len() + FIELD@.len()
            + "instrument="@.len() + instrument.len(),
{
}

/// **A key names one experiment.** Where the ids have one length, as digests
/// do, what two keys are digests of agrees only where the state, the bank, the
/// scale and the instrument all do.
pub proof fn law_a_key_names_one_experiment(
    state: Seq<char>,
    bank: Seq<char>,
    scale: EvidenceScale,
    instrument: Seq<char>,
    other_state: Seq<char>,
    other_bank: Seq<char>,
    other_scale: EvidenceScale,
    other_instrument: Seq<char>,
)
    requires
        state.len() == other_state.len(),
        bank.len() == other_bank.len(),
        instrument.len() == other_instrument.len(),
        key_text(state, bank, scale, instrument) == key_text(
            other_state,
            other_bank,
            other_scale,
            other_instrument,
        ),
    ensures
        state == other_state,
        bank == other_bank,
        scale == other_scale,
        instrument == other_instrument,
{
    reveal_strlit("diagnostic");
    reveal_strlit("authority");
    let x = key_text(state, bank, scale, instrument);
    let y = key_text(other_state, other_bank, other_scale, other_instrument);
    lemma_key_length(state, bank, scale, instrument);
    lemma_key_length(other_state, other_bank, other_scale, other_instrument);
    assert(scale_text(scale).len() == scale_text(other_scale).len());
    let a = (MEASUREMENT_KEY_VERSION@ + SECTION@ + "state="@).len() as int;
    let b = a + state.len() + FIELD@.len() + "bank="@.len();
    let c = b + bank.len() + FIELD@.len() + "scale="@.len() + scale_text(scale).len() + FIELD@.len()
        + "instrument="@.len();
    assert(x.subrange(a, a + state.len()) =~= state);
    assert(y.subrange(a, a + state.len()) =~= other_state);
    assert(x.subrange(b, b + bank.len()) =~= bank);
    assert(y.subrange(b, b + bank.len()) =~= other_bank);
    assert(x.subrange(c, c + instrument.len()) =~= instrument);
    assert(y.subrange(c, c + instrument.len()) =~= other_instrument);
}

/// **Evidence collapses realizations.** Two realizations of one physical state
/// have the same keys, so a reading of one is a reading of the other.
pub proof fn law_evidence_collapses_realizations(
    a: Realized,
    b: Realized,
    bank: Seq<char>,
    scale: EvidenceScale,
    instrument: Seq<char>,
)
    requires
        a.state.id == b.state.id,
    ensures
        keyed(a.state.id, bank, scale, instrument) == keyed(b.state.id, bank, scale, instrument),
{
}

/// Two optional readings are equal.
pub open spec fn readings_equal(a: Option<Reading>, b: Option<Reading>) -> bool {
    match (a, b) {
        (Some(x), Some(y)) => x.equals(y),
        (None, None) => true,
        _ => false,
    }
}

/// Two optional distributions are equal.
pub open spec fn distributions_equal(a: Option<Distribution>, b: Option<Distribution>) -> bool {
    match (a, b) {
        (Some(x), Some(y)) => x.count == y.count && x.min.equals(y.min) && x.p50.equals(y.p50)
            && x.p95.equals(y.p95) && x.p99.equals(y.p99) && x.max.equals(y.max),
        (None, None) => true,
        _ => false,
    }
}

/// Two readings of the output distribution are equal.
pub open spec fn logits_equal(a: LogitEvidence, b: LogitEvidence) -> bool {
    a.kl_p50.equals(b.kl_p50) && a.kl_p95.equals(b.kl_p95) && a.kl_p99.equals(b.kl_p99)
        && a.max_logit_delta.equals(b.max_logit_delta) && a.top1_flips == b.top1_flips
        && a.top10_changes == b.top10_changes
}

/// Two readings of the routing are equal.
pub open spec fn routing_equal(a: RoutingEvidence, b: RoutingEvidence) -> bool {
    a.route_flips == b.route_flips && a.positions_with_route_change == b.positions_with_route_change
        && a.layers_with_route_change == b.layers_with_route_change && distributions_equal(
        a.route_margin,
        b.route_margin,
    ) && distributions_equal(a.route_weight_mass_moved, b.route_weight_mass_moved)
        && a.first_layer_with_route_change == b.first_layer_with_route_change
}

/// Two banks read the same: every number equal as a number, so that a bank
/// holding a NaN reads the same as none, itself included.
pub open spec fn reads_alike(a: QualityBank, b: QualityBank) -> bool {
    &&& a.positions == b.positions
    &&& logits_equal(a.logits, b.logits)
    &&& routing_equal(a.routing, b.routing)
    &&& readings_equal(a.min_covered_mass, b.min_covered_mass)
    &&& a.activations == b.activations
    &&& distributions_equal(a.top10_margin, b.top10_margin)
    &&& distributions_equal(a.top10_candidate_margin, b.top10_candidate_margin)
    &&& distributions_equal(a.top10_mass_displaced, b.top10_mass_displaced)
    &&& distributions_equal(a.top10_rank_displacement, b.top10_rank_displacement)
    &&& distributions_equal(a.top1_margin, b.top1_margin)
    &&& distributions_equal(a.top1_candidate_margin, b.top1_candidate_margin)
    &&& distributions_equal(a.top1_mass_displaced, b.top1_mass_displaced)
}

fn same_distribution(a: Option<Distribution>, b: Option<Distribution>) -> (r: bool)
    ensures
        r == distributions_equal(a, b),
{
    match (a, b) {
        (Some(x), Some(y)) => x.count == y.count && x.min.same_value(y.min) && x.p50.same_value(y.p50)
            && x.p95.same_value(y.p95) && x.p99.same_value(y.p99) && x.max.same_value(y.max),
        (None, None) => true,
        _ => false,
    }
}

fn same_count(a: Option<u64>, b: Option<u64>) -> (r: bool)
    ensures
        r == (a == b),
{
    match (a, b) {
        (Some(x), Some(y)) => x == y,
        (None, None) => true,
        _ => false,
    }
}

/// Whether two banks read the same.
pub fn same_observation(a: &QualityBank, b: &QualityBank) -> (r: bool)
    ensures
        r == reads_alike(*a, *b),
{
    let covered: bool = match (a.min_covered_mass, b.min_covered_mass) {
        (Some(x), Some(y)) => x.same_value(y),
        (None, None) => true,
        _ => false,
    };
    let sourced: bool = match (a.activations, b.activations) {
        (Some(x), Some(y)) => x == y,
        (None, None) => true,
        _ => false,
    };
    a.positions == b.positions && a.logits.kl_p50.same_value(b.logits.kl_p50)
        && a.logits.kl_p95.same_value(b.logits.kl_p95) && a.logits.kl_p99.same_value(
        b.logits.kl_p99,
    ) && a.logits.max_logit_delta.same_value(b.logits.max_logit_delta) && a.logits.top1_flips
        == b.logits.top1_flips && a.logits.top10_changes == b.logits.top10_changes
        && a.routing.route_flips == b.routing.route_flips && a.routing.positions_with_route_change
        == b.routing.positions_with_route_change && a.routing.layers_with_route_change
        == b.routing.layers_with_route_change && same_distribution(
        a.routing.route_margin,
        b.routing.route_margin,
    ) && same_distribution(a.routing.route_weight_mass_moved, b.routing.route_weight_mass_moved)
        && same_count(
        a.routing.first_layer_with_route_change,
        b.routing.first_layer_with_route_change,
    ) && covered && sourced && same_distribution(a.top10_margin, b.top10_margin)
        && same_distribution(a.top10_candidate_margin, b.top10_candidate_margin)
        && same_distribution(a.top10_mass_displaced, b.top10_mass_displaced) && same_distribution(
        a.top10_rank_displacement,
        b.top10_rank_displacement,
    ) && same_distribution(a.top1_margin, b.top1_margin) && same_distribution(
        a.top1_candidate_margin,
        b.top1_candidate_margin,
    ) && same_distribution(a.top1_mass_displaced, b.top1_mass_displaced)
}

/// A reading, under the key of what it observed.
#[derive(Debug, Clone, PartialEq)]
pub struct RegistryRecord {
    pub key: MeasurementKey,
    pub observation: QualityBank,
}

/// A reading and its key, by what they state.
pub struct Recorded {
    pub key: Keyed,
    pub observation: QualityBank,
}

impl View for RegistryRecord {
    type V = Recorded;

    open spec fn view(&self) -> Recorded {
        Recorded { key: self.key@, observation: self.observation }
    }
}

/// How a record is read.
pub open spec fn as_recorded() -> spec_fn(RegistryRecord) -> Recorded {
    |r: RegistryRecord| r@
}

/// One experiment with two readings.
#[derive(Debug, Clone, PartialEq)]
pub struct MeasurementConflict {
    pub key: MeasurementKey,
    pub expected: QualityBank,
    pub observed: QualityBank,
}

/// A scale as a debug form writes it.
pub open spec fn scale_title(scale: EvidenceScale) -> Seq<char> {
    match scale {
        EvidenceScale::Diagnostic => "Diagnostic"@,
        EvidenceScale::Authority => "Authority"@,
    }
}

/// A key in its debug form: the state, the bank, the scale, the instrument
/// and the digest.
pub open spec fn key_shown(key: Keyed) -> Seq<Shown> {
    seq![
        Shown::Words("MeasurementKey { state: RepresentationStateId("@),
        Shown::Quoted(key.state),
        Shown::Words("), bank: EvidenceBankId("@),
        Shown::Quoted(key.bank),
        Shown::Words("), scale: "@ + scale_title(key.scale) + ", instrument: InstrumentSemanticsId("@),
        Shown::Quoted(key.instrument),
        Shown::Words("), digest: "@),
        Shown::Quoted(key.digest),
        Shown::Words(" }"@),
    ]
}

/// What a conflict says: the whole experiment, and both readings.
pub open spec fn conflict_text(
    key: Keyed,
    expected: QualityBank,
    observed: QualityBank,
) -> Seq<Shown> {
    seq![Shown::Words("measurement "@)] + key_shown(key) + seq![
        Shown::Words(
            " is already held with a different reading; the experiment is not reproducible; expected "@,
        ),
    ] + bank_shown(expected) + seq![Shown::Words(", observed "@)] + bank_shown(observed) + seq![
        Shown::Words("; neither reading may silently win"@),
    ]
}

impl MeasurementKey {
    fn show(&self, p: &mut Phrase)
        ensures
            final(p)@ == old(p)@ + key_shown(self@),
    {
        let mut scale: String = "), scale: ".to_owned();
        scale.append(
            match self.scale {
                EvidenceScale::Diagnostic => "Diagnostic",
                EvidenceScale::Authority => "Authority",
            },
        );
        scale.append(", instrument: InstrumentSemanticsId(");
        p.say("MeasurementKey { state: RepresentationStateId(");
        p.push(Piece::Quoted(self.state.as_str().to_owned()));
        p.say("), bank: EvidenceBankId(");
        p.push(Piece::Quoted(self.bank.as_str().to_owned()));
        p.push(Piece::Words(scale));
        p.push(Piece::Quoted(self.instrument.as_str().to_owned()));
        p.say("), digest: ");
        p.push(Piece::Quoted(self.digest.clone()));
        p.say(" }");
        assert(p@ =~= old(p)@ + key_shown(self@));
    }
}

impl MeasurementConflict {
    /// What the conflict says: the whole experiment, and both readings.
    pub fn describe(&self) -> (r: Phrase)
        ensures
            r@ == conflict_text(self.key@, self.expected, self.observed),
    {
        let mut p = Phrase::new();
        p.say("measurement ");
        self.key.show(&mut p);
        p.say(
            " is already held with a different reading; the experiment is not reproducible; expected ",
        );
        self.expected.show(&mut p);
        p.say(", observed ");
        self.observed.show(&mut p);
        p.say("; neither reading may silently win");
        assert(p@ =~= conflict_text(self.key@, self.expected, self.observed));
        p
    }
}

/// The refusal of records that name one experiment twice.
pub open spec fn twice_text(digest: Seq<char>) -> Seq<char> {
    "measurement "@ + short_of(digest)
        + " is recorded twice — a stored registry that names one experiment twice was not written by `record`, and loading it would keep whichever came last"@
}

/// The rows these records make, in the order they come.
pub open spec fn rows_of(records: Seq<Recorded>) -> Seq<(Seq<char>, Recorded)>
    decreases records.len(),
{
    if records.len() == 0 {
        Seq::empty()
    } else {
        with_row::<String, Recorded>(
            rows_of(records.drop_last()),
            records.last().key.digest,
            records.last(),
        )
    }
}

/// Record `i` names an experiment an earlier one named.
pub open spec fn repeats_earlier(records: Seq<Recorded>, i: int) -> bool {
    exists|j: int| 0 <= j < i && (#[trigger] records[j]).key.digest == records[i].key.digest
}

/// **Observations, keyed by what they observed.**
#[derive(Debug, Clone, PartialEq)]
pub struct MeasurementRegistry {
    observations: Table<String, RegistryRecord>,
}

impl View for MeasurementRegistry {
    type V = Seq<(Seq<char>, Recorded)>;

    closed spec fn view(&self) -> Seq<(Seq<char>, Recorded)> {
        seen(self.observations.rows(), as_recorded())
    }
}

/// The records of one state.
pub open spec fn records_of(rows: Seq<(Seq<char>, Recorded)>, state: Seq<char>) -> Seq<Recorded>
    decreases rows.len(),
{
    if rows.len() == 0 {
        Seq::empty()
    } else if rows.last().1.key.state == state {
        records_of(rows.drop_last(), state).push(rows.last().1)
    } else {
        records_of(rows.drop_last(), state)
    }
}

/// The records, without the names they stand under.
pub open spec fn stored(rows: Seq<(Seq<char>, Recorded)>) -> Seq<Recorded> {
    rows.map_values(|row: (Seq<char>, Recorded)| row.1)
}

/// Every record stands under its own key's digest, in order.
pub open spec fn registered(rows: Seq<(Seq<char>, Recorded)>) -> bool {
    &&& in_order::<String, Recorded>(rows)
    &&& forall|i: int| 0 <= i < rows.len() ==> (#[trigger] rows[i]).1.key.digest == rows[i].0
}

impl Default for MeasurementRegistry {
    fn default() -> (r: Self)
        ensures
            r@ == Seq::<(Seq<char>, Recorded)>::empty(),
            registered(r@),
    {
        MeasurementRegistry::new()
    }
}

impl MeasurementRegistry {
    /// A registry that holds nothing.
    pub fn new() -> (r: MeasurementRegistry)
        ensures
            r@ == Seq::<(Seq<char>, Recorded)>::empty(),
            registered(r@),
    {
        let r = MeasurementRegistry { observations: Table::new() };
        assert(r@ =~= Seq::<(Seq<char>, Recorded)>::empty());
        r
    }

    /// Whether this exact experiment has already been run.
    pub fn contains(&self, key: &MeasurementKey) -> (r: bool)
        ensures
            r == names(self@, key@.digest),
    {
        proof {
            lemma_seen_lookup(self.observations.rows(), as_recorded(), key@.digest);
        }
        self.observations.contains(&key.as_str().to_owned())
    }

    /// The reading held under a key.
    pub fn get(&self, key: &MeasurementKey) -> (r: Option<&QualityBank>)
        ensures
            r matches Some(b) ==> lookup(self@, key@.digest) matches Some(held) && held.observation
                == *b,
            r is None ==> lookup(self@, key@.digest) is None,
    {
        proof {
            lemma_seen_lookup(self.observations.rows(), as_recorded(), key@.digest);
        }
        match self.observations.get(&key.as_str().to_owned()) {
            Some(record) => Some(&record.observation),
            None => None,
        }
    }

    /// How many readings are held.
    pub fn len(&self) -> (r: usize)
        ensures
            r == self@.len(),
    {
        self.observations.len()
    }

    /// Whether no reading is held.
    pub fn is_empty(&self) -> (r: bool)
        ensures
            r == (self@.len() == 0),
    {
        self.observations.is_empty()
    }

    /// The keys, in digest order.
    pub fn keys(&self) -> (r: Vec<&MeasurementKey>)
        ensures
            r@.len() == self@.len(),
            forall|i: int| 0 <= i < r@.len() ==> (#[trigger] r@[i])@ == self@[i].1.key,
    {
        let mut v: Vec<&MeasurementKey> = Vec::new();
        let mut i: usize = 0;
        while i < self.observations.len()
            invariant
                i <= self.observations.rows().len(),
                v@.len() == i,
                self@ == seen(self.observations.rows(), as_recorded()),
                forall|k: int| 0 <= k < i ==> (#[trigger] v@[k])@ == self@[k].1.key,
            decreases self.observations.rows().len() - i,
        {
            v.push(&self.observations.value_at(i).key);
            i = i + 1;
        }
        v
    }

    /// Every reading of one physical state, in digest order.
    pub fn of_state(&self, state: &RepresentationStateId) -> (r: Vec<&RegistryRecord>)
        ensures
            r@.map_values(|x: &RegistryRecord| x@) == records_of(self@, state@),
    {
        let mut v: Vec<&RegistryRecord> = Vec::new();
        let mut i: usize = 0;
        assert(v@.map_values(|x: &RegistryRecord| x@) =~= Seq::<Recorded>::empty());
        assert(self@.take(0) =~= Seq::<(Seq<char>, Recorded)>::empty());
        while i < self.observations.len()
            invariant
                i <= self.observations.rows().len(),
                self@ == seen(self.observations.rows(), as_recorded()),
                v@.map_values(|x: &RegistryRecord| x@) == records_of(self@.take(i as int), state@),
            decreases self.observations.rows().len() - i,
        {
            let record: &RegistryRecord = self.observations.value_at(i);
            let ghost next = self@.take(i as int + 1);
            let ghost held = v@;
            assert(next.drop_last() =~= self@.take(i as int));
            assert(next.last().1 == record@);
            if same(record.key.state().as_str(), state.as_str()) {
                v.push(record);
                assert(v@.map_values(|x: &RegistryRecord| x@) =~= held.map_values(
                    |x: &RegistryRecord| x@,
                ).push(record@));
            }
            i = i + 1;
        }
        assert(self@.take(self@.len() as int) =~= self@);
        v
    }

    /// **Record an observation, refusing a contradiction.** Recording a
    /// reproduced reading changes nothing.
    pub fn record(&mut self, key: MeasurementKey, observation: QualityBank) -> (r: Result<
        (),
        Box<MeasurementConflict>,
    >)
        ensures
            match lookup(old(self)@, key@.digest) {
                None => r is Ok && final(self)@ == with_row::<String, Recorded>(
                    old(self)@,
                    key@.digest,
                    Recorded { key: key@, observation },
                ),
                Some(held) => final(self)@ == old(self)@ && (if reads_alike(
                    held.observation,
                    observation,
                ) {
                    r is Ok
                } else {
                    r matches Err(c) && c.key == key && c.expected == held.observation
                        && c.observed == observation
                }),
            },
            registered(old(self)@) ==> registered(final(self)@),
    {
        let name: String = key.as_str().to_owned();
        let at: usize = self.observations.find(&name);
        proof {
            lemma_seen_lookup(self.observations.rows(), as_recorded(), name@);
            crate::table::lemma_row_of(self.observations.rows(), name@);
        }
        if at < self.observations.len() {
            let held: QualityBank = self.observations.value_at(at).observation;
            if same_observation(&held, &observation) {
                Ok(())
            } else {
                Err(Box::new(MeasurementConflict { key, expected: held, observed: observation }))
            }
        } else {
            let record = RegistryRecord { key, observation };
            proof {
                lemma_seen_with_row::<String, RegistryRecord, Recorded>(
                    self.observations.rows(),
                    as_recorded(),
                    name@,
                    record,
                );
                lemma_registered(self@, record@);
            }
            self.observations.insert(name, record);
            Ok(())
        }
    }

    /// The records as they are stored, in digest order.
    pub fn into_records(self) -> (r: Vec<RegistryRecord>)
        ensures
            r@.map_values(|x: RegistryRecord| x@) == stored(self@),
    {
        let ghost rows = self.observations.rows();
        let v: Vec<RegistryRecord> = self.observations.into_values();
        assert(v@.map_values(|x: RegistryRecord| x@) =~= stored(seen(rows, as_recorded())));
        v
    }

    /// Read stored records, refusing any that name one experiment twice.
    pub fn from_records(records: Vec<RegistryRecord>) -> (r: Result<
        MeasurementRegistry,
        VindexError,
    >)
        ensures
            ({
                let given = records@.map_values(|x: RegistryRecord| x@);
                &&& r matches Ok(registry) ==> registry@ == rows_of(given) && registered(registry@)
                    && forall|i: int|
                    0 <= i < given.len() ==> !(#[trigger] repeats_earlier(given, i))
                &&& r matches Err(e) ==> exists|i: int|
                    {
                        &&& 0 <= i < given.len()
                        &&& #[trigger] repeats_earlier(given, i)
                        &&& e.text() == twice_text(given[i].key.digest)
                        &&& forall|j: int| 0 <= j < i ==> !(#[trigger] repeats_earlier(given, j))
                    }
            }),
    {
        let ghost given = records@.map_values(|x: RegistryRecord| x@);
        let mut registry: MeasurementRegistry = MeasurementRegistry::new();
        let mut rest: Vec<RegistryRecord> = Vec::new();
        let count: usize = records.len();
        let mut source: Vec<RegistryRecord> = records;
        // Taken from the back, so that they can be moved, and put in from the
        // front.
        while source.len() > 0
            invariant
                source@.map_values(|x: RegistryRecord| x@) == given.take(
                    given.len() - rest@.len(),
                ),
                rest@.len() <= given.len(),
                forall|k: int|
                    0 <= k < rest@.len() ==> (#[trigger] rest@[k])@ == given[given.len() - 1 - k],
            decreases source@.len(),
        {
            let ghost before = source@.map_values(|x: RegistryRecord| x@);
            assert(before.len() == source@.len());
            match source.pop() {
                Some(record) => {
                    proof {
                        assert(record@ == before[before.len() - 1]);
                        assert(source@.map_values(|x: RegistryRecord| x@) =~= given.take(
                            given.len() - rest@.len() - 1,
                        ));
                    }
                    rest.push(record);
                },
                None => {},
            }
        }
        proof {
            assert(source@.map_values(|x: RegistryRecord| x@).len() == 0);
            assert(rest@.len() == given.len());
            assert(given.take(0) =~= Seq::<Recorded>::empty());
        }
        let mut n: usize = 0;
        while rest.len() > 0
            invariant
                given.len() == count,
                n + rest@.len() == given.len(),
                forall|k: int|
                    0 <= k < rest@.len() ==> (#[trigger] rest@[k])@ == given[given.len() - 1 - k],
                given == records@.map_values(|x: RegistryRecord| x@),
                registry@ == rows_of(given.take(n as int)),
                registered(registry@),
                forall|i: int| 0 <= i < n ==> !(#[trigger] repeats_earlier(given, i)),
            decreases rest@.len(),
        {
            assert(rest@[rest@.len() - 1]@ == given[n as int]);
            match rest.pop() {
                Some(record) => {
                    let name: String = record.key.as_str().to_owned();
                    proof {
                        lemma_seen_lookup(registry.observations.rows(), as_recorded(), name@);
                        lemma_rows_of_names(given.take(n as int), name@);
                        lemma_seen_with_row::<String, RegistryRecord, Recorded>(
                            registry.observations.rows(),
                            as_recorded(),
                            name@,
                            record,
                        );
                        lemma_registered(registry@, record@);
                        let next = given.take(n as int + 1);
                        assert(next.drop_last() =~= given.take(n as int));
                        assert(next.last() == record@);
                    }
                    if registry.observations.contains(&name) {
                        let mut s: String = "measurement ".to_owned();
                        s.append(record.key.short());
                        s.append(
                            " is recorded twice — a stored registry that names one experiment twice was not written by `record`, and loading it would keep whichever came last",
                        );
                        proof {
                            let head = given.take(n as int);
                            let j = choose|j: int|
                                0 <= j < head.len() && (#[trigger] head[j]).key.digest == name@;
                            assert(given[j].key.digest == given[n as int].key.digest);
                            assert(repeats_earlier(given, n as int));
                        }
                        return Err(VindexError::Parse(s));
                    }
                    proof {
                        if repeats_earlier(given, n as int) {
                            let j = choose|j: int|
                                0 <= j < n && (#[trigger] given[j]).key.digest
                                    == given[n as int].key.digest;
                            assert(given.take(n as int)[j] == given[j]);
                        }
                    }
                    registry.observations.insert(name, record);
                    n = n + 1;
                },
                None => {},
            }
        }
        assert(given.take(n as int) =~= given);
        Ok(registry)
    }
}

proof fn lemma_registered(rows: Seq<(Seq<char>, Recorded)>, record: Recorded)
    ensures
        registered(rows) ==> registered(
            with_row::<String, Recorded>(rows, record.key.digest, record),
        ),
{
    if registered(rows) {
        let name = record.key.digest;
        let after = with_row::<String, Recorded>(rows, name, record);
        lemma_with_row_in_order::<String, Recorded>(rows, name, record);
        crate::table::lemma_row_of(rows, name);
        crate::table::lemma_place_of::<String, Recorded>(rows, name);
        let p = crate::table::place_of::<String, Recorded>(rows, name);
        assert forall|i: int| 0 <= i < after.len() implies (#[trigger] after[i]).1.key.digest
            == after[i].0 by {
            if names(rows, name) {
                if i != crate::table::row_of(rows, name) {
                    assert(after[i] == rows[i]);
                }
            } else if i < p {
                assert(after[i] == rows[i]);
            } else if i > p {
                assert(after[i] == rows[i - 1]);
            }
        }
    }
}

proof fn lemma_rows_of_names(records: Seq<Recorded>, name: Seq<char>)
    ensures
        names(rows_of(records), name) <==> exists|j: int|
            0 <= j < records.len() && (#[trigger] records[j]).key.digest == name,
    decreases records.len(),
{
    if records.len() > 0 {
        let init = records.drop_last();
        let last = records.last();
        lemma_rows_of_names(init, name);
        lemma_with_row_lookup::<String, Recorded>(rows_of(init), last.key.digest, last, name);
        if names(rows_of(records), name) {
            if last.key.digest == name {
                assert(records[records.len() - 1].key.digest == name);
            } else {
                let j = choose|j: int|
                    0 <= j < init.len() && (#[trigger] init[j]).key.digest == name;
                assert(records[j].key.digest == name);
            }
        } else {
            assert forall|j: int| 0 <= j < records.len() implies (#[trigger] records[j]).key.digest
                != name by {
                if j < init.len() {
                    assert(init[j] == records[j]);
                }
            }
        }
    }
}

/// **A reproduced reading changes nothing.** Recording the reading that is
/// held, where no number in it is a NaN, succeeds and keeps the registry.
pub proof fn law_a_reproduced_reading_is_alike(bank: QualityBank)
    requires
        numbered(bank),
    ensures
        reads_alike(bank, bank),
{
}

/// No number in the distribution is a NaN.
pub open spec fn numbered_distribution(d: Option<Distribution>) -> bool {
    d matches Some(x) ==> !x.min.is_nan() && !x.p50.is_nan() && !x.p95.is_nan() && !x.p99.is_nan()
        && !x.max.is_nan()
}

/// No number in the bank is a NaN.
pub open spec fn numbered(b: QualityBank) -> bool {
    &&& !b.logits.kl_p50.is_nan()
    &&& !b.logits.kl_p95.is_nan()
    &&& !b.logits.kl_p99.is_nan()
    &&& !b.logits.max_logit_delta.is_nan()
    &&& numbered_distribution(b.routing.route_margin)
    &&& numbered_distribution(b.routing.route_weight_mass_moved)
    &&& b.min_covered_mass matches Some(m) ==> !m.is_nan()
    &&& numbered_distribution(b.top10_margin)
    &&& numbered_distribution(b.top10_candidate_margin)
    &&& numbered_distribution(b.top10_mass_displaced)
    &&& numbered_distribution(b.top10_rank_displacement)
    &&& numbered_distribution(b.top1_margin)
    &&& numbered_distribution(b.top1_candidate_margin)
    &&& numbered_distribution(b.top1_mass_displaced)
}

proof fn lemma_rows_of_prefix(rows: Seq<(Seq<char>, Recorded)>, n: int)
    requires
        registered(rows),
        0 <= n <= rows.len(),
    ensures
        rows_of(stored(rows).take(n)) == rows.take(n),
    decreases n,
{
    if n > 0 {
        lemma_rows_of_prefix(rows, n - 1);
        let head = rows.take(n - 1);
        let row = rows[n - 1];
        let next = stored(rows).take(n);
        assert(next.drop_last() =~= stored(rows).take(n - 1));
        assert(next.last() == row.1);
        assert(row.1.key.digest == row.0);
        assert forall|i: int| 0 <= i < head.len() implies text_before(
            (#[trigger] head[i]).0,
            row.0,
        ) && head[i].0 != row.0 by {
            assert(head[i] == rows[i]);
            assert(<String as Key>::precedes(rows[i].0, rows[n - 1].0));
            lemma_text_before_strict(row.0, row.0);
        }
        lemma_row_of_is(head, row.0, n - 1);
        lemma_place_of_is::<String, Recorded>(head, row.0, n - 1);
        assert(head.insert(n - 1, row) =~= rows.take(n));
    } else {
        assert(stored(rows).take(0) =~= Seq::<Recorded>::empty());
        assert(rows.take(0) =~= Seq::<(Seq<char>, Recorded)>::empty());
    }
}

/// **A stored registry reads back as it was.** The records of a registry name
/// no experiment twice, and make the registry they came from.
pub proof fn law_a_stored_registry_reads_back(rows: Seq<(Seq<char>, Recorded)>)
    requires
        registered(rows),
    ensures
        rows_of(stored(rows)) == rows,
        forall|i: int| 0 <= i < rows.len() ==> !(#[trigger] repeats_earlier(stored(rows), i)),
{
    lemma_rows_of_prefix(rows, rows.len() as int);
    assert(stored(rows).take(rows.len() as int) =~= stored(rows));
    assert(rows.take(rows.len() as int) =~= rows);
    assert forall|i: int| 0 <= i < rows.len() implies !(#[trigger] repeats_earlier(
        stored(rows),
        i,
    )) by {
        if repeats_earlier(stored(rows), i) {
            let all = stored(rows);
            let j = choose|j: int|
                0 <= j < i && (#[trigger] all[j]).key.digest == all[i].key.digest;
            assert(rows[j].1.key.digest == rows[j].0);
            assert(rows[i].1.key.digest == rows[i].0);
            assert(<String as Key>::precedes(rows[j].0, rows[i].0));
            lemma_text_before_strict(rows[i].0, rows[i].0);
        }
    }
}

/// The numbers of a distribution, least first.
pub open spec fn numbers_of(d: Distribution) -> Seq<Reading> {
    seq![d.min, d.p50, d.p95, d.p99, d.max]
}

/// Both are recorded, with as many observations and the same numbers, or
/// neither is.
pub open spec fn distributions_agree(a: Option<Distribution>, b: Option<Distribution>) -> bool {
    &&& a is Some <==> b is Some
    &&& a is Some ==> (a->0).count == (b->0).count && forall|k: int|
        0 <= k < 5 ==> (#[trigger] numbers_of(a->0)[k]).equals(numbers_of(b->0)[k])
}

/// **Readings are alike where every number of theirs is.** Nothing a bank
/// measured is left out: it takes one number that differs, or one that is no
/// number, for two readings to conflict.
pub proof fn law_when_readings_are_alike(a: QualityBank, b: QualityBank)
    ensures
        reads_alike(a, b) <==> {
            &&& a.positions == b.positions
            &&& a.logits.kl_p50.equals(b.logits.kl_p50)
            &&& a.logits.kl_p95.equals(b.logits.kl_p95)
            &&& a.logits.kl_p99.equals(b.logits.kl_p99)
            &&& a.logits.max_logit_delta.equals(b.logits.max_logit_delta)
            &&& a.logits.top1_flips == b.logits.top1_flips
            &&& a.logits.top10_changes == b.logits.top10_changes
            &&& a.routing.route_flips == b.routing.route_flips
            &&& a.routing.positions_with_route_change == b.routing.positions_with_route_change
            &&& a.routing.layers_with_route_change == b.routing.layers_with_route_change
            &&& a.routing.first_layer_with_route_change == b.routing.first_layer_with_route_change
            &&& distributions_agree(a.routing.route_margin, b.routing.route_margin)
            &&& distributions_agree(
                a.routing.route_weight_mass_moved,
                b.routing.route_weight_mass_moved,
            )
            &&& a.min_covered_mass is Some <==> b.min_covered_mass is Some
            &&& a.min_covered_mass is Some ==> (a.min_covered_mass->0).equals(b.min_covered_mass->0)
            &&& a.activations == b.activations
            &&& distributions_agree(a.top10_margin, b.top10_margin)
            &&& distributions_agree(a.top10_candidate_margin, b.top10_candidate_margin)
            &&& distributions_agree(a.top10_mass_displaced, b.top10_mass_displaced)
            &&& distributions_agree(a.top10_rank_displacement, b.top10_rank_displacement)
            &&& distributions_agree(a.top1_margin, b.top1_margin)
            &&& distributions_agree(a.top1_candidate_margin, b.top1_candidate_margin)
            &&& distributions_agree(a.top1_mass_displaced, b.top1_mass_displaced)
        },
{
    lemma_distributions_agree(a.routing.route_margin, b.routing.route_margin);
    lemma_distributions_agree(
        a.routing.route_weight_mass_moved,
        b.routing.route_weight_mass_moved,
    );
    lemma_distributions_agree(a.top10_margin, b.top10_margin);
    lemma_distributions_agree(a.top10_candidate_margin, b.top10_candidate_margin);
    lemma_distributions_agree(a.top10_mass_displaced, b.top10_mass_displaced);
    lemma_distributions_agree(a.top10_rank_displacement, b.top10_rank_displacement);
    lemma_distributions_agree(a.top1_margin, b.top1_margin);
    lemma_distributions_agree(a.top1_candidate_margin, b.top1_candidate_margin);
    lemma_distributions_agree(a.top1_mass_displaced, b.top1_mass_displaced);
}

proof fn lemma_distributions_agree(a: Option<Distribution>, b: Option<Distribution>)
    ensures
        distributions_equal(a, b) <==> distributions_agree(a, b),
{
    if a is Some && b is Some {
        let x = numbers_of(a->0);
        let y = numbers_of(b->0);
        if distributions_agree(a, b) {
            assert(x[0].equals(y[0]) && x[1].equals(y[1]) && x[2].equals(y[2]) && x[3].equals(y[3])
                && x[4].equals(y[4]));
        }
        if distributions_equal(a, b) {
            assert forall|k: int| 0 <= k < 5 implies (#[trigger] x[k]).equals(y[k]) by {
                if k == 0 {
                } else if k == 1 {
                } else if k == 2 {
                } else if k == 3 {
                } else {
                    assert(k == 4);
                }
            }
        }
    }
}

/// **Readings of one state are found together**: all of them, in the order
/// they stand in, and none of another state's.
pub proof fn law_a_states_readings_are_found(
    a: Seq<(Seq<char>, Recorded)>,
    b: Seq<(Seq<char>, Recorded)>,
    row: (Seq<char>, Recorded),
    state: Seq<char>,
)
    ensures
        records_of(a + b, state) == records_of(a, state) + records_of(b, state),
        records_of(seq![row], state) == (if row.1.key.state == state {
            seq![row.1]
        } else {
            Seq::empty()
        }),
    decreases b.len(),
{
    let none = Seq::<(Seq<char>, Recorded)>::empty();
    let one = seq![row];
    assert(one.drop_last() =~= none);
    assert(records_of(none, state) =~= Seq::<Recorded>::empty());
    assert(one.last() == row);
    assert(records_of(one.drop_last(), state).push(row.1) =~= seq![row.1]);
    if b.len() == 0 {
        assert(a + b =~= a);
        assert(b =~= none);
        assert(records_of(a, state) + records_of(b, state) =~= records_of(a, state));
    } else {
        law_a_states_readings_are_found(a, b.drop_last(), row, state);
        assert((a + b).drop_last() =~= a + b.drop_last());
        assert((a + b).last() == b.last());
        assert(records_of(a + b, state) =~= records_of(a, state) + records_of(b, state));
    }
}

/// **A key keeps what it was made of.**
pub proof fn law_a_key_keeps_its_parts(
    state: Seq<char>,
    bank: Seq<char>,
    scale: EvidenceScale,
    instrument: Seq<char>,
)
    ensures
        keyed(state, bank, scale, instrument).state == state,
        keyed(state, bank, scale, instrument).bank == bank,
        keyed(state, bank, scale, instrument).scale == scale,
        keyed(state, bank, scale, instrument).instrument == instrument,
{
}

/// **What was stored is found under its key.** Records that name different
/// experiments are each found again, and nothing else is.
pub proof fn law_stored_records_are_found(records: Seq<Recorded>, name: Seq<char>)
    requires
        forall|i: int, j: int|
            #![trigger records[i], records[j]]
            0 <= i < j < records.len() ==> records[i].key.digest != records[j].key.digest,
    ensures
        forall|i: int|
            0 <= i < records.len() && (#[trigger] records[i]).key.digest == name ==> lookup(
                rows_of(records),
                name,
            ) == Some(records[i]),
        (forall|i: int| 0 <= i < records.len() ==> (#[trigger] records[i]).key.digest != name)
            ==> lookup(rows_of(records), name) is None,
    decreases records.len(),
{
    if records.len() > 0 {
        let init = records.drop_last();
        let last = records.last();
        assert forall|i: int, j: int|
            #![trigger init[i], init[j]]
            0 <= i < j < init.len() implies init[i].key.digest != init[j].key.digest by {
            assert(init[i] == records[i] && init[j] == records[j]);
        }
        law_stored_records_are_found(init, name);
        lemma_with_row_lookup::<String, Recorded>(rows_of(init), last.key.digest, last, name);
        assert forall|i: int|
            0 <= i < records.len() && (#[trigger] records[i]).key.digest == name implies lookup(
            rows_of(records),
            name,
        ) == Some(records[i]) by {
            if i < init.len() {
                assert(init[i] == records[i]);
                assert(records[records.len() - 1] == last);
            }
        }
        if forall|i: int| 0 <= i < records.len() ==> (#[trigger] records[i]).key.digest != name {
            assert(records[records.len() - 1] == last);
            assert forall|i: int| 0 <= i < init.len() implies (#[trigger] init[i]).key.digest
                != name by {
                assert(init[i] == records[i]);
            }
        }
    } else {
        crate::table::lemma_names(rows_of(records), name);
        crate::table::lemma_row_of(rows_of(records), name);
    }
}

} // verus!

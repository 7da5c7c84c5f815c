//! What a representation state is.
//!
//! A state is identified by three things: what the model is, which surface
//! was enumerated, and what every tensor of it presents. How the index was
//! serialised is none of them.
use crate::canon::{
    clear, free_of, joined, lemma_free_of_joined, lemma_joined_identify, lemma_joined_push,
    lemma_joined_records_identify, lemma_label, lemma_only_nothing_joins_to_nothing, plain, short,
    short_of, FIELD, RECORD, SECTION,
};
use crate::digest::{digest_of, digest_text};
use crate::map::PrecisionMap;
use crate::resolved::{
    canonical_of, resolution, resolve, rule_of, Decision, LayoutAdmission, ResolvedDecisionVector,
};
use crate::source_identity::{Semantic, Source, SourceIdentity};
use crate::surface::{surface_id, Enumerated, TensorSurface};
use vstd::prelude::*;
use vstd::string::*;

verus! {

/// The canonical-form version every state id is computed under.
pub const STATE_ID_VERSION: &'static str = "represent-state-id/v2";

/// The identity of a representation state.
#[derive(Debug, PartialEq, Eq, PartialOrd, Ord, Hash)]
pub struct RepresentationStateId {
    digest: String,
}

impl View for RepresentationStateId {
    type V = Seq<char>;

    closed spec fn view(&self) -> Seq<char> {
        self.digest@
    }
}

impl Clone for RepresentationStateId {
    fn clone(&self) -> (r: Self)
        ensures
            r == *self,
    {
        RepresentationStateId { digest: self.digest.clone() }
    }
}

impl RepresentationStateId {
    /// An id as a record stored it.
    pub fn stored(digest: &str) -> (r: RepresentationStateId)
        ensures
            r@ == digest@,
    {
        RepresentationStateId { digest: digest.to_owned() }
    }

    /// The id as text.
    pub fn as_str(&self) -> (r: &str)
        ensures
            r@ == self@,
    {
        self.digest.as_str()
    }

    /// The first twelve characters, for reports.
    pub fn short(&self) -> (r: &str)
        ensures
            r@ == short_of(self@),
    {
        short(self.digest.as_str())
    }
}

/// What a state id is a digest of.
pub open spec fn state_text(
    model: Semantic,
    surface: Seq<char>,
    decisions: Seq<Decision>,
) -> Seq<char> {
    STATE_ID_VERSION@ + SECTION@ + "model="@ + model.canonical() + SECTION@ + "surface="@ + surface
        + SECTION@ + "decisions="@ + canonical_of(decisions)
}

/// A state, by what it states.
#[verifier::ext_equal]
pub struct Presented {
    pub id: Seq<char>,
    pub model: Source,
    pub surface: Seq<char>,
    pub decisions: Seq<Decision>,
}

/// The state these decisions make over this surface of this model.
pub open spec fn presented(
    model: Source,
    surface: Seq<Enumerated>,
    decisions: Seq<Decision>,
) -> Presented {
    Presented {
        id: digest_of(state_text(model.semantic, surface_id(surface), decisions)),
        model,
        surface: surface_id(surface),
        decisions,
    }
}

impl Presented {
    /// The id is the digest of what the state states.
    pub open spec fn identified(self) -> bool {
        &&& self.id == digest_of(state_text(self.model.semantic, self.surface, self.decisions))
        &&& self.id.len() == 64
    }
}

/// **A state's immutable truth.** It carries no measurement and no history,
/// so two paths that reach the same decisions reach the same state.
#[derive(Debug, PartialEq, Eq)]
pub struct RepresentationState {
    id: RepresentationStateId,
    model: SourceIdentity,
    surface_identity: String,
    decisions: ResolvedDecisionVector,
}

impl View for RepresentationState {
    type V = Presented;

    closed spec fn view(&self) -> Presented {
        Presented {
            id: self.id@,
            model: self.model@,
            surface: self.surface_identity@,
            decisions: self.decisions@,
        }
    }
}

impl RepresentationState {
    /// Every state is identified by what it states.
    #[verifier::type_invariant]
    pub open spec fn is_identified(self) -> bool {
        self@.identified()
    }
}

impl Clone for RepresentationState {
    fn clone(&self) -> (r: Self)
        ensures
            r@ == self@,
    {
        proof {
            use_type_invariant(self);
        }
        RepresentationState {
            id: self.id.clone(),
            model: self.model.clone(),
            surface_identity: self.surface_identity.clone(),
            decisions: self.decisions.clone(),
        }
    }
}

impl RepresentationState {
    /// Resolve a map against a surface and identify the result.
    pub fn resolve<L: LayoutAdmission>(
        model: &SourceIdentity,
        surface: &TensorSurface,
        map: &PrecisionMap,
        layout: &L,
    ) -> (r: RepresentationState)
        ensures
            r@ == presented(model@, surface@, resolution(rule_of(map), surface@, layout)),
            r@.identified(),
    {
        Self::from_decisions(model, surface, resolve(map, surface, layout))
    }

    /// Identify decisions that are already resolved.
    pub fn from_decisions(
        model: &SourceIdentity,
        surface: &TensorSurface,
        decisions: ResolvedDecisionVector,
    ) -> (r: RepresentationState)
        ensures
            r@ == presented(model@, surface@, decisions@),
            r@.identified(),
    {
        let surface_identity: String = surface.identity();
        let input: String = digest_input(model, surface_identity.as_str(), &decisions);
        RepresentationState {
            id: RepresentationStateId { digest: digest_text(input.as_str()) },
            model: model.clone(),
            surface_identity,
            decisions,
        }
    }

    /// The state's identity: the digest of what the state states.
    pub fn id(&self) -> (r: &RepresentationStateId)
        ensures
            r@ == self@.id,
            self@.identified(),
    {
        proof {
            use_type_invariant(self);
        }
        &self.id
    }

    /// The model it is a state of.
    pub fn model(&self) -> (r: &SourceIdentity)
        ensures
            r@ == self@.model,
    {
        &self.model
    }

    /// The identity of the surface it was resolved over.
    pub fn surface_identity(&self) -> (r: &str)
        ensures
            r@ == self@.surface,
    {
        self.surface_identity.as_str()
    }

    /// What it decides.
    pub fn decisions(&self) -> (r: &ResolvedDecisionVector)
        ensures
            r@ == self@.decisions,
    {
        &self.decisions
    }
}

fn digest_input(
    model: &SourceIdentity,
    surface_identity: &str,
    decisions: &ResolvedDecisionVector,
) -> (r: String)
    ensures
        r@ == state_text(model@.semantic, surface_identity@, decisions@),
{
    let mut s: String = STATE_ID_VERSION.to_owned();
    s.append(SECTION);
    s.append("model=");
    s.append(model.semantic.canonical().as_str());
    s.append(SECTION);
    s.append("surface=");
    s.append(surface_identity);
    s.append(SECTION);
    s.append("decisions=");
    s.append(decisions.canonical().as_str());
    s
}

/// **An export is no new state.** Two containers that are the same source
/// have the same states, whatever their indexes' bytes were.
pub proof fn law_export_makes_no_new_state(
    a: Source,
    b: Source,
    surface: Seq<Enumerated>,
    decisions: Seq<Decision>,
)
    requires
        a.semantic == b.semantic,
    ensures
        presented(a, surface, decisions).id == presented(b, surface, decisions).id,
{
}

/// **A state is what it presents.** Decisions that present the same thing for
/// every tensor make one state, whichever facts produced them.
pub proof fn law_presentation_decides_the_state(
    model: Source,
    surface: Seq<Enumerated>,
    a: Seq<Decision>,
    b: Seq<Decision>,
)
    requires
        a.len() == b.len(),
        forall|i: int|
            0 <= i < a.len() ==> (#[trigger] a[i]).pair() == b[i].pair() && a[i].encoding.effective()
                == b[i].encoding.effective(),
    ensures
        presented(model, surface, a).id == presented(model, surface, b).id,
{
    lemma_same_presentation_is_written_alike(a, b);
}

/// Decisions that present the same thing for every tensor are written alike.
pub proof fn lemma_same_presentation_is_written_alike(a: Seq<Decision>, b: Seq<Decision>)
    requires
        a.len() == b.len(),
        forall|i: int|
            0 <= i < a.len() ==> (#[trigger] a[i]).pair() == b[i].pair() && a[i].encoding.effective()
                == b[i].encoding.effective(),
    ensures
        canonical_of(a) == canonical_of(b),
{
    let x = a.map_values(|d: Decision| d.record());
    let y = b.map_values(|d: Decision| d.record());
    assert forall|i: int| 0 <= i < x.len() implies x[i] == y[i] by {
        assert(a[i].pair() == b[i].pair());
    }
    assert(x =~= y);
}

/// No separator stands in what a decision presents.
pub open spec fn decision_is_clear(d: Decision) -> bool {
    clear(d.object) && clear(d.tensor) && clear(d.encoding.effective())
}

/// The fields of a decision's record.
spec fn decision_fields(d: Decision) -> Seq<Seq<char>> {
    seq![d.object].push(d.tensor).push(d.encoding.effective())
}

proof fn lemma_decision_record(d: Decision)
    requires
        decision_is_clear(d),
    ensures
        d.record() == joined(decision_fields(d), FIELD@),
        plain(d.record()),
        d.record().len() > 0,
{
    reveal_strlit("\u{1f}");
    assert(FIELD@ =~= seq!['\u{1f}']);
    lemma_joined_push(seq![d.object], FIELD@, d.tensor);
    lemma_joined_push(seq![d.object].push(d.tensor), FIELD@, d.encoding.effective());
    assert forall|i: int| 0 <= i < decision_fields(d).len() implies free_of(
        #[trigger] decision_fields(d)[i],
        '\u{1e}',
    ) by {}
    lemma_free_of_joined(decision_fields(d), FIELD@, '\u{1e}');
}

/// **A state that presents something else is another state.** Over one model
/// and one surface, decisions whose texts hold no separator are written alike
/// only where every tensor presents the same thing.
pub proof fn law_another_presentation_is_another_state(
    model: Semantic,
    surface: Seq<char>,
    a: Seq<Decision>,
    b: Seq<Decision>,
)
    requires
        forall|i: int| 0 <= i < a.len() ==> decision_is_clear(#[trigger] a[i]),
        forall|i: int| 0 <= i < b.len() ==> decision_is_clear(#[trigger] b[i]),
        state_text(model, surface, a) == state_text(model, surface, b),
    ensures
        a.len() == b.len(),
        forall|i: int|
            0 <= i < a.len() ==> (#[trigger] a[i]).pair() == b[i].pair() && a[i].encoding.effective()
                == b[i].encoding.effective(),
{
    let head = STATE_ID_VERSION@ + SECTION@ + "model="@ + model.canonical() + SECTION@ + "surface="@
        + surface + SECTION@ + "decisions="@;
    lemma_label(head, canonical_of(a), canonical_of(b));
    let u = a.map_values(|d: Decision| d.record());
    let v = b.map_values(|d: Decision| d.record());
    assert forall|i: int| 0 <= i < u.len() implies plain(#[trigger] u[i]) by {
        assert(decision_is_clear(a[i]));
        lemma_decision_record(a[i]);
    }
    assert forall|i: int| 0 <= i < v.len() implies plain(#[trigger] v[i]) by {
        assert(decision_is_clear(b[i]));
        lemma_decision_record(b[i]);
    }
    if u.len() > 0 && v.len() > 0 {
        lemma_joined_records_identify(u, v);
    } else {
        lemma_only_nothing_joins_to_nothing(u);
        lemma_only_nothing_joins_to_nothing(v);
        if u.len() > 0 {
            assert(decision_is_clear(a[0]));
            lemma_decision_record(a[0]);
            assert(u[0] == a[0].record());
        }
        if v.len() > 0 {
            assert(decision_is_clear(b[0]));
            lemma_decision_record(b[0]);
            assert(v[0] == b[0].record());
        }
    }
    assert(u.len() == v.len());
    assert forall|i: int| 0 <= i < a.len() implies (#[trigger] a[i]).pair() == b[i].pair()
        && a[i].encoding.effective() == b[i].encoding.effective() by {
        assert(u[i] == v[i]);
        assert(decision_is_clear(a[i]));
        assert(decision_is_clear(b[i]));
        lemma_decision_record(a[i]);
        lemma_decision_record(b[i]);
        lemma_same_record(a[i], b[i]);
    }
}

proof fn lemma_same_record(a: Decision, b: Decision)
    requires
        decision_is_clear(a),
        decision_is_clear(b),
        joined(decision_fields(a), FIELD@) == joined(decision_fields(b), FIELD@),
    ensures
        a.pair() == b.pair(),
        a.encoding.effective() == b.encoding.effective(),
{
    reveal_strlit("\u{1f}");
    assert(FIELD@ =~= seq!['\u{1f}']);
    let x = decision_fields(a);
    let y = decision_fields(b);
    assert forall|i: int| 0 <= i < x.len() implies free_of(#[trigger] x[i], '\u{1f}') by {}
    assert forall|i: int| 0 <= i < y.len() implies free_of(#[trigger] y[i], '\u{1f}') by {}
    lemma_joined_identify(x, y, FIELD@, '\u{1f}');
    assert(x[0] == y[0] && x[1] == y[1] && x[2] == y[2]);
}

} // verus!

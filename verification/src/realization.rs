//! Physical identity is not search identity.
//!
//! A protected tensor and a layout-refused one present the same bytes, so a
//! measurement of one is a measurement of the other. The moves available from
//! them differ. So a state has two identities: what it presents, which
//! evidence is keyed by, and what it decides, which moves are keyed by.
use crate::canon::{short, short_of, SECTION};
use crate::digest::{digest_of, digest_text, told_apart};
use crate::identity::{
    lemma_same_presentation_is_written_alike, Presented, RepresentationState, RepresentationStateId, STATE_ID_VERSION};
use crate::resolved::{
    canonical_full_of, law_one_changed_fact_is_written, law_protection_and_refusal_present_alike,
    Decided, Decision,
};
use crate::text::{decimal, push_decimal};
use vstd::prelude::*;
use vstd::string::*;

verus! {

/// What every tensor of a state's surface presents, in bytes.
///
/// A saving is a difference of two of these and is never supplied.
#[derive(Debug, Clone, Copy, PartialEq, Eq, PartialOrd, Ord, Structural)]
pub struct LogicalBytes {
    bytes: u64,
}

impl View for LogicalBytes {
    type V = u64;

    closed spec fn view(&self) -> u64 {
        self.bytes
    }
}

/// A byte count as reports write it.
pub open spec fn bytes_text(bytes: u64) -> Seq<char> {
    decimal(bytes as nat) + " B"@
}

/// Whether a difference of byte counts can be held.
pub open spec fn delta_fits(bytes: u64, parent: u64) -> bool {
    i64::MIN <= bytes - parent <= i64::MAX
}

impl LogicalBytes {
    /// A byte count.
    pub fn new(bytes: u64) -> (r: LogicalBytes)
        ensures
            r@ == bytes,
    {
        LogicalBytes { bytes }
    }

    /// The number of bytes.
    pub fn get(self) -> (r: u64)
        ensures
            r == self@,
    {
        self.bytes
    }

    /// Whether two counts are the same.
    pub fn same_bytes(self, other: LogicalBytes) -> (r: bool)
        ensures
            r == (self@ == other@),
    {
        self.bytes == other.bytes
    }

    /// This footprint less `parent`'s: negative where bytes were removed.
    pub fn delta_from(self, parent: LogicalBytes) -> (r: i64)
        requires
            delta_fits(self@, parent@),
        ensures
            r == self@ - parent@,
    {
        if self.bytes >= parent.bytes {
            (self.bytes - parent.bytes) as i64
        } else {
            let less: u64 = parent.bytes - self.bytes;
            if less == 0x8000_0000_0000_0000 {
                i64::MIN
            } else {
                -(less as i64)
            }
        }
    }

    /// The count as reports write it.
    pub fn describe(self) -> (r: String)
        ensures
            r@ == bytes_text(self@),
    {
        let mut s: String = String::new();
        push_decimal(&mut s, self.bytes);
        s.append(" B");
        assert(s@ =~= bytes_text(self@));
        s
    }
}

/// The identity of a realization: every decision's fact, not only what it
/// presents.
#[derive(Debug, PartialEq, Eq, PartialOrd, Ord, Hash)]
pub struct RealizationId {
    digest: String,
}

impl View for RealizationId {
    type V = Seq<char>;

    closed spec fn view(&self) -> Seq<char> {
        self.digest@
    }
}

impl Clone for RealizationId {
    fn clone(&self) -> (r: Self)
        ensures
            r == *self,
    {
        RealizationId { digest: self.digest.clone() }
    }
}

impl RealizationId {
    /// An id as a record stored it.
    pub fn stored(digest: &str) -> (r: RealizationId)
        ensures
            r@ == digest@,
    {
        RealizationId { digest: digest.to_owned() }
    }

    /// The id as text.
    pub fn as_str(&self) -> (r: &str)
        ensures
            r@ == self@,
    {
        self.digest.as_str()
    }

    /// The first twelve characters, for reports.
    pub fn short(&self) -> (r: &str)
        ensures
            r@ == short_of(self@),
    {
        short(self.digest.as_str())
    }
}

/// What a realization id is a digest of.
pub open spec fn realization_text(physical: Seq<char>, decisions: Seq<Decision>) -> Seq<char> {
    STATE_ID_VERSION@ + SECTION@ + "realization"@ + SECTION@ + "physical="@ + physical + SECTION@
        + "decisions="@ + canonical_full_of(decisions)
}

/// A realization, by what it states.
pub struct Realized {
    pub realization: Seq<char>,
    pub state: Presented,
    pub bytes: u64,
}

/// A state and its price, identified as a realization.
pub open spec fn realized(state: Presented, bytes: u64) -> Realized {
    Realized {
        realization: digest_of(realization_text(state.id, state.decisions)),
        state,
        bytes,
    }
}

impl Realized {
    /// Both ids are digests of what they identify.
    pub open spec fn identified(self) -> bool {
        &&& self.state.identified()
        &&& self.realization == digest_of(realization_text(self.state.id, self.state.decisions))
        &&& self.realization.len() == 64
    }
}

/// A resolved state, its two identities, and what it costs.
#[derive(Debug, PartialEq, Eq)]
pub struct ResolvedState {
    realization_id: RealizationId,
    state: RepresentationState,
    logical_bytes: LogicalBytes,
}

impl View for ResolvedState {
    type V = Realized;

    closed spec fn view(&self) -> Realized {
        Realized {
            realization: self.realization_id@,
            state: self.state@,
            bytes: self.logical_bytes@,
        }
    }
}

impl ResolvedState {
    /// Every realization is identified by what it states.
    #[verifier::type_invariant]
    pub open spec fn is_identified(self) -> bool {
        self@.identified()
    }
}

impl Clone for ResolvedState {
    fn clone(&self) -> (r: Self)
        ensures
            r@ == self@,
    {
        proof {
            use_type_invariant(self);
        }
        ResolvedState {
            realization_id: self.realization_id.clone(),
            state: self.state.clone(),
            logical_bytes: self.logical_bytes,
        }
    }
}

impl ResolvedState {
    /// Identify a resolved state as a realization.
    pub fn new(state: RepresentationState, logical_bytes: LogicalBytes) -> (r: ResolvedState)
        ensures
            r@ == realized(state@, logical_bytes@),
            r@.identified(),
    {
        let mut s: String = STATE_ID_VERSION.to_owned();
        s.append(SECTION);
        s.append("realization");
        s.append(SECTION);
        s.append("physical=");
        s.append(state.id().as_str());
        s.append(SECTION);
        s.append("decisions=");
        s.append(state.decisions().canonical_full().as_str());
        ResolvedState {
            realization_id: RealizationId { digest: digest_text(s.as_str()) },
            state,
            logical_bytes,
        }
    }

    /// What it presents: the identity evidence is keyed by.
    pub fn physical_id(&self) -> (r: &RepresentationStateId)
        ensures
            r@ == self@.state.id,
    {
        self.state.id()
    }

    /// What it decides: the identity moves are keyed by.
    pub fn realization_id(&self) -> (r: &RealizationId)
        ensures
            r@ == self@.realization,
            self@.identified(),
    {
        proof {
            use_type_invariant(self);
        }
        &self.realization_id
    }

    /// The resolved state.
    pub fn state(&self) -> (r: &RepresentationState)
        ensures
            r@ == self@.state,
    {
        &self.state
    }

    /// What it costs.
    pub fn logical_bytes(&self) -> (r: LogicalBytes)
        ensures
            r@ == self@.bytes,
    {
        self.logical_bytes
    }
}

/// **The same realization is the same physical state.** What two realization
/// ids are digests of agrees only where the physical ids do.
pub proof fn law_realization_refines_state(
    a: Seq<char>,
    a_decisions: Seq<Decision>,
    b: Seq<char>,
    b_decisions: Seq<Decision>,
)
    requires
        a.len() == b.len(),
        realization_text(a, a_decisions) == realization_text(b, b_decisions),
    ensures
        a == b,
        canonical_full_of(a_decisions) == canonical_full_of(b_decisions),
{
    let head = STATE_ID_VERSION@ + SECTION@ + "realization"@ + SECTION@ + "physical="@;
    let tail = SECTION@ + "decisions="@;
    let x = realization_text(a, a_decisions);
    let y = realization_text(b, b_decisions);
    let n = head.len() as int;
    let m = n + a.len();
    assert(x.subrange(n, m) =~= a);
    assert(y.subrange(n, m) =~= b);
    let k = m + tail.len();
    assert(x =~= head + a + SECTION@ + "decisions="@ + canonical_full_of(a_decisions));
    assert(y =~= head + b + SECTION@ + "decisions="@ + canonical_full_of(b_decisions));
    assert(x.skip(k) =~= canonical_full_of(a_decisions));
    assert(y.skip(k) =~= canonical_full_of(b_decisions));
}

/// **One realization is one physical state.** Where the digest tells apart
/// what two realizations are identified by, one realization id means one
/// physical id and the same decisions as written in full.
pub proof fn law_one_realization_is_one_state(a: Realized, b: Realized)
    requires
        a.identified(),
        b.identified(),
        told_apart(
            realization_text(a.state.id, a.state.decisions),
            realization_text(b.state.id, b.state.decisions),
        ),
        a.realization == b.realization,
    ensures
        a.state.id == b.state.id,
        canonical_full_of(a.state.decisions) == canonical_full_of(b.state.decisions),
{
    law_realization_refines_state(
        a.state.id,
        a.state.decisions,
        b.state.id,
        b.state.decisions,
    );
}

/// **What a state costs is no part of either identity.**
pub proof fn law_a_price_is_no_part_of_identity(state: Presented, one: u64, other: u64)
    ensures
        realized(state, one).realization == realized(state, other).realization,
        realized(state, one).state.id == realized(state, other).state.id,
{
}

/// **A protected tensor and a refused one are one state and two
/// realizations.** Over one model and one surface, states that differ only in
/// one tensor, held at source by the map in one and by its layout in the
/// other, have one physical id; their realization ids differ where the digest
/// tells apart what they are identified by.
pub proof fn law_protection_and_refusal_are_two_realizations(
    a: Realized,
    b: Realized,
    k: int,
    refused: Seq<char>,
)
    requires
        a.identified(),
        b.identified(),
        a.state.model.semantic == b.state.model.semantic,
        a.state.surface == b.state.surface,
        a.state.decisions.len() == b.state.decisions.len(),
        0 <= k < a.state.decisions.len(),
        forall|i: int|
            0 <= i < a.state.decisions.len() && i != k ==> #[trigger] a.state.decisions[i]
                == b.state.decisions[i],
        a.state.decisions[k].pair() == b.state.decisions[k].pair(),
        a.state.decisions[k].encoding is Source,
        b.state.decisions[k].encoding == Decided::LayoutRefused(refused),
        told_apart(
            realization_text(a.state.id, a.state.decisions),
            realization_text(b.state.id, b.state.decisions),
        ),
    ensures
        a.state.id == b.state.id,
        a.realization != b.realization,
{
    let x = a.state.decisions;
    let y = b.state.decisions;
    assert forall|i: int| 0 <= i < x.len() implies (#[trigger] x[i]).pair() == y[i].pair()
        && x[i].encoding.effective() == y[i].encoding.effective() by {
        if i != k {
            assert(x[i] == y[i]);
        }
    }
    lemma_same_presentation_is_written_alike(x, y);
    law_protection_and_refusal_present_alike(x[k].object, x[k].tensor, refused);
    law_one_changed_fact_is_written(x, y, k);
    if a.realization == b.realization {
        law_one_realization_is_one_state(a, b);
    }
}

} // verus!

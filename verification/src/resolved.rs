//! What a container will present, tensor by tensor.
//!
//! A map decides what each tensor should be; a storage layout can refuse a
//! tensor the map would compile, and then the source bytes stay. A tensor
//! held back by policy and one held back by its layout present the same
//! bytes and are different facts.
use crate::canon::{
    clear, free_of, joined, lemma_free_of_joined, lemma_joined_identify, lemma_joined_push,
    lemma_joined_records_identify, lemma_joined_tells_one_part, lemma_label,
    lemma_only_nothing_joins_to_nothing, plain, FIELD, RECORD,
};
use crate::error::VindexError;
use crate::map::{Precision, PrecisionMap};
use crate::nvfp4_pack::{law_a_pack_holds_whole_groups, packable, PackLayout, DTYPE_NVFP4};
use crate::policy::Role;
use crate::ranking::{ranked, sort_by_rank, Ranked};
use crate::surface::{pair_before, Enumerated, SurfaceTensor, TensorIdentity, TensorSurface};
use crate::table::Key;
use crate::text::{before, same};
use vstd::prelude::*;
use vstd::string::*;

verus! {

/// How source precision is written, whatever the source's own encoding is.
pub const SOURCE_PRECISION: &'static str = "source";

/// The layout policy of the packs this library derives.
pub const PACK_LAYOUT_ADMISSION: &'static str = "pack-layout-admission/v1";

/// The layout policy that refuses nothing.
pub const NO_LAYOUT_CONSTRAINT: &'static str = "no-layout-constraint/v1";

/// What one tensor ends up represented as.
#[derive(Debug, PartialEq, Eq)]
pub enum ResolvedEncoding {
    /// The map compiles it and the layout can hold it.
    Compiled(String),
    /// The map holds it at source precision.
    Source,
    /// The map compiles it and the layout cannot hold it.
    LayoutRefused { encoding: String },
}

/// What one tensor ends up represented as, by its texts.
pub enum Decided {
    Compiled(Seq<char>),
    Source,
    LayoutRefused(Seq<char>),
}

impl Decided {
    /// What is presented.
    pub open spec fn effective(self) -> Seq<char> {
        match self {
            Decided::Compiled(e) => e,
            _ => SOURCE_PRECISION@,
        }
    }

    /// Which fact decided it.
    pub open spec fn fact(self) -> Seq<char> {
        match self {
            Decided::Compiled(_) => "compiled"@,
            Decided::Source => "source"@,
            Decided::LayoutRefused(_) => "layout-refused"@,
        }
    }

    /// Which fact decided it, with the encoding a layout refused.
    pub open spec fn full_fact(self) -> Seq<char> {
        match self {
            Decided::LayoutRefused(e) => self.fact() + FIELD@ + e,
            _ => self.fact(),
        }
    }
}

impl View for ResolvedEncoding {
    type V = Decided;

    open spec fn view(&self) -> Decided {
        match self {
            ResolvedEncoding::Compiled(e) => Decided::Compiled(e@),
            ResolvedEncoding::Source => Decided::Source,
            ResolvedEncoding::LayoutRefused { encoding } => Decided::LayoutRefused(encoding@),
        }
    }
}

impl Clone for ResolvedEncoding {
    fn clone(&self) -> (r: Self)
        ensures
            r == *self,
    {
        match self {
            ResolvedEncoding::Compiled(e) => ResolvedEncoding::Compiled(e.clone()),
            ResolvedEncoding::Source => ResolvedEncoding::Source,
            ResolvedEncoding::LayoutRefused { encoding } => ResolvedEncoding::LayoutRefused {
                encoding: encoding.clone(),
            },
        }
    }
}

impl ResolvedEncoding {
    /// **What is presented.** A protected tensor and a refused one are the
    /// same bytes.
    pub fn effective(&self) -> (r: &str)
        ensures
            r@ == self@.effective(),
    {
        match self {
            ResolvedEncoding::Compiled(e) => e.as_str(),
            ResolvedEncoding::Source => SOURCE_PRECISION,
            ResolvedEncoding::LayoutRefused { encoding } => SOURCE_PRECISION,
        }
    }

    /// Whether it is compiled.
    pub fn is_compiled(&self) -> (r: bool)
        ensures
            r == (self@ is Compiled),
    {
        matches!(self, ResolvedEncoding::Compiled(_))
    }

    /// Which fact decided it, as distinct from what is presented.
    pub fn fact(&self) -> (r: &'static str)
        ensures
            r@ == self@.fact(),
    {
        match self {
            ResolvedEncoding::Compiled(_) => "compiled",
            ResolvedEncoding::Source => "source",
            ResolvedEncoding::LayoutRefused { encoding } => "layout-refused",
        }
    }
}

/// Whether an encoding's storage layout can hold a tensor.
pub trait LayoutAdmission {
    /// Whether the layout holds the tensor.
    spec fn takes(&self, encoding: Seq<char>, tensor: Enumerated) -> bool;

    /// `false` only where the layout is known to refuse the tensor.
    fn admits(&self, encoding: &str, tensor: &SurfaceTensor) -> (r: bool)
        ensures
            r == self.takes(encoding@, tensor@),
    ;
}

/// Refuses nothing.
#[derive(Debug, Clone, Copy, PartialEq, Eq, Structural)]
pub struct NoLayoutConstraint;

impl Default for NoLayoutConstraint {
    fn default() -> (r: Self)
        ensures
            r == NoLayoutConstraint,
    {
        NoLayoutConstraint
    }
}

impl LayoutAdmission for NoLayoutConstraint {
    open spec fn takes(&self, encoding: Seq<char>, tensor: Enumerated) -> bool {
        true
    }

    fn admits(&self, encoding: &str, tensor: &SurfaceTensor) -> (r: bool) {
        true
    }
}

/// Refuses a tensor an NVFP4 pack cannot hold, and nothing else.
#[derive(Debug, Clone, Copy, PartialEq, Eq, Structural)]
pub struct PackLayoutAdmission;

impl Default for PackLayoutAdmission {
    fn default() -> (r: Self)
        ensures
            r == PackLayoutAdmission,
    {
        PackLayoutAdmission
    }
}

impl LayoutAdmission for PackLayoutAdmission {
    open spec fn takes(&self, encoding: Seq<char>, tensor: Enumerated) -> bool {
        encoding != DTYPE_NVFP4@ || packable(tensor.shape)
    }

    fn admits(&self, encoding: &str, tensor: &SurfaceTensor) -> (r: bool) {
        if !same(encoding, DTYPE_NVFP4) {
            return true;
        }
        match PackLayout::derive(tensor.shape.as_slice(), tensor.tensor.as_str()) {
            Ok(_) => true,
            Err(_) => false,
        }
    }
}

/// The layout policies this library implements.
#[derive(Debug, Clone, Copy, PartialEq, Eq, Structural)]
pub enum LayoutPolicy {
    Pack,
    Unconstrained,
}

impl LayoutAdmission for LayoutPolicy {
    open spec fn takes(&self, encoding: Seq<char>, tensor: Enumerated) -> bool {
        match self {
            LayoutPolicy::Pack => PackLayoutAdmission.takes(encoding, tensor),
            LayoutPolicy::Unconstrained => true,
        }
    }

    fn admits(&self, encoding: &str, tensor: &SurfaceTensor) -> (r: bool) {
        match self {
            LayoutPolicy::Pack => PackLayoutAdmission.admits(encoding, tensor),
            LayoutPolicy::Unconstrained => NoLayoutConstraint.admits(encoding, tensor),
        }
    }
}

/// The refusal of an unknown layout policy.
pub open spec fn unknown_layout_text(id: Seq<char>) -> Seq<char> {
    "the record was built under layout policy `"@ + id
        + "`, which this build does not implement — resolving it as any other policy would re-answer every layout refusal the stored states were resolved under"@
}

/// The layout policy a record names. An unknown name is refused, never
/// defaulted.
pub fn layout_admission(id: &str) -> (r: Result<LayoutPolicy, VindexError>)
    ensures
        r matches Ok(p) ==> (match p {
            LayoutPolicy::Pack => id@ == PACK_LAYOUT_ADMISSION@,
            LayoutPolicy::Unconstrained => id@ == NO_LAYOUT_CONSTRAINT@,
        }),
        r matches Err(e) ==> e.text() == unknown_layout_text(id@),
        r is Ok <==> id@ == PACK_LAYOUT_ADMISSION@ || id@ == NO_LAYOUT_CONSTRAINT@,
{
    if same(id, PACK_LAYOUT_ADMISSION) {
        Ok(LayoutPolicy::Pack)
    } else if same(id, NO_LAYOUT_CONSTRAINT) {
        Ok(LayoutPolicy::Unconstrained)
    } else {
        let mut s: String = "the record was built under layout policy `".to_owned();
        s.append(id);
        s.append(
            "`, which this build does not implement — resolving it as any other policy would re-answer every layout refusal the stored states were resolved under",
        );
        Err(VindexError::Parse(s))
    }
}

/// One tensor's resolved decision.
#[derive(Debug, PartialEq, Eq)]
pub struct ResolvedDecision {
    pub object: String,
    pub tensor: String,
    pub encoding: ResolvedEncoding,
}

/// One tensor's resolved decision, by its texts.
pub struct Decision {
    pub object: Seq<char>,
    pub tensor: Seq<char>,
    pub encoding: Decided,
}

impl Decision {
    /// The tensor decided about.
    pub open spec fn pair(self) -> (Seq<char>, Seq<char>) {
        (self.object, self.tensor)
    }

    /// The record a state's identity reads: the tensor and what it presents.
    pub open spec fn record(self) -> Seq<char> {
        self.object + FIELD@ + self.tensor + FIELD@ + self.encoding.effective()
    }

    /// The record a realization's identity reads: the fact is kept, and the
    /// encoding a layout refused with it.
    pub open spec fn full_record(self) -> Seq<char> {
        self.record() + FIELD@ + self.encoding.full_fact()
    }
}

impl View for ResolvedDecision {
    type V = Decision;

    open spec fn view(&self) -> Decision {
        Decision { object: self.object@, tensor: self.tensor@, encoding: self.encoding@ }
    }
}

impl Clone for ResolvedDecision {
    fn clone(&self) -> (r: Self)
        ensures
            r == *self,
    {
        ResolvedDecision {
            object: self.object.clone(),
            tensor: self.tensor.clone(),
            encoding: self.encoding.clone(),
        }
    }
}

impl ResolvedDecision {
    fn push_canonical(&self, s: &mut String)
        ensures
            final(s)@ == old(s)@ + self@.record(),
    {
        s.append(self.object.as_str());
        s.append(FIELD);
        s.append(self.tensor.as_str());
        s.append(FIELD);
        s.append(self.encoding.effective());
        assert(s@ =~= old(s)@ + self@.record());
    }

    fn push_canonical_full(&self, s: &mut String)
        ensures
            final(s)@ == old(s)@ + self@.full_record(),
    {
        self.push_canonical(s);
        s.append(FIELD);
        s.append(self.encoding.fact());
        if let ResolvedEncoding::LayoutRefused { encoding } = &self.encoding {
            s.append(FIELD);
            s.append(encoding.as_str());
        }
        assert(s@ =~= old(s)@ + self@.full_record());
    }
}

impl Ranked for ResolvedDecision {
    open spec fn ahead(&self, other: &Self) -> bool {
        pair_before(self@.pair(), other@.pair())
    }

    proof fn asymmetric(a: &Self, b: &Self) {
        TensorIdentity::strict(a@.pair(), b@.pair());
    }

    proof fn splits(a: &Self, b: &Self, c: &Self) {
        if a.ahead(c) && !a.ahead(b) {
            TensorIdentity::total(a@.pair(), b@.pair());
            if b.ahead(a) {
                TensorIdentity::transitive(b@.pair(), a@.pair(), c@.pair());
            }
        }
    }

    fn ranks_ahead(&self, other: &Self) -> (r: bool) {
        before(self.object.as_str(), other.object.as_str()) || (same(
            self.object.as_str(),
            other.object.as_str(),
        ) && before(self.tensor.as_str(), other.tensor.as_str()))
    }
}

/// The decisions, by their texts.
pub open spec fn decided(s: Seq<ResolvedDecision>) -> Seq<Decision> {
    s.map_values(|d: ResolvedDecision| d@)
}

/// The form a state's identity reads.
pub open spec fn canonical_of(s: Seq<Decision>) -> Seq<char> {
    joined(s.map_values(|d: Decision| d.record()), RECORD@)
}

/// The form a realization's identity reads.
pub open spec fn canonical_full_of(s: Seq<Decision>) -> Seq<char> {
    joined(s.map_values(|d: Decision| d.full_record()), RECORD@)
}

/// The decisions name every surface tensor, each once and in order.
pub open spec fn names_surface(s: Seq<Decision>, surface: Seq<Enumerated>) -> bool {
    &&& s.len() == surface.len()
    &&& forall|i: int| 0 <= i < s.len() ==> (#[trigger] s[i]).pair() == surface[i].pair()
}

/// No compiled decision is without an encoding of its own.
pub open spec fn encodings_stand(s: Seq<Decision>) -> bool {
    forall|i: int|
        0 <= i < s.len() ==> ((#[trigger] s[i]).encoding matches Decided::Compiled(e) ==> e.len() > 0
            && e != SOURCE_PRECISION@)
}

/// What the first decision about a tensor is.
pub open spec fn decision_about(s: Seq<Decision>, pair: (Seq<char>, Seq<char>)) -> Option<Decided>
    decreases s.len(),
{
    if s.len() == 0 {
        None
    } else if s[0].pair() == pair {
        Some(s[0].encoding)
    } else {
        decision_about(s.skip(1), pair)
    }
}

/// How many decisions compile.
pub open spec fn compiled_among(s: Seq<Decision>) -> nat
    decreases s.len(),
{
    if s.len() == 0 {
        0
    } else {
        compiled_among(s.drop_last()) + (if s.last().encoding is Compiled {
            1nat
        } else {
            0nat
        })
    }
}

/// The decisions a layout refused, in order.
pub open spec fn refused_among(s: Seq<Decision>) -> Seq<Decision>
    decreases s.len(),
{
    if s.len() == 0 {
        Seq::empty()
    } else if s.last().encoding is LayoutRefused {
        refused_among(s.drop_last()).push(s.last())
    } else {
        refused_among(s.drop_last())
    }
}

/// **One decision per surface tensor, in surface order.**
#[derive(Debug, PartialEq, Eq)]
pub struct ResolvedDecisionVector {
    decisions: Vec<ResolvedDecision>,
}

impl View for ResolvedDecisionVector {
    type V = Seq<Decision>;

    closed spec fn view(&self) -> Seq<Decision> {
        decided(self.decisions@)
    }
}

impl Default for ResolvedDecisionVector {
    fn default() -> (r: Self)
        ensures
            r@ == Seq::<Decision>::empty(),
    {
        let r = ResolvedDecisionVector { decisions: Vec::new() };
        assert(r@ =~= Seq::<Decision>::empty());
        r
    }
}

impl Clone for ResolvedDecisionVector {
    fn clone(&self) -> (r: Self)
        ensures
            r@ == self@,
    {
        let mut decisions: Vec<ResolvedDecision> = Vec::new();
        let mut i: usize = 0;
        while i < self.decisions.len()
            invariant
                i <= self.decisions@.len(),
                decisions@ == self.decisions@.take(i as int),
            decreases self.decisions@.len() - i,
        {
            decisions.push(self.decisions[i].clone());
            assert(decisions@ =~= self.decisions@.take(i as int + 1));
            i = i + 1;
        }
        assert(decisions@ =~= self.decisions@);
        ResolvedDecisionVector { decisions }
    }
}

impl ResolvedDecisionVector {
    /// Take decisions produced elsewhere, refusing any that do not name
    /// every surface tensor exactly once.
    pub fn from_entries(
        surface: &TensorSurface,
        decisions: Vec<ResolvedDecision>,
    ) -> (r: Result<ResolvedDecisionVector, VindexError>)
        ensures
            ({
                let sorted = decided(ranked(decisions@));
                match r {
                    Ok(v) => names_surface(sorted, surface@) && encodings_stand(sorted) && v@
                        == sorted,
                    Err(e) => if !names_surface(sorted, surface@) {
                        e.text()
                            == "effective decisions must name every surface tensor exactly once"@
                    } else {
                        !encodings_stand(sorted) && e.text()
                            == "compiled decisions require a non-source encoding"@
                    },
                }
            }),
    {
        let mut sorted: Vec<ResolvedDecision> = decisions;
        sort_by_rank(&mut sorted);
        let ghost shown = decided(sorted@);
        let entries: &Vec<SurfaceTensor> = surface.entries();
        let mut complete: bool = sorted.len() == entries.len();
        let mut i: usize = 0;
        while complete && i < sorted.len()
            invariant
                i <= sorted@.len(),
                crate::surface::stated(entries@) == surface@,
                shown == decided(sorted@),
                complete ==> sorted@.len() == entries@.len(),
                complete ==> forall|k: int|
                    0 <= k < i ==> (#[trigger] shown[k]).pair() == surface@[k].pair(),
                !complete ==> !names_surface(shown, surface@),
            decreases sorted@.len() - i,
        {
            assert(shown[i as int] == sorted@[i as int]@);
            assert(surface@[i as int] == entries@[i as int]@);
            if !same(sorted[i].object.as_str(), entries[i].object.as_str()) || !same(
                sorted[i].tensor.as_str(),
                entries[i].tensor.as_str(),
            ) {
                complete = false;
            }
            i = i + 1;
        }
        if !complete {
            return Err(
                VindexError::Parse(
                    "effective decisions must name every surface tensor exactly once".to_owned(),
                ),
            );
        }
        let mut j: usize = 0;
        while j < sorted.len()
            invariant
                j <= sorted@.len(),
                shown == decided(sorted@),
                shown == decided(ranked(decisions@)),
                names_surface(shown, surface@),
                forall|k: int|
                    0 <= k < j ==> ((#[trigger] shown[k]).encoding matches Decided::Compiled(e)
                        ==> e.len() > 0 && e != SOURCE_PRECISION@),
            decreases sorted@.len() - j,
        {
            assert(shown[j as int] == sorted@[j as int]@);
            if let ResolvedEncoding::Compiled(e) = &sorted[j].encoding {
                if e.as_str().unicode_len() == 0 || same(e.as_str(), SOURCE_PRECISION) {
                    assert(!encodings_stand(shown));
                    return Err(
                        VindexError::Parse(
                            "compiled decisions require a non-source encoding".to_owned(),
                        ),
                    );
                }
            }
            j = j + 1;
        }
        Ok(ResolvedDecisionVector { decisions: sorted })
    }

    /// The decisions, in surface order.
    pub fn decisions(&self) -> (r: &Vec<ResolvedDecision>)
        ensures
            decided(r@) == self@,
    {
        &self.decisions
    }

    /// How many tensors are decided.
    pub fn len(&self) -> (r: usize)
        ensures
            r == self@.len(),
    {
        self.decisions.len()
    }

    /// Whether nothing is decided.
    pub fn is_empty(&self) -> (r: bool)
        ensures
            r == (self@.len() == 0),
    {
        self.decisions.len() == 0
    }

    /// What is decided about a tensor.
    pub fn get(&self, object: &str, tensor: &str) -> (r: Option<&ResolvedEncoding>)
        ensures
            r matches Some(e) ==> decision_about(self@, (object@, tensor@)) == Some(e@),
            r is None ==> decision_about(self@, (object@, tensor@)) is None,
    {
        let mut i: usize = 0;
        assert(self@.skip(0) =~= self@);
        while i < self.decisions.len()
            invariant
                i <= self.decisions@.len(),
                self@.len() == self.decisions@.len(),
                decision_about(self@, (object@, tensor@)) == decision_about(
                    self@.skip(i as int),
                    (object@, tensor@),
                ),
            decreases self.decisions@.len() - i,
        {
            let ghost rest = self@.skip(i as int);
            assert(rest[0] == self.decisions@[i as int]@);
            assert(rest.skip(1) =~= self@.skip(i as int + 1));
            if same(self.decisions[i].object.as_str(), object) && same(
                self.decisions[i].tensor.as_str(),
                tensor,
            ) {
                return Some(&self.decisions[i].encoding);
            }
            i = i + 1;
        }
        None
    }

    /// How many tensors are compiled.
    pub fn compiled(&self) -> (r: usize)
        ensures
            r == compiled_among(self@),
    {
        let mut n: usize = 0;
        let mut i: usize = 0;
        assert(self@.take(0) =~= Seq::<Decision>::empty());
        while i < self.decisions.len()
            invariant
                i <= self.decisions@.len(),
                n <= i,
                self@.len() == self.decisions@.len(),
                n == compiled_among(self@.take(i as int)),
            decreases self.decisions@.len() - i,
        {
            let ghost next = self@.take(i as int + 1);
            assert(next.drop_last() =~= self@.take(i as int));
            assert(next.last() == self.decisions@[i as int]@);
            if self.decisions[i].encoding.is_compiled() {
                n = n + 1;
            }
            i = i + 1;
        }
        assert(self@.take(self@.len() as int) =~= self@);
        n
    }

    /// The tensors the map wanted and the layout would not take.
    pub fn layout_refused(&self) -> (r: Vec<&ResolvedDecision>)
        ensures
            r@.map_values(|d: &ResolvedDecision| d@) == refused_among(self@),
    {
        let mut v: Vec<&ResolvedDecision> = Vec::new();
        let mut i: usize = 0;
        assert(self@.take(0) =~= Seq::<Decision>::empty());
        assert(v@.map_values(|d: &ResolvedDecision| d@) =~= Seq::<Decision>::empty());
        while i < self.decisions.len()
            invariant
                i <= self.decisions@.len(),
                self@.len() == self.decisions@.len(),
                v@.map_values(|d: &ResolvedDecision| d@) == refused_among(self@.take(i as int)),
            decreases self.decisions@.len() - i,
        {
            let ghost next = self@.take(i as int + 1);
            let ghost held = v@;
            assert(next.drop_last() =~= self@.take(i as int));
            assert(next.last() == self.decisions@[i as int]@);
            if matches!(self.decisions[i].encoding, ResolvedEncoding::LayoutRefused { .. }) {
                v.push(&self.decisions[i]);
                assert(v@.map_values(|d: &ResolvedDecision| d@) =~= held.map_values(
                    |d: &ResolvedDecision| d@,
                ).push(self.decisions@[i as int]@));
            }
            i = i + 1;
        }
        assert(self@.take(self@.len() as int) =~= self@);
        v
    }

    /// The form a state's identity reads: what is presented.
    pub fn canonical(&self) -> (r: String)
        ensures
            r@ == canonical_of(self@),
    {
        let mut s: String = String::new();
        let mut i: usize = 0;
        let ghost parts = self@.map_values(|d: Decision| d.record());
        assert(parts.take(0) =~= Seq::<Seq<char>>::empty());
        while i < self.decisions.len()
            invariant
                i <= self.decisions@.len(),
                parts == self@.map_values(|d: Decision| d.record()),
                parts.len() == self.decisions@.len(),
                s@ == joined(parts.take(i as int), RECORD@),
            decreases self.decisions@.len() - i,
        {
            let ghost done = parts.take(i as int);
            if i > 0 {
                s.append(RECORD);
            }
            self.decisions[i].push_canonical(&mut s);
            proof {
                assert(parts[i as int] == self.decisions@[i as int]@.record());
                lemma_joined_push(done, RECORD@, parts[i as int]);
                assert(done.push(parts[i as int]) =~= parts.take(i as int + 1));
                assert(s@ =~= joined(parts.take(i as int + 1), RECORD@));
            }
            i = i + 1;
        }
        assert(parts.take(parts.len() as int) =~= parts);
        s
    }

    /// The form a realization's identity reads: every fact kept.
    pub fn canonical_full(&self) -> (r: String)
        ensures
            r@ == canonical_full_of(self@),
    {
        let mut s: String = String::new();
        let mut i: usize = 0;
        let ghost parts = self@.map_values(|d: Decision| d.full_record());
        assert(parts.take(0) =~= Seq::<Seq<char>>::empty());
        while i < self.decisions.len()
            invariant
                i <= self.decisions@.len(),
                parts == self@.map_values(|d: Decision| d.full_record()),
                parts.len() == self.decisions@.len(),
                s@ == joined(parts.take(i as int), RECORD@),
            decreases self.decisions@.len() - i,
        {
            let ghost done = parts.take(i as int);
            if i > 0 {
                s.append(RECORD);
            }
            self.decisions[i].push_canonical_full(&mut s);
            proof {
                assert(parts[i as int] == self.decisions@[i as int]@.full_record());
                lemma_joined_push(done, RECORD@, parts[i as int]);
                assert(done.push(parts[i as int]) =~= parts.take(i as int + 1));
                assert(s@ =~= joined(parts.take(i as int + 1), RECORD@));
            }
            i = i + 1;
        }
        assert(parts.take(parts.len() as int) =~= parts);
        s
    }
}

/// What becomes of a tensor a rule wants at `wanted`.
pub open spec fn outcome<L: LayoutAdmission>(
    layout: &L,
    wanted: Option<Seq<char>>,
    tensor: Enumerated,
) -> Decided {
    match wanted {
        None => Decided::Source,
        Some(e) => if layout.takes(e, tensor) {
            Decided::Compiled(e)
        } else {
            Decided::LayoutRefused(e)
        },
    }
}

/// **What a rule resolves to over a surface**: role first, then exceptions,
/// then the layout.
pub open spec fn resolution<L: LayoutAdmission>(
    rule: spec_fn(Role, Seq<char>) -> Option<Seq<char>>,
    surface: Seq<Enumerated>,
    layout: &L,
) -> Seq<Decision> {
    surface.map_values(
        |t: Enumerated|
            Decision {
                object: t.object,
                tensor: t.tensor,
                encoding: outcome(layout, rule(t.role, t.tensor), t),
            },
    )
}

/// The rule a map states.
pub open spec fn rule_of(map: &PrecisionMap) -> spec_fn(Role, Seq<char>) -> Option<Seq<char>> {
    |role: Role, tensor: Seq<char>| map.decides(role, tensor)
}

/// Resolve a map against a surface.
pub fn resolve<L: LayoutAdmission>(
    map: &PrecisionMap,
    surface: &TensorSurface,
    layout: &L,
) -> (r: ResolvedDecisionVector)
    ensures
        r@ == resolution(rule_of(map), surface@, layout),
        names_surface(r@, surface@),
{
    let entries: &Vec<SurfaceTensor> = surface.entries();
    let mut decisions: Vec<ResolvedDecision> = Vec::new();
    let ghost all = resolution(rule_of(map), surface@, layout);
    let mut i: usize = 0;
    while i < entries.len()
        invariant
            i <= entries@.len(),
            crate::surface::stated(entries@) == surface@,
            all == resolution(rule_of(map), surface@, layout),
            decided(decisions@) == all.take(i as int),
        decreases entries@.len() - i,
    {
        let t: &SurfaceTensor = &entries[i];
        assert(surface@[i as int] == t@);
        let encoding: ResolvedEncoding = match map.resolve(t.role, t.tensor.as_str()) {
            Precision::Source => ResolvedEncoding::Source,
            Precision::Compiled(enc) => if layout.admits(enc, t) {
                ResolvedEncoding::Compiled(enc.to_owned())
            } else {
                ResolvedEncoding::LayoutRefused { encoding: enc.to_owned() }
            },
        };
        let ghost held = decisions@;
        let decision = ResolvedDecision {
            object: t.object.clone(),
            tensor: t.tensor.clone(),
            encoding,
        };
        decisions.push(decision);
        proof {
            assert(decision@ == all[i as int]);
            assert(decided(decisions@) =~= decided(held).push(decision@));
            assert(decided(decisions@) =~= all.take(i as int + 1));
        }
        i = i + 1;
    }
    assert(decided(decisions@) =~= all);
    ResolvedDecisionVector { decisions }
}

/// **A protected tensor and a refused one present the same bytes, and are
/// different facts.**
pub proof fn law_protection_and_refusal_present_alike(
    object: Seq<char>,
    tensor: Seq<char>,
    encoding: Seq<char>,
)
    ensures
        ({
            let held = Decision { object, tensor, encoding: Decided::Source };
            let refused = Decision { object, tensor, encoding: Decided::LayoutRefused(encoding) };
            &&& held.record() == refused.record()
            &&& held.full_record() != refused.full_record()
        }),
{
    let held = Decision { object, tensor, encoding: Decided::Source };
    let refused = Decision { object, tensor, encoding: Decided::LayoutRefused(encoding) };
    reveal_strlit("source");
    reveal_strlit("layout-refused");
    assert(held.full_record().len() != refused.full_record().len());
}

/// **Which encoding a layout refused is kept.** Two refusals of one tensor
/// present the same bytes, and their full records differ where the refused
/// encodings do.
pub proof fn law_refusals_keep_what_was_refused(
    object: Seq<char>,
    tensor: Seq<char>,
    one: Seq<char>,
    other: Seq<char>,
)
    requires
        one != other,
    ensures
        ({
            let a = Decision { object, tensor, encoding: Decided::LayoutRefused(one) };
            let b = Decision { object, tensor, encoding: Decided::LayoutRefused(other) };
            &&& a.record() == b.record()
            &&& a.full_record() != b.full_record()
        }),
{
    let a = Decision { object, tensor, encoding: Decided::LayoutRefused(one) };
    let b = Decision { object, tensor, encoding: Decided::LayoutRefused(other) };
    let head = a.record() + FIELD@ + "layout-refused"@ + FIELD@;
    assert(a.full_record() =~= head + one);
    assert(b.full_record() =~= head + other);
    if a.full_record() == b.full_record() {
        lemma_label(head, one, other);
    }
}

/// **One fact more or less is another record.** Vectors that agree but for
/// one tensor, whose full records differ, have different full forms.
pub proof fn law_one_changed_fact_is_written(a: Seq<Decision>, b: Seq<Decision>, k: int)
    requires
        a.len() == b.len(),
        0 <= k < a.len(),
        forall|i: int| 0 <= i < a.len() && i != k ==> #[trigger] a[i] == b[i],
        a[k].full_record() != b[k].full_record(),
    ensures
        canonical_full_of(a) != canonical_full_of(b),
{
    let x = a.map_values(|d: Decision| d.full_record());
    let y = b.map_values(|d: Decision| d.full_record());
    if joined(x, RECORD@) == joined(y, RECORD@) {
        assert forall|i: int| 0 <= i < x.len() && i != k implies #[trigger] x[i] == y[i] by {
            assert(a[i] == b[i]);
        }
        lemma_joined_tells_one_part(x, y, RECORD@, k);
        assert(x[k] == a[k].full_record());
        assert(y[k] == b[k].full_record());
    }
}

/// No separator stands in a decision's texts.
pub open spec fn texts_are_clear(d: Decision) -> bool {
    &&& clear(d.object)
    &&& clear(d.tensor)
    &&& match d.encoding {
        Decided::Compiled(e) => clear(e),
        Decided::Source => true,
        Decided::LayoutRefused(e) => clear(e),
    }
}

/// The fields of a decision's full record.
spec fn full_fields(d: Decision) -> Seq<Seq<char>> {
    let always = seq![d.object].push(d.tensor).push(d.encoding.effective()).push(
        d.encoding.fact(),
    );
    match d.encoding {
        Decided::LayoutRefused(e) => always.push(e),
        _ => always,
    }
}

proof fn lemma_full_record(d: Decision)
    requires
        texts_are_clear(d),
    ensures
        d.full_record() == joined(full_fields(d), FIELD@),
        forall|i: int| 0 <= i < full_fields(d).len() ==> clear(#[trigger] full_fields(d)[i]),
        plain(d.full_record()),
        d.full_record().len() > 0,
{
    reveal_strlit("\u{1f}");
    reveal_strlit("source");
    reveal_strlit("compiled");
    reveal_strlit("layout-refused");
    assert(FIELD@ =~= seq!['\u{1f}']);
    let one = seq![d.object];
    let two = one.push(d.tensor);
    let three = two.push(d.encoding.effective());
    let four = three.push(d.encoding.fact());
    lemma_joined_push(one, FIELD@, d.tensor);
    lemma_joined_push(two, FIELD@, d.encoding.effective());
    lemma_joined_push(three, FIELD@, d.encoding.fact());
    assert(joined(four, FIELD@) =~= d.record() + FIELD@ + d.encoding.fact());
    if let Decided::LayoutRefused(e) = d.encoding {
        lemma_joined_push(four, FIELD@, e);
        assert(d.full_record() =~= d.record() + FIELD@ + d.encoding.fact() + FIELD@ + e);
    }
    assert(clear("source"@));
    assert(clear("compiled"@));
    assert(clear("layout-refused"@));
    assert(clear(d.encoding.effective()));
    assert(clear(d.encoding.fact()));
    let fields = full_fields(d);
    assert forall|i: int| 0 <= i < fields.len() implies clear(#[trigger] fields[i]) by {
        assert(i < 4 ==> fields[i] == four[i]);
    }
    assert forall|i: int| 0 <= i < fields.len() implies free_of(
        #[trigger] fields[i],
        '\u{1e}',
    ) by {
        assert(clear(fields[i]));
    }
    lemma_free_of_joined(fields, FIELD@, '\u{1e}');
}

proof fn lemma_same_full_record(a: Decision, b: Decision)
    requires
        texts_are_clear(a),
        texts_are_clear(b),
        a.full_record() == b.full_record(),
    ensures
        a == b,
{
    reveal_strlit("\u{1f}");
    assert(FIELD@ =~= seq!['\u{1f}']);
    lemma_full_record(a);
    lemma_full_record(b);
    let x = full_fields(a);
    let y = full_fields(b);
    assert forall|i: int| 0 <= i < x.len() implies free_of(#[trigger] x[i], '\u{1f}') by {
        assert(clear(x[i]));
    }
    assert forall|i: int| 0 <= i < y.len() implies free_of(#[trigger] y[i], '\u{1f}') by {
        assert(clear(y[i]));
    }
    lemma_joined_identify(x, y, FIELD@, '\u{1f}');
    assert(x[0] == y[0] && x[1] == y[1] && x[2] == y[2] && x[3] == y[3]);
    reveal_strlit("source");
    reveal_strlit("compiled");
    reveal_strlit("layout-refused");
    assert("source"@.len() != "compiled"@.len());
    if a.encoding is LayoutRefused && b.encoding is LayoutRefused {
        assert(x[4] == y[4]);
    }
    assert(a.encoding == b.encoding);
}

/// **Nothing is collapsed.** Vectors whose texts hold no separator have one
/// full form only where every decision is the same, the fact that produced it
/// included.
pub proof fn law_the_full_form_collapses_nothing(a: Seq<Decision>, b: Seq<Decision>)
    requires
        forall|i: int| 0 <= i < a.len() ==> texts_are_clear(#[trigger] a[i]),
        forall|i: int| 0 <= i < b.len() ==> texts_are_clear(#[trigger] b[i]),
        canonical_full_of(a) == canonical_full_of(b),
    ensures
        a == b,
{
    let u = a.map_values(|d: Decision| d.full_record());
    let v = b.map_values(|d: Decision| d.full_record());
    assert forall|i: int| 0 <= i < u.len() implies plain(#[trigger] u[i]) && u[i].len() > 0 by {
        assert(texts_are_clear(a[i]));
        lemma_full_record(a[i]);
    }
    assert forall|i: int| 0 <= i < v.len() implies plain(#[trigger] v[i]) && v[i].len() > 0 by {
        assert(texts_are_clear(b[i]));
        lemma_full_record(b[i]);
    }
    if u.len() > 0 && v.len() > 0 {
        lemma_joined_records_identify(u, v);
    } else {
        lemma_only_nothing_joins_to_nothing(u);
        lemma_only_nothing_joins_to_nothing(v);
        if u.len() > 0 {
            assert(u[0].len() > 0);
        }
        if v.len() > 0 {
            assert(v[0].len() > 0);
        }
    }
    assert(u.len() == v.len());
    assert forall|i: int| 0 <= i < a.len() implies a[i] == b[i] by {
        assert(u[i] == v[i]);
        assert(texts_are_clear(a[i]));
        assert(texts_are_clear(b[i]));
        lemma_same_full_record(a[i], b[i]);
    }
    assert(a =~= b);
}

/// **A tensor is compiled where it is wanted and held.** Over a surface every
/// tensor has one decision, in the surface's order and under its own name: to
/// the encoding the rule wants where the layout holds it there, refused under
/// that encoding where the layout does not, and source where none is wanted.
pub proof fn law_a_tensor_is_compiled_where_wanted_and_held<L: LayoutAdmission>(
    rule: spec_fn(Role, Seq<char>) -> Option<Seq<char>>,
    surface: Seq<Enumerated>,
    layout: &L,
    i: int,
)
    requires
        0 <= i < surface.len(),
    ensures
        ({
            let t = surface[i];
            let d = resolution(rule, surface, layout)[i];
            &&& resolution(rule, surface, layout).len() == surface.len()
            &&& d.object == t.object
            &&& d.tensor == t.tensor
            &&& match d.encoding {
                Decided::Source => rule(t.role, t.tensor) is None,
                Decided::Compiled(e) => rule(t.role, t.tensor) == Some(e) && layout.takes(e, t),
                Decided::LayoutRefused(e) => rule(t.role, t.tensor) == Some(e) && !layout.takes(
                    e,
                    t,
                ),
            }
        }),
{
}

/// **What a pack layout refuses** is an NVFP4 tensor that is no matrix of
/// whole groups of sixteen, or that the machine cannot address; it refuses
/// nothing under another encoding.
pub proof fn law_what_a_pack_layout_refuses(encoding: Seq<char>, t: Enumerated)
    ensures
        encoding != "NVFP4"@ ==> PackLayoutAdmission.takes(encoding, t),
        PackLayoutAdmission.takes("NVFP4"@, t) ==> t.shape.len() == 2 && t.shape[1] % 16 == 0,
        t.shape.len() == 2 && t.shape[1] % 16 == 0 && 9 * (t.shape[0] * t.shape[1]) + 64 <= 16
            * usize::MAX ==> PackLayoutAdmission.takes(encoding, t),
        NoLayoutConstraint.takes(encoding, t),
        LayoutPolicy::Pack.takes(encoding, t) == PackLayoutAdmission.takes(encoding, t),
        LayoutPolicy::Unconstrained.takes(encoding, t),
{
    law_a_pack_holds_whole_groups(t.shape);
}

/// **What is presented.** A compiled tensor presents its encoding, and every
/// other the source; whether it was held back or refused is told by the fact.
pub proof fn law_what_a_decision_presents(e: Seq<char>)
    ensures
        Decided::Compiled(e).effective() == e,
        Decided::Source.effective() == "source"@,
        Decided::LayoutRefused(e).effective() == "source"@,
        Decided::Compiled(e).fact() == "compiled"@,
        Decided::Source.fact() == "source"@,
        Decided::LayoutRefused(e).fact() == "layout-refused"@,
{
}

/// **Counting and listing decisions** goes over every one of them: what is
/// compiled and what is not add up, and what is listed as refused is what was
/// refused, each as often as it stands there.
pub proof fn law_decisions_are_counted_and_listed(a: Seq<Decision>, b: Seq<Decision>, d: Decision)
    ensures
        compiled_among(a + b) == compiled_among(a) + compiled_among(b),
        compiled_among(seq![d]) == (if d.encoding is Compiled {
            1nat
        } else {
            0nat
        }),
        refused_among(a + b) == refused_among(a) + refused_among(b),
        refused_among(seq![d]) == (if d.encoding is LayoutRefused {
            seq![d]
        } else {
            Seq::empty()
        }),
    decreases b.len(),
{
    assert(seq![d].drop_last() =~= Seq::<Decision>::empty());
    assert(compiled_among(Seq::<Decision>::empty()) == 0);
    assert(refused_among(Seq::<Decision>::empty()) =~= Seq::<Decision>::empty());
    assert(refused_among(seq![d]) =~= (if d.encoding is LayoutRefused {
        seq![d]
    } else {
        Seq::empty()
    }));
    if b.len() == 0 {
        assert(a + b =~= a);
        assert(refused_among(a) + refused_among(b) =~= refused_among(a));
    } else {
        law_decisions_are_counted_and_listed(a, b.drop_last(), d);
        assert((a + b).drop_last() =~= a + b.drop_last());
        assert(refused_among(a + b) =~= refused_among(a) + refused_among(b));
    }
}

/// **A decision is found under its tensor.** What is decided about a tensor is
/// what the decision that names it says, wherever it stands among others.
pub proof fn law_a_decision_is_found_under_its_tensor(s: Seq<Decision>, k: int)
    requires
        0 <= k < s.len(),
        forall|j: int| 0 <= j < k ==> ((#[trigger] s[j]).object, s[j].tensor) != (
            s[k].object,
            s[k].tensor,
        ),
    ensures
        decision_about(s, (s[k].object, s[k].tensor)) == Some(s[k].encoding),
    decreases k,
{
    if k > 0 {
        let rest = s.skip(1);
        assert(rest[k - 1] == s[k]);
        assert((s[0].object, s[0].tensor) != (s[k].object, s[k].tensor));
        assert forall|j: int| 0 <= j < k - 1 implies ((#[trigger] rest[j]).object, rest[j].tensor)
            != (rest[k - 1].object, rest[k - 1].tensor) by {
            assert(rest[j] == s[j + 1]);
        }
        law_a_decision_is_found_under_its_tensor(rest, k - 1);
    }
}

} // verus!

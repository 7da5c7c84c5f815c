//! A model composed from a candidate overlay over a source container.
use crate::binding::{EncodedRegion, ExpertEncoding};
use crate::error::VindexError;
use crate::map::{Precision, PrecisionMap};
use crate::opplan::OperandRef;
use crate::physical::PhysicalStore;
use crate::policy::Role;
use crate::table::lookup;
use std::sync::Arc;
use vstd::prelude::*;
use vstd::string::*;

verus! {

/// How many operands came from where.
#[derive(Debug, Clone, Copy, PartialEq, Eq, Default, Structural)]
pub struct ResolutionStats {
    /// Served by the candidate overlay, as its precision map intended.
    pub candidate_hits: u64,
    /// Fell back to the source container at source precision.
    pub source_fallback_hits: u64,
    /// In neither layer the map allowed it to come from.
    pub missing: u64,
}

impl ResolutionStats {
    /// How many resolutions have been counted.
    pub open spec fn total(self) -> int {
        self.candidate_hits + self.source_fallback_hits + self.missing
    }
}

/// A model composed from a candidate overlay over a source container.
pub struct LayeredOperands {
    map: PrecisionMap,
    candidate: Arc<PhysicalStore>,
    source: Arc<PhysicalStore>,
    source_encoding: ExpertEncoding,
    stats: ResolutionStats,
}

/// The refusal of a compiled operand that the overlay lacks.
pub open spec fn not_in_overlay_text(
    tensor: Seq<char>,
    encoding: Seq<char>,
    map: Seq<char>,
) -> Seq<char> {
    "`"@ + tensor + "` is compiled as "@ + encoding + " by map `"@ + map
        + "` but the candidate overlay does not hold it — refusing to fall back to source bytes under a compiled name"@
}

/// The refusal of an operand that the source container lacks.
pub open spec fn not_in_source_text(tensor: Seq<char>) -> Seq<char> {
    "`"@ + tensor + "` is in neither the candidate overlay nor the source container"@
}

/// The refusal of an encoding no grouped kernel reads.
pub open spec fn unexecutable_text(map: Seq<char>, encoding: Seq<char>) -> Seq<char> {
    "map `"@ + map + "` names encoding `"@ + encoding + "`, which no grouped kernel reads"@
}

/// `tensor` has a region in `store`.
pub open spec fn present(store: PhysicalStore, tensor: Seq<char>) -> bool {
    lookup(store.directory(), tensor) matches Some(e) && store.has_span(e.0 as int, e.1 as int)
}

/// `r` is the whole of `tensor` in `store`.
pub open spec fn is_whole(
    r: EncodedRegion,
    store: PhysicalStore,
    tensor: Seq<char>,
) -> bool {
    lookup(store.directory(), tensor) matches Some(e) && r.region.is_span(
        store,
        e.0 as int,
        e.1 as int,
    )
}

impl LayeredOperands {
    /// The map that decides which layer answers.
    pub closed spec fn rules(&self) -> PrecisionMap {
        self.map
    }

    /// The candidate overlay.
    pub closed spec fn overlay(&self) -> PhysicalStore {
        *self.candidate
    }

    /// The source container.
    pub closed spec fn container(&self) -> PhysicalStore {
        *self.source
    }

    /// What the source container's bytes are.
    pub closed spec fn container_encoding(&self) -> ExpertEncoding {
        self.source_encoding
    }

    /// What has been resolved so far.
    pub closed spec fn counts(&self) -> ResolutionStats {
        self.stats
    }

    /// The two layers, the map and the source encoding are those of `other`.
    pub open spec fn same_layers(&self, other: &Self) -> bool {
        &&& self.rules() == other.rules()
        &&& self.overlay() == other.overlay()
        &&& self.container() == other.container()
        &&& self.container_encoding() == other.container_encoding()
    }

    /// A BF16 source under a candidate overlay.
    pub fn new(
        map: PrecisionMap,
        candidate: Arc<PhysicalStore>,
        source: Arc<PhysicalStore>,
    ) -> (r: Self)
        ensures
            r.rules() == map,
            r.overlay() == *candidate,
            r.container() == *source,
            r.container_encoding() == ExpertEncoding::Bf16,
            r.counts() == (ResolutionStats {
                candidate_hits: 0,
                source_fallback_hits: 0,
                missing: 0,
            }),
    {
        Self::with_source_encoding(map, candidate, source, ExpertEncoding::Bf16)
    }

    /// A source of a stated encoding under a candidate overlay.
    pub fn with_source_encoding(
        map: PrecisionMap,
        candidate: Arc<PhysicalStore>,
        source: Arc<PhysicalStore>,
        source_encoding: ExpertEncoding,
    ) -> (r: Self)
        ensures
            r.rules() == map,
            r.overlay() == *candidate,
            r.container() == *source,
            r.container_encoding() == source_encoding,
            r.counts() == (ResolutionStats {
                candidate_hits: 0,
                source_fallback_hits: 0,
                missing: 0,
            }),
    {
        LayeredOperands {
            map,
            candidate,
            source,
            source_encoding,
            stats: ResolutionStats { candidate_hits: 0, source_fallback_hits: 0, missing: 0 },
        }
    }

    /// What has been resolved so far.
    pub fn stats(&self) -> (r: ResolutionStats)
        ensures
            r == self.counts(),
    {
        self.stats
    }

    /// The region this arm executes for `operand`.
    ///
    /// The map decides which layer answers, not availability: a compiled
    /// operand comes from the overlay under the map's encoding or is refused,
    /// and an operand at source precision comes from the source container or
    /// is refused. What is served or missing is counted once; an operand whose
    /// encoding no grouped kernel reads is neither, and is refused uncounted.
    pub fn resolve(&mut self, role: Role, operand: &OperandRef) -> (r: Result<
        EncodedRegion,
        VindexError,
    >)
        requires
            old(self).counts().total() < u64::MAX,
        ensures
            final(self).same_layers(old(self)),
            final(self).counts().candidate_hits > old(self).counts().candidate_hits ==> r is Ok,
            r is Ok ==> final(self).counts().total() == old(self).counts().total() + 1,
            old(self).counts().total() <= final(self).counts().total() <= old(
                self,
            ).counts().total() + 1,
            match old(self).rules().decides(role, operand.tensor@) {
                Some(enc) => if !present(old(self).overlay(), operand.tensor@) {
                    &&& r matches Err(e)
                    &&& e.text() == not_in_overlay_text(
                        operand.tensor@,
                        enc,
                        old(self).rules().name@,
                    )
                    &&& final(self).counts() == (ResolutionStats {
                        missing: (old(self).counts().missing + 1) as u64,
                        ..old(self).counts()
                    })
                } else {
                    match r {
                        Ok(region) => {
                            &&& region.encoding.title() == enc
                            &&& is_whole(region, old(self).overlay(), operand.tensor@)
                            &&& final(self).counts() == (ResolutionStats {
                                candidate_hits: (old(self).counts().candidate_hits + 1) as u64,
                                ..old(self).counts()
                            })
                        },
                        Err(e) => {
                            &&& final(self).counts() == old(self).counts()
                            &&& forall|known: ExpertEncoding| (#[trigger] known.title()) != enc
                            &&& e.text() == unexecutable_text(old(self).rules().name@, enc)
                        },
                    }
                },
                None => if !present(old(self).container(), operand.tensor@) {
                    &&& r matches Err(e)
                    &&& e.text() == not_in_source_text(operand.tensor@)
                    &&& final(self).counts() == (ResolutionStats {
                        missing: (old(self).counts().missing + 1) as u64,
                        ..old(self).counts()
                    })
                } else {
                    &&& r matches Ok(region)
                    &&& region.encoding == old(self).container_encoding()
                    &&& is_whole(region, old(self).container(), operand.tensor@)
                    &&& final(self).counts() == (ResolutionStats {
                        source_fallback_hits: (old(self).counts().source_fallback_hits + 1) as u64,
                        ..old(self).counts()
                    })
                },
            },
    {
        match self.map.resolve(role, operand.tensor.as_str()) {
            Precision::Compiled(enc) => match self.candidate.whole(operand.tensor.as_str()) {
                Some(region) => {
                    // The map is the authority for what these bytes are.
                    match ExpertEncoding::parse(enc) {
                        Some(encoding) => {
                            self.stats.candidate_hits = self.stats.candidate_hits + 1;
                            Ok(EncodedRegion { region, encoding })
                        },
                        None => {
                            let mut m: String = "map `".to_owned();
                            m.append(self.map.name.as_str());
                            m.append("` names encoding `");
                            m.append(enc);
                            m.append("`, which no grouped kernel reads");
                            Err(VindexError::Parse(m))
                        },
                    }
                },
                None => {
                    let mut m: String = "`".to_owned();
                    m.append(operand.tensor.as_str());
                    m.append("` is compiled as ");
                    m.append(enc);
                    m.append(" by map `");
                    m.append(self.map.name.as_str());
                    m.append(
                        "` but the candidate overlay does not hold it — refusing to fall back to source bytes under a compiled name",
                    );
                    self.stats.missing = self.stats.missing + 1;
                    Err(VindexError::Parse(m))
                },
            },
            Precision::Source => match self.source.whole(operand.tensor.as_str()) {
                Some(region) => {
                    self.stats.source_fallback_hits = self.stats.source_fallback_hits + 1;
                    Ok(EncodedRegion { region, encoding: self.source_encoding })
                },
                None => {
                    let mut m: String = "`".to_owned();
                    m.append(operand.tensor.as_str());
                    m.append("` is in neither the candidate overlay nor the source container");
                    self.stats.missing = self.stats.missing + 1;
                    Err(VindexError::Parse(m))
                },
            },
        }
    }
}

/// **A layer answers with the tensor's own bytes, all of them.** What is
/// resolved stands where the layer's directory puts the tensor, is as long as
/// the directory says, and is there exactly where it ends inside the store.
pub proof fn law_a_layer_answers_with_the_tensor(
    region: EncodedRegion,
    store: PhysicalStore,
    tensor: Seq<char>,
    at: (u64, u64),
)
    requires
        lookup(store.directory(), tensor) == Some(at),
    ensures
        present(store, tensor) <==> store.start() + at.0 + at.1 <= store.content().len(),
        is_whole(region, store, tensor) <==> region.region.owner() == store && region.region.at()
            == store.start() + at.0 && region.region.size() == at.1,
{
}

/// **A layer has nothing to answer for a tensor it does not list.**
pub proof fn law_an_unlisted_tensor_is_absent(
    region: EncodedRegion,
    store: PhysicalStore,
    tensor: Seq<char>,
)
    requires
        lookup(store.directory(), tensor) is None,
    ensures
        !present(store, tensor),
        !is_whole(region, store, tensor),
{
}

/// **Each resolution counts once**, whatever it came to.
pub proof fn law_each_resolution_counts_once(s: ResolutionStats)
    ensures
        s.total() - s.candidate_hits - s.source_fallback_hits - s.missing == 0,
{
}

} // verus!

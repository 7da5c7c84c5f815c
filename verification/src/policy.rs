//! Semantic roles of tensors.
use crate::canon::clear;
use vstd::prelude::*;

verus! {

/// What a tensor is for, which is what a precision map is keyed by.
#[derive(Debug, Clone, Copy, PartialEq, Eq, PartialOrd, Ord, Hash, Structural)]
pub enum Role {
    DecoderLinear,
    ExpertWeight,
    Router,
    Norm,
    Embedding,
    OutputHead,
    RecurrenceProjection,
    RecurrenceControl,
    SmallVector,
    Unknown,
}

impl Role {
    /// The name a precision map uses for this role.
    pub open spec fn title(self) -> Seq<char> {
        match self {
            Role::DecoderLinear => "decoder-linear"@,
            Role::ExpertWeight => "expert-weight"@,
            Role::Router => "router"@,
            Role::Norm => "norm"@,
            Role::Embedding => "embedding"@,
            Role::OutputHead => "output-head"@,
            Role::RecurrenceProjection => "recurrence-projection"@,
            Role::RecurrenceControl => "recurrence-control"@,
            Role::SmallVector => "small-vector"@,
            Role::Unknown => "unknown"@,
        }
    }

    /// The name a precision map uses for this role.
    pub fn name(self) -> (r: &'static str)
        ensures
            r@ == self.title(),
    {
        match self {
            Role::DecoderLinear => "decoder-linear",
            Role::ExpertWeight => "expert-weight",
            Role::Router => "router",
            Role::Norm => "norm",
            Role::Embedding => "embedding",
            Role::OutputHead => "output-head",
            Role::RecurrenceProjection => "recurrence-projection",
            Role::RecurrenceControl => "recurrence-control",
            Role::SmallVector => "small-vector",
            Role::Unknown => "unknown",
        }
    }
}

/// Two roles have one name only where they are one role, and no name holds a
/// separator.
pub proof fn lemma_titles(a: Role, b: Role)
    ensures
        a.title() == b.title() ==> a == b,
        clear(a.title()),
{
    reveal_strlit("decoder-linear");
    reveal_strlit("expert-weight");
    reveal_strlit("router");
    reveal_strlit("norm");
    reveal_strlit("embedding");
    reveal_strlit("output-head");
    reveal_strlit("recurrence-projection");
    reveal_strlit("recurrence-control");
    reveal_strlit("small-vector");
    reveal_strlit("unknown");
    if a.title() == b.title() {
        assert(a.title().len() == b.title().len());
    }
}

} // verus!

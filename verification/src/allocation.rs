//! What evidence must be purchased next?
//!
//! Allocation may expand measurement where evidence cannot collapse the
//! frontier. It may not make an ordering. A budget may refuse a round; it may
//! never trim one, because trimming is choosing.
use crate::measurement::EvidenceScale;
use crate::search_policy::SelectionShape;
use vstd::pervasive::cloned;
use vstd::prelude::*;
use vstd::seq_lib::to_multiset_len;

verus! {

/// What evidence the next round must purchase.
#[derive(Debug, Clone, PartialEq, Eq)]
pub enum EvidenceAllocation<S> {
    /// Nothing to buy.
    Nothing,
    /// One experiment resolves the round.
    One(S),
    /// The evidence cannot collapse these, so every one is measured.
    Frontier(Vec<S>),
}

impl<S> EvidenceAllocation<S> {
    /// The subjects, in allocation order.
    pub open spec fn bought(self) -> Seq<S> {
        match self {
            EvidenceAllocation::Nothing => Seq::empty(),
            EvidenceAllocation::One(s) => seq![s],
            EvidenceAllocation::Frontier(v) => v@,
        }
    }

    /// How many experiments the round buys.
    pub fn len(&self) -> (r: usize)
        ensures
            r == self.bought().len(),
    {
        match self {
            EvidenceAllocation::Nothing => 0,
            EvidenceAllocation::One(s) => 1,
            EvidenceAllocation::Frontier(v) => v.len(),
        }
    }

    /// Whether nothing is to be measured.
    pub fn is_empty(&self) -> (r: bool)
        ensures
            r == (self.bought().len() == 0),
    {
        self.len() == 0
    }

    /// Whether the round expanded because evidence could not choose.
    pub fn is_expanded(&self) -> (r: bool)
        ensures
            r == (self is Frontier),
    {
        matches!(self, EvidenceAllocation::Frontier(_))
    }

    /// The subjects, in allocation order.
    pub fn subjects(&self) -> (r: Vec<&S>)
        ensures
            r@.len() == self.bought().len(),
            forall|i: int| 0 <= i < r@.len() ==> *(#[trigger] r@[i]) == self.bought()[i],
    {
        let mut all: Vec<&S> = Vec::new();
        match self {
            EvidenceAllocation::Nothing => {},
            EvidenceAllocation::One(s) => all.push(s),
            EvidenceAllocation::Frontier(v) => {
                let mut i: usize = 0;
                while i < v.len()
                    invariant
                        i <= v@.len(),
                        *self == EvidenceAllocation::Frontier(*v),
                        all@.len() == i,
                        forall|k: int| 0 <= k < i ==> *(#[trigger] all@[k]) == v@[k],
                    decreases v@.len() - i,
                {
                    all.push(&v[i]);
                    i = i + 1;
                }
            },
        }
        all
    }
}

/// At what scale, and within what budget, evidence is purchased.
#[derive(Debug, Clone, Copy, PartialEq, Eq, Structural)]
pub struct AllocationPolicy {
    /// The next sanctioned scale.
    pub next_scale: EvidenceScale,
    /// The most experiments a round may buy; `None` is unbounded.
    pub max_experiments: Option<usize>,
}

/// A round the budget cannot buy, with what it would have cost.
#[derive(Debug, Clone, Copy, PartialEq, Eq, Structural)]
pub struct BudgetRefusal {
    pub required: usize,
    pub budget: usize,
    pub scale: EvidenceScale,
}

impl AllocationPolicy {
    /// Buying at `next_scale`, without a cap.
    pub fn at(next_scale: EvidenceScale) -> (r: AllocationPolicy)
        ensures
            r == (AllocationPolicy { next_scale, max_experiments: None }),
    {
        AllocationPolicy { next_scale, max_experiments: None }
    }

    /// Buying at most this many.
    pub fn with_budget(self, max_experiments: usize) -> (r: AllocationPolicy)
        ensures
            r == (AllocationPolicy {
                next_scale: self.next_scale,
                max_experiments: Some(max_experiments),
            }),
    {
        AllocationPolicy { next_scale: self.next_scale, max_experiments: Some(max_experiments) }
    }

    /// **The allocation unchanged, or the whole of it refused.**
    pub fn admits<S>(&self, allocation: EvidenceAllocation<S>) -> (r: Result<
        EvidenceAllocation<S>,
        BudgetRefusal,
    >)
        ensures
            match self.max_experiments {
                Some(cap) => if allocation.bought().len() > cap {
                    r matches Err(e) && e == (BudgetRefusal {
                        required: allocation.bought().len() as usize,
                        budget: cap,
                        scale: self.next_scale,
                    })
                } else {
                    r == Ok::<EvidenceAllocation<S>, BudgetRefusal>(allocation)
                },
                None => r == Ok::<EvidenceAllocation<S>, BudgetRefusal>(allocation),
            },
    {
        let required: usize = allocation.len();
        match self.max_experiments {
            Some(cap) => if required > cap {
                Err(BudgetRefusal { required, budget: cap, scale: self.next_scale })
            } else {
                Ok(allocation)
            },
            None => Ok(allocation),
        }
    }
}

/// Whether the frontier's members can be ordered against each other. The
/// evidence layer decides.
#[derive(Debug, Clone, Copy, PartialEq, Eq, Structural)]
pub enum FrontierOrdering {
    /// The evidence resolves them.
    Resolved,
    /// Valid evidence disagrees.
    Incomparable,
}

/// The frontier stands: there was more than one to rank, the evidence does not
/// order them, and more than one is left.
pub open spec fn stands(
    selection: SelectionShape,
    ordering: FrontierOrdering,
    unresolved: nat,
) -> bool {
    selection is Ranked && ordering is Incomparable && unresolved > 1
}

/// Whose evidence is needed: nobody's where the selection is exhausted,
/// everybody's where the frontier stands, and else the leader's.
pub open spec fn needed<S>(
    selection: SelectionShape,
    leading: S,
    unresolved: Seq<S>,
    ordering: FrontierOrdering,
) -> Seq<S> {
    if selection is Exhausted {
        Seq::empty()
    } else if stands(selection, ordering, unresolved.len()) {
        unresolved
    } else {
        seq![leading]
    }
}

/// **What must be measured.** An exhausted selection buys nothing, a frontier
/// that stands is bought whole, and every other selection buys its leader.
pub fn allocate<S: Clone>(
    selection: SelectionShape,
    leading: S,
    unresolved: &[S],
    ordering: FrontierOrdering,
) -> (r: EvidenceAllocation<S>)
    ensures
        if selection is Exhausted {
            r is Nothing
        } else if stands(selection, ordering, unresolved@.len()) {
            r is Frontier && r.bought().len() == unresolved@.len() && forall|i: int|
                0 <= i < unresolved@.len() ==> cloned(#[trigger] unresolved@[i], r.bought()[i])
        } else {
            r == EvidenceAllocation::One(leading)
        },
        r.bought().len() == needed(selection, leading, unresolved@, ordering).len(),
        forall|i: int|
            0 <= i < r.bought().len() ==> {
                let subject = needed(selection, leading, unresolved@, ordering)[i];
                #[trigger] r.bought()[i] == subject || cloned(subject, r.bought()[i])
            },
{
    match (selection, ordering) {
        (SelectionShape::Exhausted, _) => EvidenceAllocation::Nothing,
        (SelectionShape::Sole, _) => EvidenceAllocation::One(leading),
        (SelectionShape::Ranked, FrontierOrdering::Resolved) => EvidenceAllocation::One(leading),
        (SelectionShape::Ranked, FrontierOrdering::Incomparable) => {
            let n: usize = unresolved.len();
            if n <= 1 {
                return EvidenceAllocation::One(leading);
            }
            let mut v: Vec<S> = Vec::new();
            let mut i: usize = 0;
            while i < n
                invariant
                    i <= n,
                    n == unresolved@.len(),
                    v@.len() == i,
                    forall|k: int| 0 <= k < i ==> cloned(#[trigger] unresolved@[k], v@[k]),
                decreases n - i,
            {
                v.push(unresolved[i].clone());
                i = i + 1;
            }
            EvidenceAllocation::Frontier(v)
        },
    }
}

/// **Allocation makes no ordering.** Where the frontier stands, its members
/// are bought whichever of them leads and in whichever order they come: all
/// of them, as often as they are there, and nothing else.
pub proof fn law_allocation_makes_no_ordering<S>(
    leading: S,
    other: S,
    unresolved: Seq<S>,
    rearranged: Seq<S>,
)
    requires
        unresolved.len() > 1,
        rearranged.to_multiset() == unresolved.to_multiset(),
    ensures
        ({
            let shape = SelectionShape::Ranked;
            let tied = FrontierOrdering::Incomparable;
            &&& needed(shape, leading, unresolved, tied).to_multiset() == unresolved.to_multiset()
            &&& needed(shape, other, rearranged, tied).to_multiset() == unresolved.to_multiset()
        }),
{
    to_multiset_len(unresolved);
    to_multiset_len(rearranged);
}

/// **What a round buys.** Nothing where nothing is left; all of the frontier
/// where there was something to rank, the evidence does not order it and more
/// than one is left; and in every other case the leader alone.
pub proof fn law_what_a_round_buys<S>(
    selection: SelectionShape,
    leading: S,
    unresolved: Seq<S>,
    ordering: FrontierOrdering,
)
    ensures
        selection is Exhausted ==> needed(selection, leading, unresolved, ordering).len() == 0,
        selection is Sole ==> needed(selection, leading, unresolved, ordering) == seq![leading],
        selection is Ranked && ordering is Resolved ==> needed(
            selection,
            leading,
            unresolved,
            ordering,
        ) == seq![leading],
        selection is Ranked && ordering is Incomparable && unresolved.len() <= 1 ==> needed(
            selection,
            leading,
            unresolved,
            ordering,
        ) == seq![leading],
        selection is Ranked && ordering is Incomparable && unresolved.len() >= 2 ==> needed(
            selection,
            leading,
            unresolved,
            ordering,
        ) == unresolved,
{
}

/// **An allocation is its subjects**: none, one, or the frontier as it stands.
pub proof fn law_an_allocation_is_its_subjects<S>(a: EvidenceAllocation<S>)
    ensures
        a is Nothing ==> a.bought().len() == 0,
        a matches EvidenceAllocation::One(s) ==> a.bought() == seq![s],
        a matches EvidenceAllocation::Frontier(v) ==> a.bought() == v@,
{
}

} // verus!

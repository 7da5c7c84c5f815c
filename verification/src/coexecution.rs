//! Measuring several already-identified experiments together.
//!
//! It batches execution. It does not batch identity, and it does not choose
//! which experiments should exist: members keep their own keys, unchanged and
//! in order.
use crate::key::{Keyed, MeasurementKey};
use crate::reading::{worded, Phrase, Piece, Shown};
use crate::text::{decimal, decimal_text, push_decimal, same};
use vstd::prelude::*;
use vstd::string::*;

verus! {

/// Why a set of requests cannot share one execution.
#[derive(Debug, Clone, Copy, PartialEq, Eq, Structural)]
pub enum BatchRefusal {
    Empty,
    MixedBank,
    MixedScale,
    MixedInstrument,
    DuplicateState,
}

impl BatchRefusal {
    /// The reason, in words.
    pub open spec fn text(self) -> Seq<char> {
        match self {
            BatchRefusal::Empty => "no requests to co-execute"@,
            BatchRefusal::MixedBank =>
                "requests span different evidence banks; they share no traversal"@,
            BatchRefusal::MixedScale =>
                "requests span diagnostic and authority scales; one run cannot be both"@,
            BatchRefusal::MixedInstrument =>
                "requests span different instrument semantics; one run cannot answer both"@,
            BatchRefusal::DuplicateState =>
                "the same representation state appears twice; its observation would be recorded twice under one key"@,
        }
    }

    /// The reason, in words.
    pub fn describe(&self) -> (r: &'static str)
        ensures
            r@ == self.text(),
    {
        match self {
            BatchRefusal::Empty => "no requests to co-execute",
            BatchRefusal::MixedBank =>
                "requests span different evidence banks; they share no traversal",
            BatchRefusal::MixedScale =>
                "requests span diagnostic and authority scales; one run cannot be both",
            BatchRefusal::MixedInstrument =>
                "requests span different instrument semantics; one run cannot answer both",
            BatchRefusal::DuplicateState =>
                "the same representation state appears twice; its observation would be recorded twice under one key",
        }
    }
}

/// What the first of the first `n` requests that asks another question is
/// refused for.
pub open spec fn mixed(s: Seq<Keyed>, n: int) -> Option<BatchRefusal>
    decreases n,
{
    if n <= 1 {
        None
    } else if mixed(s, n - 1) is Some {
        mixed(s, n - 1)
    } else if s[n - 1].bank != s[0].bank {
        Some(BatchRefusal::MixedBank)
    } else if s[n - 1].scale != s[0].scale {
        Some(BatchRefusal::MixedScale)
    } else if s[n - 1].instrument != s[0].instrument {
        Some(BatchRefusal::MixedInstrument)
    } else {
        None
    }
}

/// Some state is asked about twice.
pub open spec fn state_twice(s: Seq<Keyed>) -> bool {
    exists|i: int, j: int|
        #![trigger s[i], s[j]]
        0 <= i < j < s.len() && s[i].state == s[j].state
}

/// Why these requests cannot share one execution.
pub open spec fn batch_refusal(s: Seq<Keyed>) -> Option<BatchRefusal> {
    if s.len() == 0 {
        Some(BatchRefusal::Empty)
    } else if mixed(s, s.len() as int) is Some {
        mixed(s, s.len() as int)
    } else if state_twice(s) {
        Some(BatchRefusal::DuplicateState)
    } else {
        None
    }
}

/// The keys, by what they state.
pub open spec fn requested(s: Seq<MeasurementKey>) -> Seq<Keyed> {
    s.map_values(|k: MeasurementKey| k@)
}

/// A set of measurement requests that may share one execution. It holds keys,
/// never states.
#[derive(Debug, Clone, PartialEq, Eq)]
pub struct ExecutionBatch {
    members: Vec<MeasurementKey>,
}

impl View for ExecutionBatch {
    type V = Seq<MeasurementKey>;

    closed spec fn view(&self) -> Seq<MeasurementKey> {
        self.members@
    }
}

proof fn lemma_mixed_stays(s: Seq<Keyed>, i: int, n: int)
    requires
        1 <= i <= n,
        mixed(s, i) is Some,
    ensures
        mixed(s, n) == mixed(s, i),
    decreases n,
{
    if i < n {
        lemma_mixed_stays(s, i, n - 1);
    }
}

impl ExecutionBatch {
    /// Decide whether requests can share one execution. The members keep
    /// their keys, in the order given.
    pub fn assemble(requests: Vec<MeasurementKey>) -> (r: Result<ExecutionBatch, BatchRefusal>)
        ensures
            match batch_refusal(requested(requests@)) {
                None => r matches Ok(b) && b@ == requests@,
                Some(refusal) => r matches Err(e) && e == refusal,
            },
    {
        let ghost all = requested(requests@);
        if requests.len() == 0 {
            return Err(BatchRefusal::Empty);
        }
        let mut i: usize = 1;
        while i < requests.len()
            invariant
                1 <= i <= requests@.len(),
                all == requested(requests@),
                mixed(all, i as int) is None,
            decreases requests@.len() - i,
        {
            let first: &MeasurementKey = &requests[0];
            let other: &MeasurementKey = &requests[i];
            proof {
                assert(all[0] == first@ && all[i as int] == other@);
                if mixed(all, i as int + 1) is Some {
                    lemma_mixed_stays(all, i as int + 1, all.len() as int);
                }
            }
            if !same(other.bank().as_str(), first.bank().as_str()) {
                return Err(BatchRefusal::MixedBank);
            }
            if other.scale() != first.scale() {
                return Err(BatchRefusal::MixedScale);
            }
            if !same(other.instrument().as_str(), first.instrument().as_str()) {
                return Err(BatchRefusal::MixedInstrument);
            }
            i = i + 1;
        }
        let mut j: usize = 0;
        while j < requests.len()
            invariant
                j <= requests@.len(),
                requests@.len() > 0,
                all == requested(requests@),
                mixed(all, all.len() as int) is None,
                forall|a: int, b: int|
                    #![trigger all[a], all[b]]
                    0 <= a < b < all.len() && a < j ==> all[a].state != all[b].state,
            decreases requests@.len() - j,
        {
            let mut k: usize = j + 1;
            while k < requests.len()
                invariant
                    j < k <= requests@.len(),
                    requests@.len() > 0,
                    all == requested(requests@),
                    mixed(all, all.len() as int) is None,
                    forall|b: int|
                        #![trigger all[b]]
                        j < b < k ==> all[j as int].state != all[b].state,
                decreases requests@.len() - k,
            {
                assert(all[j as int] == requests@[j as int]@);
                assert(all[k as int] == requests@[k as int]@);
                if same(requests[j].state().as_str(), requests[k].state().as_str()) {
                    assert(state_twice(all));
                    return Err(BatchRefusal::DuplicateState);
                }
                k = k + 1;
            }
            j = j + 1;
        }
        Ok(ExecutionBatch { members: requests })
    }

    /// The members, as given.
    pub fn members(&self) -> (r: &Vec<MeasurementKey>)
        ensures
            r@ == self@,
    {
        &self.members
    }

    /// How many members there are.
    pub fn len(&self) -> (r: usize)
        ensures
            r == self@.len(),
    {
        self.members.len()
    }

    /// Whether there is no member.
    pub fn is_empty(&self) -> (r: bool)
        ensures
            r == (self@.len() == 0),
    {
        self.members.len() == 0
    }
}

/// **A batch is one query over distinct states.** Requests that can share an
/// execution agree on bank, scale and instrument and differ in state; and any
/// requests that do can.
pub proof fn law_a_batch_is_one_query(s: Seq<Keyed>)
    ensures
        batch_refusal(s) is None <==> s.len() > 0 && !state_twice(s) && forall|i: int|
            0 <= i < s.len() ==> (#[trigger] s[i]).bank == s[0].bank && s[i].scale == s[0].scale
                && s[i].instrument == s[0].instrument,
{
    lemma_mixed(s, s.len() as int);
}

proof fn lemma_mixed(s: Seq<Keyed>, n: int)
    requires
        0 <= n <= s.len(),
    ensures
        mixed(s, n) is None <==> forall|i: int|
            0 <= i < n ==> (#[trigger] s[i]).bank == s[0].bank && s[i].scale == s[0].scale
                && s[i].instrument == s[0].instrument,
    decreases n,
{
    if n > 1 {
        lemma_mixed(s, n - 1);
        if mixed(s, n) is None {
            assert forall|i: int| 0 <= i < n implies (#[trigger] s[i]).bank == s[0].bank
                && s[i].scale == s[0].scale && s[i].instrument == s[0].instrument by {}
        } else {
            if mixed(s, n - 1) is None {
                assert(!(s[n - 1].bank == s[0].bank && s[n - 1].scale == s[0].scale
                    && s[n - 1].instrument == s[0].instrument));
            }
        }
    }
}

/// A fraction, not reduced.
#[derive(Debug, Clone, Copy, PartialEq, Eq, Structural)]
pub struct Fraction {
    pub numerator: i128,
    pub denominator: u64,
}

/// **What a batch shared**, counted in whatever the executor materialises.
#[derive(Debug, Clone, Copy, PartialEq, Eq, Structural)]
pub struct SharingLedger {
    pub members: usize,
    /// Units each member would have materialised alone, summed.
    pub units_if_isolated: u64,
    /// Units the batch materialised.
    pub units_materialised: u64,
}

impl SharingLedger {
    /// Materialised units against what one member would have cost alone: the
    /// numerator over the denominator. `None` where there is nothing to
    /// compare with.
    pub fn amplification_vs_one(&self) -> (r: Option<(u128, u64)>)
        ensures
            r == (if self.members == 0 || self.units_if_isolated == 0 {
                None
            } else {
                Some(
                    (
                        (self.units_materialised * self.members) as u128,
                        self.units_if_isolated,
                    ),
                )
            }),
    {
        if self.members == 0 || self.units_if_isolated == 0 {
            return None;
        }
        let m: u128 = self.units_materialised as u128;
        let n: u128 = self.members as u128;
        assert(m * n <= 0xffff_ffff_ffff_ffff * 0xffff_ffff_ffff_ffff) by (nonlinear_arith)
            requires
                m <= 0xffff_ffff_ffff_ffff,
                n <= 0xffff_ffff_ffff_ffff,
        ;
        Some((m * n, self.units_if_isolated))
    }

    /// The fraction of the isolated cost that was avoided.
    pub fn saving(&self) -> (r: Option<Fraction>)
        ensures
            r == (if self.units_if_isolated == 0 {
                None
            } else {
                Some(
                    Fraction {
                        numerator: (self.units_if_isolated - self.units_materialised) as i128,
                        denominator: self.units_if_isolated,
                    },
                )
            }),
    {
        if self.units_if_isolated == 0 {
            return None;
        }
        Some(
            Fraction {
                numerator: self.units_if_isolated as i128 - self.units_materialised as i128,
                denominator: self.units_if_isolated,
            },
        )
    }

    /// What was shared, in words.
    pub open spec fn text(&self) -> Seq<Shown> {
        if self.members == 0 || self.units_if_isolated == 0 {
            worded(decimal(self.members as nat) + " members: nothing materialised"@)
        } else {
            seq![
                Shown::Words(
                    decimal(self.members as nat) + " members: materialised "@ + decimal(
                        self.units_materialised as nat,
                    ) + " of "@ + decimal(self.units_if_isolated as nat) + " isolated units — "@,
                ),
                Shown::Times(
                    (self.units_materialised * self.members) as u128,
                    self.units_if_isolated,
                ),
                Shown::Words("x one member, "@),
                Shown::Percent(
                    (self.units_if_isolated - self.units_materialised) as i128,
                    self.units_if_isolated,
                ),
                Shown::Words("% saved"@),
            ]
        }
    }

    /// What was shared, in words, with its ratios.
    pub fn describe(&self) -> (r: Phrase)
        ensures
            r@ == self.text(),
    {
        let mut s: String = decimal_text(self.members as u64);
        match (self.amplification_vs_one(), self.saving()) {
            (Some(times), Some(saved)) => {
                s.append(" members: materialised ");
                push_decimal(&mut s, self.units_materialised);
                s.append(" of ");
                push_decimal(&mut s, self.units_if_isolated);
                s.append(" isolated units — ");
                let mut p = Phrase::new();
                p.push(Piece::Words(s));
                p.push(Piece::Times(times.0, times.1));
                p.say("x one member, ");
                p.push(Piece::Percent(saved.numerator, saved.denominator));
                p.say("% saved");
                assert(p@ =~= self.text());
                p
            },
            _ => {
                s.append(" members: nothing materialised");
                Phrase::words(s)
            },
        }
    }
}

/// **What a batch is refused for.** No request at all; or the first request
/// that asks another bank, scale or instrument than the first, in that order
/// of blame; or, where all ask the same question, a state asked about twice.
pub proof fn law_what_a_batch_is_refused_for(s: Seq<Keyed>, n: int)
    ensures
        batch_refusal(s) == Some(BatchRefusal::Empty) <==> s.len() == 0,
        0 < n < s.len() && (forall|i: int|
            0 <= i < n ==> (#[trigger] s[i]).bank == s[0].bank && s[i].scale == s[0].scale
                && s[i].instrument == s[0].instrument) ==> {
            &&& s[n].bank != s[0].bank ==> batch_refusal(s) == Some(BatchRefusal::MixedBank)
            &&& s[n].bank == s[0].bank && s[n].scale != s[0].scale ==> batch_refusal(s) == Some(
                BatchRefusal::MixedScale,
            )
            &&& s[n].bank == s[0].bank && s[n].scale == s[0].scale && s[n].instrument
                != s[0].instrument ==> batch_refusal(s) == Some(BatchRefusal::MixedInstrument)
        },
        s.len() > 0 && (forall|i: int|
            0 <= i < s.len() ==> (#[trigger] s[i]).bank == s[0].bank && s[i].scale == s[0].scale
                && s[i].instrument == s[0].instrument) ==> {
            if exists|i: int, j: int|
                0 <= i < j < s.len() && (#[trigger] s[i]).state == (#[trigger] s[j]).state {
                batch_refusal(s) == Some(BatchRefusal::DuplicateState)
            } else {
                batch_refusal(s) is None
            }
        },
{
    lemma_mixed(s, s.len() as int);
    lemma_mixed_is_mixed(s, s.len() as int);
    if 0 < n < s.len() && (forall|i: int|
        0 <= i < n ==> (#[trigger] s[i]).bank == s[0].bank && s[i].scale == s[0].scale
            && s[i].instrument == s[0].instrument) {
        lemma_mixed(s, n);
        if mixed(s, n + 1) is Some {
            lemma_mixed_stays(s, n + 1, s.len() as int);
        }
    }
}

proof fn lemma_mixed_is_mixed(s: Seq<Keyed>, n: int)
    ensures
        mixed(s, n) != Some(BatchRefusal::Empty),
        mixed(s, n) != Some(BatchRefusal::DuplicateState),
    decreases n,
{
    if n > 1 {
        lemma_mixed_is_mixed(s, n - 1);
    }
}

} // verus!

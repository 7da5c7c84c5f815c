//! Admission and robustness are two independent state machines.
//!
//! A bank that fails the contract settles admission for good; a later passing
//! bank cannot resurrect it. How decisive the evidence is depends on the worst
//! bank's place relative to a guard, and never decides what is admitted.
use crate::reading::Reading;
use vstd::prelude::*;
use vstd::string::*;

verus! {

/// One bank's verdict on one map.
#[derive(Debug, Clone, PartialEq)]
pub struct BankOutcome {
    pub bank: String,
    /// The quality gate's own answer.
    pub passed_contract: bool,
    /// The binding statistic's value.
    pub binding_value: Reading,
}

impl BankOutcome {
    /// One bank's verdict.
    pub fn new(bank: &str, passed_contract: bool, binding_value: Reading) -> (r: BankOutcome)
        ensures
            r.bank@ == bank@,
            r.passed_contract == passed_contract,
            r.binding_value == binding_value,
    {
        BankOutcome { bank: bank.to_owned(), passed_contract, binding_value }
    }
}

/// One reading's place relative to the guard.
#[derive(Debug, Clone, Copy, PartialEq, Eq, Structural)]
pub enum BandPosition {
    /// Inside the threshold by more than one band.
    ClearOfThreshold,
    /// Within one band of the threshold. One bank cannot classify itself here.
    Indeterminate,
    /// Outside the threshold by more than one band.
    BeyondThreshold,
}

/// The measured disagreement between banks, around a threshold. A margin
/// inside it is a slice difference, not a signal.
#[derive(Debug, Clone, Copy, PartialEq)]
pub struct DisagreementGuard {
    /// What the binding statistic is judged against.
    pub threshold: Reading,
    /// Half the guard's width, in the statistic's own units.
    pub band: Reading,
}

/// Zero.
pub open spec fn nought() -> Reading {
    Reading { bits: 0 }
}

impl DisagreementGuard {
    /// Where a margin of this much inside the threshold stands.
    pub open spec fn place_of(self, margin: Reading) -> BandPosition {
        if margin.above(self.band) {
            BandPosition::ClearOfThreshold
        } else if self.band.opposite().above(margin) {
            BandPosition::BeyondThreshold
        } else {
            BandPosition::Indeterminate
        }
    }

    /// A guard. The band must be positive and finite, and the threshold
    /// finite.
    pub fn new(threshold: Reading, band: Reading) -> (r: Option<DisagreementGuard>)
        ensures
            r == (if band.above(nought()) && band.finite() && threshold.finite() {
                Some(DisagreementGuard { threshold, band })
            } else {
                None
            }),
    {
        if band.exceeds(Reading::from_bits(0)) && band.is_finite() && threshold.is_finite() {
            Some(DisagreementGuard { threshold, band })
        } else {
            None
        }
    }

    /// Where a reading stands whose threshold, less the reading, is `margin`.
    pub fn position(&self, margin: Reading) -> (r: BandPosition)
        ensures
            r == self.place_of(margin),
    {
        if margin.exceeds(self.band) {
            BandPosition::ClearOfThreshold
        } else if self.band.negated().exceeds(margin) {
            BandPosition::BeyondThreshold
        } else {
            BandPosition::Indeterminate
        }
    }
}

/// **The guard is as wide on one side as on the other.** A margin is clear
/// exactly where the same margin on the other side is beyond.
pub proof fn law_the_guard_is_symmetric(guard: DisagreementGuard, margin: Reading)
    requires
        guard.band.above(nought()),
    ensures
        guard.place_of(margin) is ClearOfThreshold <==> guard.place_of(margin.opposite())
            is BeyondThreshold,
        guard.place_of(margin) is Indeterminate <==> guard.place_of(margin.opposite())
            is Indeterminate,
{
}

/// **The contract.** What a map is permitted to be.
#[derive(Debug, Clone, Copy, PartialEq, Eq, Structural)]
pub enum AuthorityState {
    /// Every required bank passed.
    Admitted,
    /// A measured bank failed. Final.
    Refused,
    /// Passing so far, with fewer banks than required.
    Pending,
}

/// Some bank failed.
pub open spec fn some_failed(s: Seq<BankOutcome>) -> bool {
    exists|i: int| 0 <= i < s.len() && !(#[trigger] s[i]).passed_contract
}

/// Some bank passed.
pub open spec fn some_passed(s: Seq<BankOutcome>) -> bool {
    exists|i: int| 0 <= i < s.len() && (#[trigger] s[i]).passed_contract
}

/// What the banks' verdicts admit.
pub open spec fn admission(s: Seq<BankOutcome>, banks_required: nat) -> AuthorityState {
    if some_failed(s) {
        AuthorityState::Refused
    } else if s.len() >= banks_required && s.len() > 0 {
        AuthorityState::Admitted
    } else {
        AuthorityState::Pending
    }
}

impl AuthorityState {
    /// The state's name.
    pub fn name(&self) -> (r: &'static str)
        ensures
            r@ == (match self {
                AuthorityState::Admitted => "Admitted"@,
                AuthorityState::Refused => "Refused"@,
                AuthorityState::Pending => "Pending"@,
            }),
    {
        match self {
            AuthorityState::Admitted => "Admitted",
            AuthorityState::Refused => "Refused",
            AuthorityState::Pending => "Pending",
        }
    }

    /// Admission, from the banks' verdicts alone.
    pub fn of(outcomes: &[BankOutcome], banks_required: usize) -> (r: AuthorityState)
        ensures
            r == admission(outcomes@, banks_required as nat),
    {
        let n: usize = outcomes.len();
        let mut i: usize = 0;
        while i < n
            invariant
                i <= n,
                n == outcomes@.len(),
                forall|k: int| 0 <= k < i ==> (#[trigger] outcomes@[k]).passed_contract,
            decreases n - i,
        {
            if !outcomes[i].passed_contract {
                assert(some_failed(outcomes@));
                return AuthorityState::Refused;
            }
            i = i + 1;
        }
        if n >= banks_required && n > 0 {
            AuthorityState::Admitted
        } else {
            AuthorityState::Pending
        }
    }

    /// Whether the banks required have spoken: the state is no longer pending.
    /// A refusal stands whatever comes; an admission stands until a bank
    /// refuses.
    pub fn is_final(&self) -> (r: bool)
        ensures
            r == (self is Admitted || self is Refused),
    {
        matches!(self, AuthorityState::Admitted | AuthorityState::Refused)
    }
}

/// **How decisive the evidence is.** Never consulted by the contract.
#[derive(Debug, Clone, Copy, PartialEq, Eq, Structural)]
pub enum Robustness {
    /// One bank only.
    Unreplicated,
    /// Replicated pass, worst bank clear of the threshold.
    ReplicatedInterior,
    /// Replicated, but the worst bank sits inside the guard.
    BoundaryAdjacent,
    /// Replicated refusal, worst bank beyond the threshold.
    ReplicatedRefusal,
    /// The banks disagree on the verdict.
    CrossBankDisagreement,
}

/// How decisive the verdicts are, with the worst bank at `worst`.
pub open spec fn decisiveness(s: Seq<BankOutcome>, worst: BandPosition) -> Robustness {
    if s.len() < 2 {
        Robustness::Unreplicated
    } else if some_passed(s) && some_failed(s) {
        Robustness::CrossBankDisagreement
    } else if some_passed(s) {
        if worst is ClearOfThreshold {
            Robustness::ReplicatedInterior
        } else {
            Robustness::BoundaryAdjacent
        }
    } else {
        if worst is BeyondThreshold {
            Robustness::ReplicatedRefusal
        } else {
            Robustness::BoundaryAdjacent
        }
    }
}

impl Robustness {
    /// The state's name.
    pub fn name(&self) -> (r: &'static str)
        ensures
            r@ == (match self {
                Robustness::Unreplicated => "Unreplicated"@,
                Robustness::ReplicatedInterior => "ReplicatedInterior"@,
                Robustness::BoundaryAdjacent => "BoundaryAdjacent"@,
                Robustness::ReplicatedRefusal => "ReplicatedRefusal"@,
                Robustness::CrossBankDisagreement => "CrossBankDisagreement"@,
            }),
    {
        match self {
            Robustness::Unreplicated => "Unreplicated",
            Robustness::ReplicatedInterior => "ReplicatedInterior",
            Robustness::BoundaryAdjacent => "BoundaryAdjacent",
            Robustness::ReplicatedRefusal => "ReplicatedRefusal",
            Robustness::CrossBankDisagreement => "CrossBankDisagreement",
        }
    }

    /// Decisiveness, from the banks' verdicts and the place of the highest
    /// binding value relative to the guard.
    pub fn of(outcomes: &[BankOutcome], worst: BandPosition) -> (r: Robustness)
        ensures
            r == decisiveness(outcomes@, worst),
    {
        let n: usize = outcomes.len();
        if n < 2 {
            return Robustness::Unreplicated;
        }
        let mut passed: bool = false;
        let mut failed: bool = false;
        let mut i: usize = 0;
        while i < n
            invariant
                i <= n,
                n == outcomes@.len(),
                passed <==> exists|k: int|
                    0 <= k < i && (#[trigger] outcomes@[k]).passed_contract,
                failed <==> exists|k: int|
                    0 <= k < i && !(#[trigger] outcomes@[k]).passed_contract,
            decreases n - i,
        {
            if outcomes[i].passed_contract {
                passed = true;
                assert(outcomes@[i as int].passed_contract);
            } else {
                failed = true;
                assert(!outcomes@[i as int].passed_contract);
            }
            i = i + 1;
        }
        if passed && failed {
            Robustness::CrossBankDisagreement
        } else if passed {
            match worst {
                BandPosition::ClearOfThreshold => Robustness::ReplicatedInterior,
                _ => Robustness::BoundaryAdjacent,
            }
        } else {
            match worst {
                BandPosition::BeyondThreshold => Robustness::ReplicatedRefusal,
                _ => Robustness::BoundaryAdjacent,
            }
        }
    }

    /// Whether a search should treat the map's place as uncertain. It is not
    /// a probability of passing.
    pub fn is_low_confidence(&self) -> (r: bool)
        ensures
            r == (self is Unreplicated || self is BoundaryAdjacent
                || self is CrossBankDisagreement),
    {
        matches!(
            self,
            Robustness::Unreplicated | Robustness::BoundaryAdjacent
                | Robustness::CrossBankDisagreement
        )
    }
}

/// The larger of two readings; a NaN gives way to the other.
pub open spec fn larger(a: Reading, b: Reading) -> Reading {
    if a.is_nan() || b.above(a) {
        b
    } else {
        a
    }
}

/// The largest binding value.
pub open spec fn worst_of(s: Seq<BankOutcome>) -> Option<Reading>
    decreases s.len(),
{
    if s.len() == 0 {
        None
    } else {
        match worst_of(s.drop_last()) {
            None => Some(s.last().binding_value),
            Some(w) => Some(larger(w, s.last().binding_value)),
        }
    }
}

/// The largest binding value, if any bank ran.
pub fn worst_binding_of(outcomes: &[BankOutcome]) -> (r: Option<Reading>)
    ensures
        r == worst_of(outcomes@),
{
    let n: usize = outcomes.len();
    let mut worst: Option<Reading> = None;
    let mut i: usize = 0;
    assert(outcomes@.take(0) =~= Seq::<BankOutcome>::empty());
    while i < n
        invariant
            i <= n,
            n == outcomes@.len(),
            worst == worst_of(outcomes@.take(i as int)),
        decreases n - i,
    {
        let ghost next = outcomes@.take(i as int + 1);
        assert(next.drop_last() =~= outcomes@.take(i as int));
        let value: Reading = outcomes[i].binding_value;
        worst = match worst {
            None => Some(value),
            Some(w) => if w.nan() || value.exceeds(w) {
                Some(value)
            } else {
                Some(w)
            },
        };
        i = i + 1;
    }
    assert(outcomes@.take(n as int) =~= outcomes@);
    worst
}

/// The bits of negative infinity.
pub const NEGATIVE_INFINITE: u64 = 0xfff0_0000_0000_0000;

/// The largest binding value that is a number; negative infinity where there
/// is none.
pub open spec fn height_of(s: Seq<BankOutcome>) -> Reading
    decreases s.len(),
{
    if s.len() == 0 {
        Reading { bits: NEGATIVE_INFINITE }
    } else {
        larger(height_of(s.drop_last()), s.last().binding_value)
    }
}

/// The largest binding value that is a number; negative infinity where there
/// is none. Its place relative to the guard is what [`Robustness::of`] reads.
pub fn highest_binding(outcomes: &[BankOutcome]) -> (r: Reading)
    ensures
        r == height_of(outcomes@),
        !r.is_nan(),
        forall|i: int|
            0 <= i < outcomes@.len() && !(#[trigger] outcomes@[i]).binding_value.is_nan()
                ==> outcomes@[i].binding_value.within(r),
{
    let n: usize = outcomes.len();
    let mut worst: Reading = Reading::from_bits(NEGATIVE_INFINITE);
    let mut i: usize = 0;
    assert(outcomes@.take(0) =~= Seq::<BankOutcome>::empty());
    while i < n
        invariant
            i <= n,
            n == outcomes@.len(),
            worst == height_of(outcomes@.take(i as int)),
            !worst.is_nan(),
            forall|k: int|
                0 <= k < i && !(#[trigger] outcomes@[k]).binding_value.is_nan()
                    ==> outcomes@[k].binding_value.within(worst),
        decreases n - i,
    {
        let ghost next = outcomes@.take(i as int + 1);
        assert(next.drop_last() =~= outcomes@.take(i as int));
        let value: Reading = outcomes[i].binding_value;
        if value.exceeds(worst) {
            worst = value;
        }
        i = i + 1;
    }
    assert(outcomes@.take(n as int) =~= outcomes@);
    worst
}

/// A map's complete record: the contract's answer and the evidence's
/// decisiveness, side by side.
#[derive(Debug, Clone, PartialEq)]
pub struct MapOutcome {
    pub authority: AuthorityState,
    pub robustness: Robustness,
    /// The verdicts both were derived from.
    pub outcomes: Vec<BankOutcome>,
}

impl MapOutcome {
    /// Derive both from the same evidence, independently. `worst` is the
    /// place of the highest binding value relative to the guard.
    pub fn of(
        outcomes: Vec<BankOutcome>,
        worst: BandPosition,
        banks_required: usize,
    ) -> (r: MapOutcome)
        ensures
            r.authority == admission(outcomes@, banks_required as nat),
            r.robustness == decisiveness(outcomes@, worst),
            r.outcomes == outcomes,
    {
        MapOutcome {
            authority: AuthorityState::of(outcomes.as_slice(), banks_required),
            robustness: Robustness::of(outcomes.as_slice(), worst),
            outcomes,
        }
    }

    /// The largest binding value, if any bank ran.
    pub fn worst_binding(&self) -> (r: Option<Reading>)
        ensures
            r == worst_of(self.outcomes@),
    {
        worst_binding_of(self.outcomes.as_slice())
    }
}

/// **A refusal is final.** Whatever banks run besides, before or after, a map
/// one bank refused stays refused.
pub proof fn law_a_refusal_is_final(
    s: Seq<BankOutcome>,
    more: Seq<BankOutcome>,
    banks_required: nat,
    then_required: nat,
)
    requires
        admission(s, banks_required) is Refused,
    ensures
        admission(s + more, then_required) is Refused,
        admission(more + s, then_required) is Refused,
{
    let i = choose|i: int| 0 <= i < s.len() && !(#[trigger] s[i]).passed_contract;
    assert((s + more)[i] == s[i]);
    assert((more + s)[more.len() + i] == s[i]);
}

/// **No evidence admits nothing**, whatever is required.
pub proof fn law_no_evidence_is_pending(banks_required: nat)
    ensures
        admission(Seq::empty(), banks_required) is Pending,
{
}

/// **Decisiveness never decides admission.** Maps with the same verdicts are
/// admitted alike, wherever their readings stand.
pub proof fn law_admission_reads_verdicts_alone(
    a: Seq<BankOutcome>,
    b: Seq<BankOutcome>,
    banks_required: nat,
)
    requires
        a.len() == b.len(),
        forall|i: int|
            0 <= i < a.len() ==> (#[trigger] a[i]).passed_contract == b[i].passed_contract,
    ensures
        admission(a, banks_required) == admission(b, banks_required),
{
    if some_failed(a) {
        let i = choose|i: int| 0 <= i < a.len() && !(#[trigger] a[i]).passed_contract;
        assert(!b[i].passed_contract);
    }
    if some_failed(b) {
        let i = choose|i: int| 0 <= i < b.len() && !(#[trigger] b[i]).passed_contract;
        assert(a[i].passed_contract == b[i].passed_contract);
    }
}

/// **One failure refuses, enough passes admit, and the rest is pending.**
pub proof fn law_what_decides_admission(s: Seq<BankOutcome>, banks_required: nat)
    ensures
        admission(s, banks_required) is Refused <==> exists|i: int|
            0 <= i < s.len() && !(#[trigger] s[i]).passed_contract,
        admission(s, banks_required) is Admitted <==> 0 < s.len() && banks_required <= s.len()
            && forall|i: int| 0 <= i < s.len() ==> (#[trigger] s[i]).passed_contract,
        admission(s, banks_required) is Pending <==> (s.len() == 0 || s.len() < banks_required)
            && forall|i: int| 0 <= i < s.len() ==> (#[trigger] s[i]).passed_contract,
{
    if !some_failed(s) {
        assert forall|i: int| 0 <= i < s.len() implies (#[trigger] s[i]).passed_contract by {}
    }
}

/// **How decisive the evidence is, case by case.** One bank replicates
/// nothing; banks that differ disagree; banks that agree are decisive where
/// the worst of them stands clear on their own side of the guard.
pub proof fn law_how_decisive_evidence_is(s: Seq<BankOutcome>, worst: BandPosition)
    ensures
        decisiveness(s, worst) is Unreplicated <==> s.len() <= 1,
        decisiveness(s, worst) is CrossBankDisagreement <==> exists|i: int, j: int|
            0 <= i < s.len() && 0 <= j < s.len() && (#[trigger] s[i]).passed_contract
                && !(#[trigger] s[j]).passed_contract,
        decisiveness(s, worst) is ReplicatedInterior <==> s.len() >= 2 && worst
            == BandPosition::ClearOfThreshold && forall|i: int|
            0 <= i < s.len() ==> (#[trigger] s[i]).passed_contract,
        decisiveness(s, worst) is ReplicatedRefusal <==> s.len() >= 2 && worst
            == BandPosition::BeyondThreshold && forall|i: int|
            0 <= i < s.len() ==> !(#[trigger] s[i]).passed_contract,
{
    if s.len() >= 2 {
        if some_passed(s) && some_failed(s) {
            let i = choose|i: int| 0 <= i < s.len() && (#[trigger] s[i]).passed_contract;
            let j = choose|j: int| 0 <= j < s.len() && !(#[trigger] s[j]).passed_contract;
            assert(s[i].passed_contract && !s[j].passed_contract);
        }
        if forall|i: int| 0 <= i < s.len() ==> (#[trigger] s[i]).passed_contract {
            assert(s[0].passed_contract);
            assert(some_passed(s) && !some_failed(s));
        } else {
            assert(some_failed(s));
        }
        if forall|i: int| 0 <= i < s.len() ==> !(#[trigger] s[i]).passed_contract {
            assert(!s[0].passed_contract);
            assert(!some_passed(s) && some_failed(s));
        } else {
            assert(some_passed(s));
        }
    }
}

/// **A margin within one band decides nothing.** More than a band inside the
/// threshold is clear of it, more than a band outside is beyond it, and a
/// margin that is no number is neither.
pub proof fn law_where_a_margin_stands(guard: DisagreementGuard, margin: Reading)
    requires
        guard.band.above(Reading { bits: 0 }),
    ensures
        guard.place_of(margin) is ClearOfThreshold <==> margin.above(guard.band),
        guard.place_of(margin) is BeyondThreshold <==> margin.opposite().above(guard.band),
        margin.is_nan() ==> guard.place_of(margin) is Indeterminate,
        margin.within(guard.band) && margin.opposite().within(guard.band) ==> guard.place_of(
            margin,
        ) is Indeterminate,
{
}

/// **The worst binding is one of the values, and no value is above it.** A
/// value that is no number is worst only where there is no number.
pub proof fn law_the_worst_is_the_largest(s: Seq<BankOutcome>)
    ensures
        worst_of(s) is None <==> s.len() == 0,
        worst_of(s) matches Some(w) ==> exists|i: int|
            0 <= i < s.len() && (#[trigger] s[i]).binding_value == w,
        worst_of(s) matches Some(w) ==> forall|i: int|
            0 <= i < s.len() && !(#[trigger] s[i]).binding_value.is_nan()
                ==> s[i].binding_value.within(w),
    decreases s.len(),
{
    if s.len() > 0 {
        let before = s.drop_last();
        law_the_worst_is_the_largest(before);
        let w = worst_of(s)->0;
        let last = s.last().binding_value;
        assert(s[s.len() - 1].binding_value == last);
        if before.len() > 0 {
            let v = worst_of(before)->0;
            if w == v {
                let i = choose|i: int|
                    0 <= i < before.len() && (#[trigger] before[i]).binding_value == v;
                assert(s[i].binding_value == w);
            }
            assert forall|i: int|
                0 <= i < s.len() && !(#[trigger] s[i]).binding_value.is_nan() implies s[i].binding_value.within(
                w,
            ) by {
                if i < s.len() - 1 {
                    assert(before[i] == s[i]);
                }
            }
        } else {
            assert forall|i: int| 0 <= i < s.len() implies #[trigger] s[i] == s.last() by {}
        }
    }
}

/// **The highest binding is the largest number there is**, and negative
/// infinity where there is none.
pub proof fn law_the_highest_is_the_largest_number(s: Seq<BankOutcome>)
    ensures
        !height_of(s).is_nan(),
        forall|i: int|
            0 <= i < s.len() && !(#[trigger] s[i]).binding_value.is_nan()
                ==> s[i].binding_value.within(height_of(s)),
        height_of(s).bits == 0xfff0_0000_0000_0000 || exists|i: int|
            0 <= i < s.len() && (#[trigger] s[i]).binding_value == height_of(s),
    decreases s.len(),
{
    if s.len() > 0 {
        let before = s.drop_last();
        law_the_highest_is_the_largest_number(before);
        assert(s[s.len() - 1].binding_value == s.last().binding_value);
        assert forall|i: int|
            0 <= i < s.len() && !(#[trigger] s[i]).binding_value.is_nan() implies s[i].binding_value.within(
            height_of(s),
        ) by {
            if i < s.len() - 1 {
                assert(before[i] == s[i]);
            }
        }
        if height_of(s) == height_of(before) && height_of(s).bits != 0xfff0_0000_0000_0000 {
            let i = choose|i: int|
                0 <= i < before.len() && (#[trigger] before[i]).binding_value == height_of(before);
            assert(s[i].binding_value == height_of(s));
        }
    }
}

} // verus!

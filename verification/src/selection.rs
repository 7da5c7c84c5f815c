//! Promotion: evidence to precision map.
//!
//! The one step that turns measurements into authority. A backend supporting
//! a format is capability, never authority: a record may be fast, small and
//! natively dispatched and still not promotable, because none of that is
//! evidence about the model's output distribution. Only a quality bank is.
use crate::experiment::{named, RepresentationExperiment, RoleScope};
use crate::map::{excepted, Exception, PrecisionMap};
use crate::policy::Role;
use crate::quality::{failures_of, passes, QualityVerdict};
use crate::reading::{worded, Phrase, Piece, Shown};
use crate::text::{decimal, push_decimal, same};
use vstd::prelude::*;
use vstd::string::*;

verus! {

/// Why a candidate could not be promoted: one variant per missing fact.
#[derive(Debug, PartialEq, Eq)]
pub enum Refusal {
    /// No logit-level bank has been run for this scope.
    QualityUnproven,
    /// A bank was run and the quality gate refused it.
    QualityGateFailed { verdict: Phrase },
    /// Throughput came from a decoded stand-in, not the format's kernel.
    NotNativelyMeasured,
    /// The ladder says something earlier is missing.
    LadderIncomplete,
    /// Two records claim the same scope with different encodings.
    ConflictingCandidates { other: String },
}

/// What a refusal says.
pub enum Grounds {
    QualityUnproven,
    QualityGateFailed(Seq<Shown>),
    NotNativelyMeasured,
    LadderIncomplete,
    ConflictingCandidates(Seq<char>),
}

impl View for Refusal {
    type V = Grounds;

    open spec fn view(&self) -> Grounds {
        match *self {
            Refusal::QualityUnproven => Grounds::QualityUnproven,
            Refusal::QualityGateFailed { verdict } => Grounds::QualityGateFailed(verdict@),
            Refusal::NotNativelyMeasured => Grounds::NotNativelyMeasured,
            Refusal::LadderIncomplete => Grounds::LadderIncomplete,
            Refusal::ConflictingCandidates { other } => Grounds::ConflictingCandidates(other@),
        }
    }
}

impl Clone for Refusal {
    fn clone(&self) -> (r: Self)
        ensures
            r@ == self@,
    {
        match self {
            Refusal::QualityUnproven => Refusal::QualityUnproven,
            Refusal::QualityGateFailed { verdict } => Refusal::QualityGateFailed {
                verdict: verdict.copy(),
            },
            Refusal::NotNativelyMeasured => Refusal::NotNativelyMeasured,
            Refusal::LadderIncomplete => Refusal::LadderIncomplete,
            Refusal::ConflictingCandidates { other } => Refusal::ConflictingCandidates {
                other: other.clone(),
            },
        }
    }
}

impl Grounds {
    /// The refusal in words.
    pub open spec fn described(self) -> Seq<Shown> {
        match self {
            Grounds::QualityUnproven => worded(
                "no logit-level quality bank has been run for this scope; component error is evidence about the component, not about the model's output distribution"@,
            ),
            Grounds::QualityGateFailed(verdict) => verdict,
            Grounds::NotNativelyMeasured => worded(
                "throughput came from a decoded stand-in rather than this format's own kernel"@,
            ),
            Grounds::LadderIncomplete => worded(
                "the representation is not yet represented/available/runnable/measured"@,
            ),
            Grounds::ConflictingCandidates(other) => worded(
                "another candidate ("@ + other
                    + ") claims the same scope; a scope has one selected representation, so the tie must be broken by policy before promotion"@,
            ),
        }
    }
}

impl Refusal {
    /// The refusal in words.
    pub fn describe(&self) -> (r: Phrase)
        ensures
            r@ == self@.described(),
    {
        match self {
            Refusal::QualityUnproven => Phrase::words(
                "no logit-level quality bank has been run for this scope; component error is evidence about the component, not about the model's output distribution".to_owned(),
            ),
            Refusal::QualityGateFailed { verdict } => verdict.copy(),
            Refusal::NotNativelyMeasured => Phrase::words(
                "throughput came from a decoded stand-in rather than this format's own kernel".to_owned(),
            ),
            Refusal::LadderIncomplete => Phrase::words(
                "the representation is not yet represented/available/runnable/measured".to_owned(),
            ),
            Refusal::ConflictingCandidates { other } => {
                let mut s: String = "another candidate (".to_owned();
                s.append(other.as_str());
                s.append(
                    ") claims the same scope; a scope has one selected representation, so the tie must be broken by policy before promotion",
                );
                Phrase::words(s)
            },
        }
    }
}

/// One candidate's verdict.
#[derive(Debug, PartialEq, Eq)]
pub struct Verdict {
    pub scope: RoleScope,
    pub target: String,
    pub outcome: Result<(), Refusal>,
}

impl Verdict {
    /// The outcome, by what a refusal says.
    pub open spec fn ruling(&self) -> Result<(), Grounds> {
        match self.outcome {
            Ok(_) => Ok(()),
            Err(r) => Err(r@),
        }
    }
}

impl Clone for Verdict {
    fn clone(&self) -> (r: Self)
        ensures
            r.scope == self.scope,
            r.target == self.target,
            r.ruling() == self.ruling(),
    {
        let outcome: Result<(), Refusal> = match &self.outcome {
            Ok(_) => Ok(()),
            Err(refusal) => Err(refusal.clone()),
        };
        Verdict { scope: self.scope.clone(), target: self.target.clone(), outcome }
    }
}

/// The result of considering a set of candidates.
#[derive(Debug, Clone, PartialEq, Eq)]
pub struct Promotion {
    /// The map the promotable evidence justifies.
    pub map: PrecisionMap,
    /// Every candidate considered, promoted or refused, in input order.
    pub verdicts: Vec<Verdict>,
}

/// What a candidate lacks on its own evidence, rivals aside.
pub open spec fn lacks(c: RepresentationExperiment) -> Option<Grounds> {
    match c.quality {
        None => Some(Grounds::QualityUnproven),
        Some(q) => if !passes(q.gate, q.bank) {
            Some(
                Grounds::QualityGateFailed(
                    seq![
                        Shown::Words("failed "@),
                        Shown::Words(q.gate.id@),
                        Shown::Words(" — "@),
                    ] + crate::quality::listed(failures_of(q.gate, q.bank)),
                ),
            )
        } else if !c.provenance.native_kernel {
            Some(Grounds::NotNativelyMeasured)
        } else if !(c.status.represented && c.status.available && c.status.runnable
            && c.status.measured) {
            Some(Grounds::LadderIncomplete)
        } else {
            None
        },
    }
}

/// `j` is eligible, claims the scope of `i`, and names another encoding.
pub open spec fn rivals(
    candidates: Seq<RepresentationExperiment>,
    i: int,
    j: int,
) -> bool {
    &&& lacks(candidates[j]) is None
    &&& candidates[i].scope.coincides(&candidates[j].scope)
    &&& candidates[i].target@ != candidates[j].target@
}

/// The first rival of `i` from `from` on, or the number of candidates.
pub open spec fn first_rival(
    candidates: Seq<RepresentationExperiment>,
    i: int,
    from: int,
) -> int
    decreases candidates.len() - from,
{
    if from >= candidates.len() || rivals(candidates, i, from) {
        from
    } else {
        first_rival(candidates, i, from + 1)
    }
}

/// What is decided about candidate `i`.
pub open spec fn ruled(candidates: Seq<RepresentationExperiment>, i: int) -> Result<(), Grounds> {
    match lacks(candidates[i]) {
        Some(g) => Err(g),
        None => {
            let j = first_rival(candidates, i, 0);
            if j < candidates.len() {
                Err(Grounds::ConflictingCandidates(candidates[j].target@))
            } else {
                Ok(())
            }
        },
    }
}

/// The roles of the promoted among the first `n`, each named once, in order
/// of first promotion.
pub open spec fn promoted_roles(candidates: Seq<RepresentationExperiment>, n: int) -> Seq<Seq<char>>
    decreases n,
{
    if n <= 0 {
        Seq::empty()
    } else {
        let earlier = promoted_roles(candidates, n - 1);
        let title = candidates[n - 1].scope.role.title();
        if ruled(candidates, n - 1) is Ok && !earlier.contains(title) {
            earlier.push(title)
        } else {
            earlier
        }
    }
}

/// A promoted candidate needs an exception where its encoding is not the
/// map's default, or its scope is narrower than the role.
pub open spec fn needs_exception(c: RepresentationExperiment, default: Seq<char>) -> bool {
    c.target@ != default || c.scope.projection is Some || c.scope.layers is Some
}

/// The role, projection and layers an exception governs, and what it decides.
pub type Governed = (Option<Role>, Option<Seq<char>>, Option<(u32, u32)>, Option<Seq<char>>);

/// An exception, by what it governs and decides.
pub open spec fn exception_of(e: Exception) -> Governed {
    (e.role, named(e.projection), e.layers, e.decision())
}

/// What a promoted candidate's exception governs and decides.
pub open spec fn granted(c: RepresentationExperiment) -> Governed {
    (Some(c.scope.role), named(c.scope.projection), c.scope.layers, Some(c.target@))
}

/// The exceptions of the promoted among the first `n`.
pub open spec fn promoted_exceptions(
    candidates: Seq<RepresentationExperiment>,
    default: Seq<char>,
    n: int,
) -> Seq<Governed>
    decreases n,
{
    if n <= 0 {
        Seq::empty()
    } else {
        let earlier = promoted_exceptions(candidates, default, n - 1);
        let c = candidates[n - 1];
        if ruled(candidates, n - 1) is Ok && needs_exception(c, default) {
            earlier.push(granted(c))
        } else {
            earlier
        }
    }
}

/// The texts of a list of strings.
pub open spec fn texts(v: Seq<String>) -> Seq<Seq<char>> {
    v.map_values(|s: String| s@)
}

/// What a list of exceptions governs and decides.
pub open spec fn exceptions_of(v: Seq<Exception>) -> Seq<Governed> {
    v.map_values(|e: Exception| exception_of(e))
}

fn eligibility(c: &RepresentationExperiment) -> (r: Option<Refusal>)
    ensures
        match r {
            Some(g) => lacks(*c) == Some(g@),
            None => lacks(*c) is None,
        },
{
    match &c.quality {
        None => Some(Refusal::QualityUnproven),
        Some(q) => {
            let v: QualityVerdict = q.verdict();
            if !v.passed() {
                Some(Refusal::QualityGateFailed { verdict: v.describe() })
            } else if !c.supports_throughput_claim() {
                Some(Refusal::NotNativelyMeasured)
            } else if !c.status.ladder_complete() {
                Some(Refusal::LadderIncomplete)
            } else {
                None
            }
        },
    }
}

fn find_rival(
    candidates: &[RepresentationExperiment],
    eligible: &Vec<Option<Refusal>>,
    i: usize,
) -> (r: usize)
    requires
        i < candidates@.len(),
        eligible@.len() == candidates@.len(),
        forall|j: int|
            0 <= j < candidates@.len() ==> ((#[trigger] eligible@[j]) is None <==> lacks(
                candidates@[j],
            ) is None),
    ensures
        r == first_rival(candidates@, i as int, 0),
        r <= candidates@.len(),
{
    let mut j: usize = 0;
    while j < candidates.len()
        invariant
            i < candidates@.len(),
            j <= candidates@.len(),
            eligible@.len() == candidates@.len(),
            forall|k: int|
                0 <= k < candidates@.len() ==> ((#[trigger] eligible@[k]) is None <==> lacks(
                    candidates@[k],
                ) is None),
            first_rival(candidates@, i as int, 0) == first_rival(candidates@, i as int, j as int),
        decreases candidates@.len() - j,
    {
        assert(eligible@[j as int] is None <==> lacks(candidates@[j as int]) is None);
        if eligible[j].is_none() && candidates[i].scope.same_scope(&candidates[j].scope) && !same(
            candidates[i].target.as_str(),
            candidates[j].target.as_str(),
        ) {
            return j;
        }
        j = j + 1;
    }
    j
}

fn name_role(roles: &mut Vec<String>, role: Role)
    ensures
        texts(final(roles)@) == (if texts(old(roles)@).contains(role.title()) {
            texts(old(roles)@)
        } else {
            texts(old(roles)@).push(role.title())
        }),
{
    let ghost before = texts(roles@);
    let mut i: usize = 0;
    while i < roles.len()
        invariant
            i <= roles@.len(),
            before == texts(roles@),
            before.len() == roles@.len(),
            forall|j: int| 0 <= j < i ==> #[trigger] before[j] != role.title(),
            *roles == *old(roles),
        decreases roles@.len() - i,
    {
        assert(before[i as int] == roles@[i as int]@);
        if same(roles[i].as_str(), role.name()) {
            assert(before.contains(role.title()));
            return ;
        }
        i = i + 1;
    }
    roles.push(role.name().to_owned());
    assert(texts(roles@) =~= before.push(role.title()));
}

/// Build the precision map that `candidates` justify.
///
/// Never fails: unpromotable candidates become refusals in the report and are
/// absent from the map, so the fail-safe direction is source precision.
pub fn promote(
    name: String,
    default_encoding: String,
    candidates: &[RepresentationExperiment],
) -> (r: Promotion)
    ensures
        r.map.name@ == name@,
        r.map.encoding@ == default_encoding@,
        texts(r.map.roles@) == promoted_roles(candidates@, candidates@.len() as int),
        exceptions_of(r.map.exceptions@) == promoted_exceptions(
            candidates@,
            default_encoding@,
            candidates@.len() as int,
        ),
        r.verdicts@.len() == candidates@.len(),
        forall|i: int|
            0 <= i < candidates@.len() ==> {
                &&& (#[trigger] r.verdicts@[i]).scope == candidates@[i].scope
                &&& r.verdicts@[i].target@ == candidates@[i].target@
                &&& r.verdicts@[i].ruling() == ruled(candidates@, i)
            },
{
    // Per-candidate evidence first: several candidates for one scope is the
    // normal state, and a tie is only a tie between candidates that would
    // otherwise be selected.
    let mut eligible: Vec<Option<Refusal>> = Vec::new();
    let mut i: usize = 0;
    while i < candidates.len()
        invariant
            i <= candidates@.len(),
            eligible@.len() == i,
            forall|j: int|
                0 <= j < i ==> match #[trigger] eligible@[j] {
                    Some(g) => lacks(candidates@[j]) == Some(g@),
                    None => lacks(candidates@[j]) is None,
                },
        decreases candidates@.len() - i,
    {
        eligible.push(eligibility(&candidates[i]));
        i = i + 1;
    }
    let mut verdicts: Vec<Verdict> = Vec::new();
    let mut roles: Vec<String> = Vec::new();
    let mut exceptions: Vec<Exception> = Vec::new();
    assert(texts(roles@) =~= promoted_roles(candidates@, 0));
    assert(exceptions_of(exceptions@) =~= promoted_exceptions(
        candidates@,
        default_encoding@,
        0,
    ));
    let mut k: usize = 0;
    while k < candidates.len()
        invariant
            k <= candidates@.len(),
            eligible@.len() == candidates@.len(),
            forall|j: int|
                0 <= j < candidates@.len() ==> match #[trigger] eligible@[j] {
                    Some(g) => lacks(candidates@[j]) == Some(g@),
                    None => lacks(candidates@[j]) is None,
                },
            verdicts@.len() == k,
            forall|j: int|
                0 <= j < k ==> {
                    &&& (#[trigger] verdicts@[j]).scope == candidates@[j].scope
                    &&& verdicts@[j].target@ == candidates@[j].target@
                    &&& verdicts@[j].ruling() == ruled(candidates@, j)
                },
            texts(roles@) == promoted_roles(candidates@, k as int),
            exceptions_of(exceptions@) == promoted_exceptions(
                candidates@,
                default_encoding@,
                k as int,
            ),
        decreases candidates@.len() - k,
    {
        let c: &RepresentationExperiment = &candidates[k];
        assert(match eligible@[k as int] {
            Some(g) => lacks(candidates@[k as int]) == Some(g@),
            None => lacks(candidates@[k as int]) is None,
        });
        let outcome: Result<(), Refusal> = match &eligible[k] {
            Some(_) => match eligibility(c) {
                Some(r) => Err(r),
                None => Ok(()),
            },
            None => {
                let j: usize = find_rival(candidates, &eligible, k);
                if j < candidates.len() {
                    Err(
                        Refusal::ConflictingCandidates { other: candidates[j].target.clone() },
                    )
                } else {
                    name_role(&mut roles, c.scope.role);
                    if !same(c.target.as_str(), default_encoding.as_str())
                        || c.scope.projection.is_some() || c.scope.layers.is_some() {
                        let ghost before = exceptions_of(exceptions@);
                        let e: Exception = c.scope.as_exception(c.target.as_str());
                        let ghost shown = exception_of(e);
                        exceptions.push(e);
                        assert(exceptions_of(exceptions@) =~= before.push(shown));
                    }
                    Ok(())
                }
            },
        };
        verdicts.push(
            Verdict { scope: c.scope.clone(), target: c.target.clone(), outcome },
        );
        k = k + 1;
    }
    Promotion {
        map: PrecisionMap { name, encoding: default_encoding, roles, exceptions },
        verdicts,
    }
}

/// How many of the first `n` verdicts promote.
pub open spec fn promoted_among(verdicts: Seq<Verdict>, n: int) -> nat
    decreases n,
{
    if n <= 0 {
        0
    } else {
        promoted_among(verdicts, n - 1) + (if verdicts[n - 1].outcome is Ok {
            1nat
        } else {
            0nat
        })
    }
}

/// The line of one verdict.
pub open spec fn verdict_line(v: Verdict) -> Seq<Shown> {
    match v.outcome {
        Ok(_) => worded("\n  SELECTED  "@ + v.scope.role.title() + " = "@ + v.target@),
        Err(r) => worded(
            "\n  candidate "@ + v.scope.role.title() + " = "@ + v.target@ + " — "@,
        ) + r@.described(),
    }
}

/// The lines of the first `n` verdicts after a headline.
pub open spec fn verdict_lines(headline: Seq<char>, verdicts: Seq<Verdict>, n: int) -> Seq<Shown>
    decreases n,
{
    if n <= 0 {
        worded(headline)
    } else {
        verdict_lines(headline, verdicts, n - 1) + verdict_line(verdicts[n - 1])
    }
}

impl Promotion {
    /// The headline of a report.
    pub open spec fn headline(&self) -> Seq<char> {
        self.map.name@ + ": "@ + decimal(
            promoted_among(self.verdicts@, self.verdicts@.len() as int),
        ) + " of "@ + decimal(self.verdicts@.len()) + " candidates promoted"@
    }

    /// How many candidates were promoted.
    pub fn promoted(&self) -> (r: usize)
        ensures
            r == promoted_among(self.verdicts@, self.verdicts@.len() as int),
    {
        let mut n: usize = 0;
        let mut i: usize = 0;
        while i < self.verdicts.len()
            invariant
                i <= self.verdicts@.len(),
                n <= i,
                n == promoted_among(self.verdicts@, i as int),
            decreases self.verdicts@.len() - i,
        {
            if self.verdicts[i].outcome.is_ok() {
                n = n + 1;
            }
            i = i + 1;
        }
        n
    }

    /// A line per candidate, for a report or a commit message.
    pub fn describe(&self) -> (r: Phrase)
        ensures
            r@ == verdict_lines(self.headline(), self.verdicts@, self.verdicts@.len() as int),
    {
        let mut s: String = self.map.name.clone();
        s.append(": ");
        push_decimal(&mut s, self.promoted() as u64);
        s.append(" of ");
        push_decimal(&mut s, self.verdicts.len() as u64);
        s.append(" candidates promoted");
        let mut out = Phrase::words(s);
        let mut i: usize = 0;
        while i < self.verdicts.len()
            invariant
                i <= self.verdicts@.len(),
                out@ == verdict_lines(self.headline(), self.verdicts@, i as int),
            decreases self.verdicts@.len() - i,
        {
            let v: &Verdict = &self.verdicts[i];
            let ghost before = out@;
            match &v.outcome {
                Ok(_) => {
                    let mut line: String = "\n  SELECTED  ".to_owned();
                    line.append(v.scope.role.name());
                    line.append(" = ");
                    line.append(v.target.as_str());
                    out.push(Piece::Words(line));
                },
                Err(r) => {
                    let mut line: String = "\n  candidate ".to_owned();
                    line.append(v.scope.role.name());
                    line.append(" = ");
                    line.append(v.target.as_str());
                    line.append(" — ");
                    out.push(Piece::Words(line));
                    out.append(&r.describe());
                },
            }
            assert(out@ =~= before + verdict_line(*v));
            i = i + 1;
        }
        out
    }
}

/// The roles among the first `n` considered that the map does not name.
pub open spec fn left_at_source(map: PrecisionMap, considered: Seq<Role>, n: int) -> Seq<Role>
    decreases n,
{
    if n <= 0 {
        Seq::empty()
    } else {
        let earlier = left_at_source(map, considered, n - 1);
        if map.compiles(considered[n - 1]) {
            earlier
        } else {
            earlier.push(considered[n - 1])
        }
    }
}

/// Roles a map leaves at source precision, of the ones asked about. The
/// complement of a map is as much a decision as the map.
pub fn unselected(map: &PrecisionMap, considered: &[Role]) -> (r: Vec<Role>)
    ensures
        r@ == left_at_source(*map, considered@, considered@.len() as int),
{
    let mut out: Vec<Role> = Vec::new();
    let mut i: usize = 0;
    while i < considered.len()
        invariant
            i <= considered@.len(),
            out@ == left_at_source(*map, considered@, i as int),
        decreases considered@.len() - i,
    {
        if !map.names_role(considered[i]) {
            out.push(considered[i]);
        }
        i = i + 1;
    }
    out
}

proof fn lemma_first_rival(candidates: Seq<RepresentationExperiment>, i: int, from: int)
    requires
        0 <= from <= candidates.len(),
    ensures
        from <= first_rival(candidates, i, from) <= candidates.len(),
        first_rival(candidates, i, from) < candidates.len() ==> rivals(
            candidates,
            i,
            first_rival(candidates, i, from),
        ),
        forall|j: int|
            from <= j < first_rival(candidates, i, from) ==> !rivals(candidates, i, j),
    decreases candidates.len() - from,
{
    if from < candidates.len() && !rivals(candidates, i, from) {
        lemma_first_rival(candidates, i, from + 1);
    }
}

/// **A tie refuses both.** Two candidates that each have the evidence, claim
/// one scope and name different encodings are both refused as conflicting,
/// whatever the order they came in.
pub proof fn law_a_tie_refuses_both(candidates: Seq<RepresentationExperiment>, i: int, j: int)
    requires
        0 <= i < candidates.len(),
        0 <= j < candidates.len(),
        lacks(candidates[i]) is None,
        lacks(candidates[j]) is None,
        candidates[i].scope.coincides(&candidates[j].scope),
        candidates[i].target@ != candidates[j].target@,
    ensures
        ruled(candidates, i) matches Err(Grounds::ConflictingCandidates(_)),
        ruled(candidates, j) matches Err(Grounds::ConflictingCandidates(_)),
{
    lemma_first_rival(candidates, i, 0);
    lemma_first_rival(candidates, j, 0);
    assert(rivals(candidates, i, j));
    assert(rivals(candidates, j, i));
}

/// **Only a passed gate promotes.** A promoted candidate has a quality bank
/// that passes its gate, a native measurement, and a complete ladder.
pub proof fn law_promotion_needs_evidence(candidates: Seq<RepresentationExperiment>, i: int)
    requires
        0 <= i < candidates.len(),
        ruled(candidates, i) is Ok,
    ensures
        candidates[i].quality matches Some(q) && passes(q.gate, q.bank),
        candidates[i].provenance.native_kernel,
        candidates[i].status.represented,
        candidates[i].status.available,
        candidates[i].status.runnable,
        candidates[i].status.measured,
{
}

proof fn lemma_promoted_roles(candidates: Seq<RepresentationExperiment>, n: int, title: Seq<char>)
    requires
        0 <= n <= candidates.len(),
    ensures
        promoted_roles(candidates, n).contains(title) <==> exists|i: int|
            0 <= i < n && #[trigger] ruled(candidates, i) is Ok
                && candidates[i].scope.role.title() == title,
    decreases n,
{
    if n > 0 {
        lemma_promoted_roles(candidates, n - 1, title);
        let earlier = promoted_roles(candidates, n - 1);
        let last = candidates[n - 1].scope.role.title();
        if ruled(candidates, n - 1) is Ok && !earlier.contains(last) {
            let now = earlier.push(last);
            if earlier.contains(title) {
                let k = choose|k: int| 0 <= k < earlier.len() && earlier[k] == title;
                assert(now[k] == title);
            }
            assert(now[earlier.len() as int] == last);
            if now.contains(title) && title != last {
                let k = choose|k: int| 0 <= k < now.len() && now[k] == title;
                assert(earlier[k] == title);
            }
        }
        if promoted_roles(candidates, n).contains(title) && !earlier.contains(title) {
            assert(ruled(candidates, n - 1) is Ok);
        }
    }
}

/// **A refusal costs bytes, never correctness.** A map built by promotion
/// holds a role at source precision unless some candidate of that role was
/// promoted.
pub proof fn law_unpromoted_roles_stay_at_source(
    candidates: Seq<RepresentationExperiment>,
    map: PrecisionMap,
    role: Role,
    tensor: Seq<char>,
)
    requires
        texts(map.roles@) == promoted_roles(candidates, candidates.len() as int),
        forall|i: int|
            0 <= i < candidates.len() && candidates[i].scope.role.title() == role.title()
                ==> #[trigger] ruled(candidates, i) is Err,
    ensures
        map.decides(role, tensor) is None,
{
    lemma_promoted_roles(candidates, candidates.len() as int, role.title());
    if map.compiles(role) {
        let i = choose|i: int|
            0 <= i < map.roles@.len() && (#[trigger] map.roles@[i])@ == role.title();
        assert(texts(map.roles@)[i] == role.title());
        assert(texts(map.roles@).contains(role.title()));
    }
}

/// Every exception is the grant of some promoted candidate.
proof fn lemma_exceptions_are_granted(
    candidates: Seq<RepresentationExperiment>,
    default: Seq<char>,
    n: int,
    k: int,
) -> (j: int)
    requires
        0 <= n <= candidates.len(),
        0 <= k < promoted_exceptions(candidates, default, n).len(),
    ensures
        0 <= j < n,
        ruled(candidates, j) is Ok,
        promoted_exceptions(candidates, default, n)[k] == granted(candidates[j]),
    decreases n,
{
    let earlier = promoted_exceptions(candidates, default, n - 1);
    if k < earlier.len() {
        lemma_exceptions_are_granted(candidates, default, n - 1, k)
    } else {
        n - 1
    }
}

/// The grant of every promoted candidate that needs one is an exception.
proof fn lemma_grants_are_exceptions(
    candidates: Seq<RepresentationExperiment>,
    default: Seq<char>,
    n: int,
    i: int,
) -> (k: int)
    requires
        0 <= i < n <= candidates.len(),
        ruled(candidates, i) is Ok,
        needs_exception(candidates[i], default),
    ensures
        0 <= k < promoted_exceptions(candidates, default, n).len(),
        promoted_exceptions(candidates, default, n)[k] == granted(candidates[i]),
    decreases n,
{
    let earlier = promoted_exceptions(candidates, default, n - 1);
    if i == n - 1 {
        earlier.len() as int
    } else {
        lemma_grants_are_exceptions(candidates, default, n - 1, i)
    }
}

/// Where every exception that governs a tensor decides `target`, and one does
/// or the default is `target`, the exceptions decide `target`.
proof fn lemma_agreed_exceptions(
    exceptions: Seq<Exception>,
    role: Role,
    tensor: Seq<char>,
    default: Seq<char>,
    target: Seq<char>,
)
    requires
        forall|k: int|
            0 <= k < exceptions.len() && (#[trigger] exceptions[k]).governs(role, tensor)
                ==> exceptions[k].decision() == Some(target),
        default == target || exists|k: int|
            0 <= k < exceptions.len() && (#[trigger] exceptions[k]).governs(role, tensor),
    ensures
        excepted(exceptions, role, tensor, default) == Some(target),
    decreases exceptions.len(),
{
    if exceptions.len() > 0 && !exceptions[0].governs(role, tensor) {
        let rest = exceptions.skip(1);
        assert forall|k: int|
            0 <= k < rest.len() && (#[trigger] rest[k]).governs(role, tensor) implies
            rest[k].decision() == Some(target) by {
            assert(rest[k] == exceptions[k + 1]);
        }
        if default != target {
            let k = choose|k: int|
                0 <= k < exceptions.len() && (#[trigger] exceptions[k]).governs(role, tensor);
            assert(rest[k - 1] == exceptions[k]);
        }
        lemma_agreed_exceptions(rest, role, tensor, default, target);
    }
}

/// **A promoted scope gets its own target.** A map built by promotion decides
/// a tensor of a promoted scope as that scope's candidate says, whatever was
/// promoted for other roles, unless another promoted scope of the same role
/// holds the tensor too.
pub proof fn law_a_promoted_scope_gets_its_target(
    candidates: Seq<RepresentationExperiment>,
    map: PrecisionMap,
    i: int,
    tensor: Seq<char>,
)
    requires
        texts(map.roles@) == promoted_roles(candidates, candidates.len() as int),
        exceptions_of(map.exceptions@) == promoted_exceptions(
            candidates,
            map.encoding@,
            candidates.len() as int,
        ),
        0 <= i < candidates.len(),
        ruled(candidates, i) is Ok,
        candidates[i].scope.holds(tensor),
        forall|j: int|
            0 <= j < candidates.len() && #[trigger] ruled(candidates, j) is Ok
                && candidates[j].scope.role == candidates[i].scope.role
                && candidates[j].scope.holds(tensor) ==> candidates[j].scope.coincides(
                &candidates[i].scope,
            ),
    ensures
        map.decides(candidates[i].scope.role, tensor) == Some(candidates[i].target@),
{
    let n = candidates.len() as int;
    let role = candidates[i].scope.role;
    let target = candidates[i].target@;
    lemma_promoted_roles(candidates, n, role.title());
    let t = choose|t: int|
        0 <= t < texts(map.roles@).len() && texts(map.roles@)[t] == role.title();
    assert(map.roles@[t]@ == role.title());
    assert(map.compiles(role));
    let held = exceptions_of(map.exceptions@);
    assert forall|k: int|
        0 <= k < map.exceptions@.len() && (#[trigger] map.exceptions@[k]).governs(
            role,
            tensor,
        ) implies map.exceptions@[k].decision() == Some(target) by {
        assert(held[k] == exception_of(map.exceptions@[k]));
        let j = lemma_exceptions_are_granted(candidates, map.encoding@, n, k);
        assert(ruled(candidates, j) is Ok);
        lemma_first_rival(candidates, i, 0);
        assert(!rivals(candidates, i, j));
    }
    if map.encoding@ != target {
        let k = lemma_grants_are_exceptions(candidates, map.encoding@, n, i);
        assert(held[k] == exception_of(map.exceptions@[k]));
        assert(map.exceptions@[k].governs(role, tensor));
    }
    lemma_agreed_exceptions(map.exceptions@, role, tensor, map.encoding@, target);
}

/// A candidate is eligible on its own evidence: a bank that passes its gate, a
/// native measurement, and every rung of the ladder.
pub open spec fn eligible(c: RepresentationExperiment) -> bool {
    &&& c.quality matches Some(q) && passes(q.gate, q.bank)
    &&& c.provenance.native_kernel
    &&& c.status.represented
    &&& c.status.available
    &&& c.status.runnable
    &&& c.status.measured
}

/// **What promotion takes.** A candidate is promoted exactly where its own
/// evidence makes it eligible and no eligible candidate claims its role,
/// projection and layers for another encoding. Each refusal says what was
/// missing: no bank; a bank that fails; a stand-in's throughput; a rung of the
/// ladder; or a rival, by its encoding.
pub proof fn law_what_promotion_takes(candidates: Seq<RepresentationExperiment>, i: int)
    requires
        0 <= i < candidates.len(),
    ensures
        ({
            let c = candidates[i];
            let rival = |j: int|
                0 <= j < candidates.len() && eligible(candidates[j]) && candidates[j].scope.role
                    == c.scope.role && named(candidates[j].scope.projection) == named(
                    c.scope.projection,
                ) && candidates[j].scope.layers == c.scope.layers && candidates[j].target@
                    != c.target@;
            match ruled(candidates, i) {
                Ok(_) => eligible(c) && forall|j: int| !#[trigger] rival(j),
                Err(Grounds::QualityUnproven) => c.quality is None,
                Err(Grounds::QualityGateFailed(_)) => c.quality matches Some(q) && !passes(
                    q.gate,
                    q.bank,
                ),
                Err(Grounds::NotNativelyMeasured) => !c.provenance.native_kernel && (
                c.quality matches Some(q) && passes(q.gate, q.bank)),
                Err(Grounds::LadderIncomplete) => !(c.status.represented && c.status.available
                    && c.status.runnable && c.status.measured) && c.provenance.native_kernel && (
                c.quality matches Some(q) && passes(q.gate, q.bank)),
                Err(Grounds::ConflictingCandidates(other)) => eligible(c) && exists|j: int| #[trigger]
                    rival(j) && candidates[j].target@ == other,
            }
        }),
{
    let c = candidates[i];
    lemma_first_rival(candidates, i, 0);
    let j = first_rival(candidates, i, 0);
    let rival = |j: int|
        0 <= j < candidates.len() && eligible(candidates[j]) && candidates[j].scope.role
            == c.scope.role && named(candidates[j].scope.projection) == named(c.scope.projection)
            && candidates[j].scope.layers == c.scope.layers && candidates[j].target@ != c.target@;
    assert forall|k: int| 0 <= k < candidates.len() implies (#[trigger] rival(k) <==> rivals(
        candidates,
        i,
        k,
    )) by {}
    if eligible(c) && j < candidates.len() {
        assert(rival(j));
    }
    if ruled(candidates, i) is Ok {
        assert forall|k: int| !#[trigger] rival(k) by {
            if rival(k) {
                assert(rivals(candidates, i, k));
            }
        }
    }
}

/// **What a promoted map holds.** It names a role exactly where a candidate of
/// that role is promoted; and its exceptions are exactly the promoted scopes
/// that the default does not already decide, each for its role, projection and
/// layers, with its encoding.
pub proof fn law_what_a_promoted_map_holds(
    candidates: Seq<RepresentationExperiment>,
    default: Seq<char>,
    title: Seq<char>,
    e: Governed,
)
    ensures
        promoted_roles(candidates, candidates.len() as int).contains(title) <==> exists|i: int|
            0 <= i < candidates.len() && #[trigger] ruled(candidates, i) is Ok
                && candidates[i].scope.role.title() == title,
        promoted_exceptions(candidates, default, candidates.len() as int).contains(e) <==> exists|
            i: int,
        |
            0 <= i < candidates.len() && #[trigger] ruled(candidates, i) is Ok && (
            candidates[i].target@ != default || candidates[i].scope.projection is Some
                || candidates[i].scope.layers is Some) && e == (
                Some(candidates[i].scope.role),
                named(candidates[i].scope.projection),
                candidates[i].scope.layers,
                Some(candidates[i].target@),
            ),
{
    lemma_promoted_roles(candidates, candidates.len() as int, title);
    lemma_promoted_exceptions(candidates, default, candidates.len() as int, e);
}

proof fn lemma_promoted_exceptions(
    candidates: Seq<RepresentationExperiment>,
    default: Seq<char>,
    n: int,
    e: Governed,
)
    requires
        0 <= n <= candidates.len(),
    ensures
        promoted_exceptions(candidates, default, n).contains(e) <==> exists|i: int|
            0 <= i < n && #[trigger] ruled(candidates, i) is Ok && needs_exception(
                candidates[i],
                default,
            ) && e == granted(candidates[i]),
    decreases n,
{
    if n > 0 {
        lemma_promoted_exceptions(candidates, default, n - 1, e);
        let earlier = promoted_exceptions(candidates, default, n - 1);
        let now = promoted_exceptions(candidates, default, n);
        if earlier.contains(e) {
            let k = earlier.index_of(e);
            assert(now[k] == e);
        }
        if now.contains(e) {
            let k = now.index_of(e);
            if k < earlier.len() {
                assert(earlier[k] == e);
            } else {
                assert(ruled(candidates, n - 1) is Ok);
            }
        }
        if ruled(candidates, n - 1) is Ok && needs_exception(candidates[n - 1], default) && e
            == granted(candidates[n - 1]) {
            assert(now[earlier.len() as int] == e);
        }
    }
}

/// **Promotions keep the order they came in.** What the first candidates give
/// a map stands first in it, whoever comes behind them; and no role is named
/// twice.
pub proof fn law_promotions_keep_their_order(
    candidates: Seq<RepresentationExperiment>,
    default: Seq<char>,
    m: int,
    n: int,
)
    requires
        0 <= m <= n,
    ensures
        promoted_exceptions(candidates, default, m).len() <= promoted_exceptions(
            candidates,
            default,
            n,
        ).len() <= promoted_exceptions(candidates, default, m).len() + (n - m),
        forall|k: int|
            0 <= k < promoted_exceptions(candidates, default, m).len() ==> #[trigger] promoted_exceptions(
                candidates,
                default,
                m,
            )[k] == promoted_exceptions(candidates, default, n)[k],
        promoted_roles(candidates, m).len() <= promoted_roles(candidates, n).len(),
        forall|k: int|
            0 <= k < promoted_roles(candidates, m).len() ==> #[trigger] promoted_roles(
                candidates,
                m,
            )[k] == promoted_roles(candidates, n)[k],
        promoted_roles(candidates, n).no_duplicates(),
    decreases n,
{
    if n > 0 {
        if m < n {
            law_promotions_keep_their_order(candidates, default, m, n - 1);
        } else {
            law_promotions_keep_their_order(candidates, default, n - 1, n - 1);
        }
    }
}

} // verus!

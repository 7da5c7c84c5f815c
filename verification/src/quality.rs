//! Versioned acceptance criteria, and the evidence they judge.
//!
//! Evidence carries the quality gate it was judged by, and the verdict is derived,
//! never stored: [`QualityEvidence`] holds only criteria and measurements, so
//! a passing verdict over a failing bank cannot be constructed.
//!
//! Routing evidence is kept apart from logit evidence: logits that moved
//! while routing held are an arithmetic effect, routing that moved is a
//! changed decision, and the responses differ.
use crate::ranking::{in_rank, sort_by_rank, Ranked};
use crate::reading::{worded, Phrase, Piece, Reading, Shown};
use crate::text::{decimal, push_decimal};
use vstd::prelude::*;
use vstd::string::*;

verus! {

/// Acceptance criteria, identified so a claim can name what it passed.
/// Changing a threshold means a new id.
#[derive(Debug, Clone, PartialEq)]
pub struct QualityGate {
    pub id: String,
    /// Fewest positions the bank must cover.
    pub positions_min: u64,
    pub kl_p99_max: Reading,
    /// Raw discrete-change counts. `None` means this gate does not judge on
    /// counts.
    pub top1_flip_max: Option<u64>,
    pub top10_change_max: Option<u64>,
    pub route_flip_max: Option<u64>,
    /// Consequence limits: the most probability one argmax flip may give up,
    /// the top-k mass displaced at p99, and how much of the routed mixture a
    /// layer may move.
    pub top1_mass_displaced_max: Option<Reading>,
    pub top10_mass_displaced_p99_max: Option<Reading>,
    pub route_mixture_mass_p99_max: Option<Reading>,
    pub route_mixture_mass_max: Option<Reading>,
    /// Least baseline mass the bank's truncation must have covered at its
    /// worst position.
    pub covered_mass_min: Option<Reading>,
    /// `Some(true)` refuses numbers that were not measured over the model's
    /// own activations.
    pub require_model_activations: Option<bool>,
}

/// What the bank measured about the output distribution.
#[derive(Debug, Clone, Copy, PartialEq)]
pub struct LogitEvidence {
    pub kl_p50: Reading,
    pub kl_p95: Reading,
    pub kl_p99: Reading,
    pub max_logit_delta: Reading,
    /// Positions where the argmax changed.
    pub top1_flips: u64,
    /// Positions where the top-10 set or its order changed.
    pub top10_changes: u64,
}

impl LogitEvidence {
    /// Some statistic of the output distribution is not nought.
    pub open spec fn moved(&self) -> bool {
        ||| !self.kl_p50.nought()
        ||| !self.kl_p95.nought()
        ||| !self.kl_p99.nought()
        ||| !self.max_logit_delta.nought()
        ||| self.top1_flips > 0
        ||| self.top10_changes > 0
    }

    /// Whether some statistic of the output distribution is not nought.
    pub fn have_moved(&self) -> (r: bool)
        ensures
            r == self.moved(),
    {
        !self.kl_p50.is_nought() || !self.kl_p95.is_nought() || !self.kl_p99.is_nought()
            || !self.max_logit_delta.is_nought() || self.top1_flips > 0 || self.top10_changes > 0
    }
}

/// A measured quantity's shape, not just its extremes.
#[derive(Debug, Clone, Copy, PartialEq)]
pub struct Distribution {
    pub count: u64,
    pub min: Reading,
    pub p50: Reading,
    pub p95: Reading,
    pub p99: Reading,
    pub max: Reading,
}

/// What the bank measured about routing.
#[derive(Debug, Clone, Copy, PartialEq)]
pub struct RoutingEvidence {
    /// Selected-expert changes, summed over positions and layers.
    pub route_flips: u64,
    /// Positions where any layer routed differently.
    pub positions_with_route_change: u64,
    /// Layers that ever routed differently.
    pub layers_with_route_change: u64,
    /// How close the routing decisions that changed were.
    pub route_margin: Option<Distribution>,
    /// How much mixture mass the changed routes moved.
    pub route_weight_mass_moved: Option<Distribution>,
    /// The shallowest layer that ever routed differently.
    pub first_layer_with_route_change: Option<u64>,
}

/// Where the activations behind a bank's numbers came from.
#[derive(Debug, Clone, Copy, PartialEq, Eq, Structural)]
pub enum ActivationSource {
    ModelExecution,
    Synthetic,
}

/// One bank of measurements over a fixed token sequence.
#[derive(Debug, Clone, Copy, PartialEq)]
pub struct QualityBank {
    pub positions: u64,
    pub logits: LogitEvidence,
    pub routing: RoutingEvidence,
    /// Smallest baseline probability mass any position's truncation covered.
    pub min_covered_mass: Option<Reading>,
    pub activations: Option<ActivationSource>,
    /// The baseline's gap at the top-10 boundary, where the top-10 changed.
    pub top10_margin: Option<Distribution>,
    /// The candidate's gap at the same two ids.
    pub top10_candidate_margin: Option<Distribution>,
    /// Probability mass displaced across the top-k.
    pub top10_mass_displaced: Option<Distribution>,
    /// Furthest rank move of any id.
    pub top10_rank_displacement: Option<Distribution>,
    /// How much margin the argmax flips crossed.
    pub top1_margin: Option<Distribution>,
    /// The candidate's gap over the same pair.
    pub top1_candidate_margin: Option<Distribution>,
    /// Probability the baseline gave up by switching winner.
    pub top1_mass_displaced: Option<Distribution>,
}

/// A number that may be absent, in its debug form.
pub open spec fn number_shown(x: Option<Reading>) -> Seq<Shown> {
    match x {
        None => seq![Shown::Words("None"@)],
        Some(v) => seq![Shown::Words("Some("@), Shown::Plain(v), Shown::Words(")"@)],
    }
}

/// A count that may be absent, in its debug form.
pub open spec fn count_text(n: Option<u64>) -> Seq<char> {
    match n {
        None => "None"@,
        Some(v) => "Some("@ + decimal(v as nat) + ")"@,
    }
}

/// Where activations came from, in its debug form.
pub open spec fn source_text(a: Option<ActivationSource>) -> Seq<char> {
    match a {
        None => "None"@,
        Some(ActivationSource::ModelExecution) => "Some(ModelExecution)"@,
        Some(ActivationSource::Synthetic) => "Some(Synthetic)"@,
    }
}

/// A distribution behind its field's name, in its debug form.
pub open spec fn distribution_shown(field: Seq<char>, d: Option<Distribution>) -> Seq<Shown> {
    match d {
        None => seq![Shown::Words(field), Shown::Words("None"@)],
        Some(v) => seq![
            Shown::Words(field),
            Shown::Words("Some(Distribution { count: "@ + decimal(v.count as nat) + ", min: "@),
            Shown::Plain(v.min),
            Shown::Words(", p50: "@),
            Shown::Plain(v.p50),
            Shown::Words(", p95: "@),
            Shown::Plain(v.p95),
            Shown::Words(", p99: "@),
            Shown::Plain(v.p99),
            Shown::Words(", max: "@),
            Shown::Plain(v.max),
            Shown::Words(" })"@),
        ],
    }
}

/// What was measured of the output distribution, in its debug form.
pub open spec fn logits_shown(l: LogitEvidence) -> Seq<Shown> {
    seq![
        Shown::Words("LogitEvidence { kl_p50: "@),
        Shown::Plain(l.kl_p50),
        Shown::Words(", kl_p95: "@),
        Shown::Plain(l.kl_p95),
        Shown::Words(", kl_p99: "@),
        Shown::Plain(l.kl_p99),
        Shown::Words(", max_logit_delta: "@),
        Shown::Plain(l.max_logit_delta),
        Shown::Words(
            ", top1_flips: "@ + decimal(l.top1_flips as nat) + ", top10_changes: "@ + decimal(
                l.top10_changes as nat,
            ) + " }"@,
        ),
    ]
}

/// What was measured of routing, in its debug form.
pub open spec fn routing_shown(r: RoutingEvidence) -> Seq<Shown> {
    seq![
        Shown::Words(
            "RoutingEvidence { route_flips: "@ + decimal(r.route_flips as nat)
                + ", positions_with_route_change: "@ + decimal(r.positions_with_route_change as nat)
                + ", layers_with_route_change: "@ + decimal(r.layers_with_route_change as nat),
        ),
    ] + distribution_shown(", route_margin: "@, r.route_margin) + distribution_shown(
        ", route_weight_mass_moved: "@,
        r.route_weight_mass_moved,
    ) + seq![
        Shown::Words(
            ", first_layer_with_route_change: "@ + count_text(r.first_layer_with_route_change)
                + " }"@,
        ),
    ]
}

/// What was measured across the top-k, in its debug form.
pub open spec fn top10_shown(b: QualityBank) -> Seq<Shown> {
    distribution_shown(", top10_margin: "@, b.top10_margin) + distribution_shown(", top10_candidate_margin: "@, b.top10_candidate_margin) + distribution_shown(", top10_mass_displaced: "@, b.top10_mass_displaced) + distribution_shown(", top10_rank_displacement: "@, b.top10_rank_displacement)
}

/// What was measured of the argmax flips, in its debug form.
pub open spec fn top1_shown(b: QualityBank) -> Seq<Shown> {
    distribution_shown(", top1_margin: "@, b.top1_margin) + distribution_shown(", top1_candidate_margin: "@, b.top1_candidate_margin) + distribution_shown(", top1_mass_displaced: "@, b.top1_mass_displaced) + seq![Shown::Words(" }"@)]
}

/// A bank in its debug form, every reading written out.
pub open spec fn bank_shown(b: QualityBank) -> Seq<Shown> {
    seq![Shown::Words("QualityBank { positions: "@ + decimal(b.positions as nat) + ", logits: "@)]
        + logits_shown(b.logits) + seq![Shown::Words(", routing: "@)] + routing_shown(b.routing)
        + seq![Shown::Words(", min_covered_mass: "@)] + number_shown(b.min_covered_mass) + seq![
        Shown::Words(", activations: "@ + source_text(b.activations)),
    ] + top10_shown(b) + top1_shown(b)
}

fn show_number(p: &mut Phrase, x: &Option<Reading>)
    ensures
        final(p)@ == old(p)@ + number_shown(*x),
{
    match x {
        None => {
            p.say("None");
        },
        Some(v) => {
            p.say("Some(");
            p.push(Piece::Plain(*v));
            p.say(")");
        },
    }
    assert(p@ =~= old(p)@ + number_shown(*x));
}

fn push_count(s: &mut String, n: &Option<u64>)
    ensures
        final(s)@ == old(s)@ + count_text(*n),
{
    match n {
        None => {
            s.append("None");
        },
        Some(v) => {
            s.append("Some(");
            push_decimal(s, *v);
            s.append(")");
        },
    }
    assert(s@ =~= old(s)@ + count_text(*n));
}

fn show_distribution(p: &mut Phrase, field: &str, d: &Option<Distribution>)
    ensures
        final(p)@ == old(p)@ + distribution_shown(field@, *d),
{
    p.say(field);
    match d {
        None => {
            p.say("None");
        },
        Some(v) => {
            let mut s: String = "Some(Distribution { count: ".to_owned();
            push_decimal(&mut s, v.count);
            s.append(", min: ");
            p.push(Piece::Words(s));
            p.push(Piece::Plain(v.min));
            p.say(", p50: ");
            p.push(Piece::Plain(v.p50));
            p.say(", p95: ");
            p.push(Piece::Plain(v.p95));
            p.say(", p99: ");
            p.push(Piece::Plain(v.p99));
            p.say(", max: ");
            p.push(Piece::Plain(v.max));
            p.say(" })");
        },
    }
    assert(p@ =~= old(p)@ + distribution_shown(field@, *d));
}

fn show_logits(p: &mut Phrase, l: &LogitEvidence)
    ensures
        final(p)@ == old(p)@ + logits_shown(*l),
{
    let mut s: String = ", top1_flips: ".to_owned();
    push_decimal(&mut s, l.top1_flips);
    s.append(", top10_changes: ");
    push_decimal(&mut s, l.top10_changes);
    s.append(" }");
    p.say("LogitEvidence { kl_p50: ");
    p.push(Piece::Plain(l.kl_p50));
    p.say(", kl_p95: ");
    p.push(Piece::Plain(l.kl_p95));
    p.say(", kl_p99: ");
    p.push(Piece::Plain(l.kl_p99));
    p.say(", max_logit_delta: ");
    p.push(Piece::Plain(l.max_logit_delta));
    p.push(Piece::Words(s));
    assert(p@ =~= old(p)@ + logits_shown(*l));
}

fn show_routing(p: &mut Phrase, r: &RoutingEvidence)
    ensures
        final(p)@ == old(p)@ + routing_shown(*r),
{
    let mut head: String = "RoutingEvidence { route_flips: ".to_owned();
    push_decimal(&mut head, r.route_flips);
    head.append(", positions_with_route_change: ");
    push_decimal(&mut head, r.positions_with_route_change);
    head.append(", layers_with_route_change: ");
    push_decimal(&mut head, r.layers_with_route_change);
    let mut tail: String = ", first_layer_with_route_change: ".to_owned();
    push_count(&mut tail, &r.first_layer_with_route_change);
    tail.append(" }");
    p.push(Piece::Words(head));
    show_distribution(p, ", route_margin: ", &r.route_margin);
    show_distribution(p, ", route_weight_mass_moved: ", &r.route_weight_mass_moved);
    p.push(Piece::Words(tail));
    assert(p@ =~= old(p)@ + routing_shown(*r));
}

impl QualityBank {
    fn show_top10(&self, p: &mut Phrase)
        ensures
            final(p)@ == old(p)@ + top10_shown(*self),
    {
        show_distribution(p, ", top10_margin: ", &self.top10_margin);
        show_distribution(p, ", top10_candidate_margin: ", &self.top10_candidate_margin);
        show_distribution(p, ", top10_mass_displaced: ", &self.top10_mass_displaced);
        show_distribution(p, ", top10_rank_displacement: ", &self.top10_rank_displacement);
        assert(p@ =~= old(p)@ + top10_shown(*self));
    }

    fn show_top1(&self, p: &mut Phrase)
        ensures
            final(p)@ == old(p)@ + top1_shown(*self),
    {
        show_distribution(p, ", top1_margin: ", &self.top1_margin);
        show_distribution(p, ", top1_candidate_margin: ", &self.top1_candidate_margin);
        show_distribution(p, ", top1_mass_displaced: ", &self.top1_mass_displaced);
        p.say(" }");
        assert(p@ =~= old(p)@ + top1_shown(*self));
    }

    /// Write the bank out, every reading of it.
    pub fn show(&self, p: &mut Phrase)
        ensures
            final(p)@ == old(p)@ + bank_shown(*self),
    {
        let mut head: String = "QualityBank { positions: ".to_owned();
        push_decimal(&mut head, self.positions);
        head.append(", logits: ");
        let mut sourced: String = ", activations: ".to_owned();
        sourced.append(
            match self.activations {
                None => "None",
                Some(ActivationSource::ModelExecution) => "Some(ModelExecution)",
                Some(ActivationSource::Synthetic) => "Some(Synthetic)",
            },
        );
        p.push(Piece::Words(head));
        show_logits(p, &self.logits);
        p.say(", routing: ");
        show_routing(p, &self.routing);
        p.say(", min_covered_mass: ");
        show_number(p, &self.min_covered_mass);
        p.push(Piece::Words(sourced));
        self.show_top10(p);
        self.show_top1(p);
        assert(p@ =~= old(p)@ + bank_shown(*self));
    }
}

impl Ranked for Reading {
    open spec fn ahead(&self, other: &Self) -> bool {
        self.place() < other.place()
    }

    proof fn asymmetric(a: &Self, b: &Self) {
    }

    proof fn splits(a: &Self, b: &Self, c: &Self) {
    }

    fn ranks_ahead(&self, other: &Self) -> (r: bool) {
        self.sorts_before(*other)
    }
}

/// The nearest rank of the `p`-th percentile among `n` observations, counted
/// from 0: the `ceil(p n / 100)`-th observation, and at least the first.
pub open spec fn nearest_rank(p: int, n: int) -> int {
    let rank = (p * n + 99) / 100;
    if rank < 1 {
        0
    } else {
        rank - 1
    }
}

fn rank_at(p: usize, n: usize) -> (r: usize)
    requires
        0 < p <= 100,
        n > 0,
    ensures
        r == nearest_rank(p as int, n as int),
        r < n,
{
    assert(0 < p * n <= 100 * n) by (nonlinear_arith)
        requires
            0 < p <= 100,
            n > 0,
    ;
    let rank: u128 = (p as u128 * n as u128 + 99) / 100;
    (rank - 1) as usize
}

impl Distribution {
    /// Nearest-rank percentiles over `values`, which this sorts. A reported
    /// value is one some observation produced.
    pub fn of(values: &mut Vec<Reading>) -> (r: Option<Self>)
        ensures
            in_rank(final(values)@),
            final(values)@.to_multiset() == old(values)@.to_multiset(),
            r is None <==> old(values)@.len() == 0,
            r matches Some(d) ==> {
                let s = final(values)@;
                let n = s.len() as int;
                &&& n == old(values)@.len()
                &&& d.count == n
                &&& d.min == s[0]
                &&& d.p50 == s[nearest_rank(50, n)]
                &&& d.p95 == s[nearest_rank(95, n)]
                &&& d.p99 == s[nearest_rank(99, n)]
                &&& d.max == s[n - 1]
            },
    {
        sort_by_rank(values);
        let n: usize = values.len();
        if n == 0 {
            return None;
        }
        Some(
            Distribution {
                count: n as u64,
                min: values[0],
                p50: values[rank_at(50, n)],
                p95: values[rank_at(95, n)],
                p99: values[rank_at(99, n)],
                max: values[n - 1],
            },
        )
    }
}

/// Which criterion a bank failed.
#[derive(Debug, Clone, Copy, PartialEq, Eq, Structural)]
pub enum Criterion {
    Positions,
    KlP99,
    Top1Flips,
    Top10Changes,
    RouteFlips,
    /// An argmax flip gave up more probability than a near-tie would.
    Top1Displacement,
    /// A top-k reordering displaced more mass than a near-tie would.
    TopKDisplacement,
    /// A routing change moved more of the routed mixture than a near-boundary
    /// swap would.
    RouteDisplacement,
    /// The bank's KL was blind to too much of the distribution, or did not
    /// record how much it saw.
    CoveredMass,
    /// The bank did not say where its activations came from, or said they
    /// were synthetic.
    ActivationAuthority,
}

impl Criterion {
    /// The name reports use.
    pub open spec fn title(self) -> Seq<char> {
        match self {
            Criterion::Positions => "positions"@,
            Criterion::KlP99 => "kl_p99"@,
            Criterion::Top1Flips => "top1_flips"@,
            Criterion::Top10Changes => "top10_changes"@,
            Criterion::RouteFlips => "route_flips"@,
            Criterion::Top1Displacement => "top1_mass_displaced"@,
            Criterion::TopKDisplacement => "top10_mass_displaced"@,
            Criterion::RouteDisplacement => "route_mixture_mass"@,
            Criterion::CoveredMass => "min_covered_mass"@,
            Criterion::ActivationAuthority => "activations"@,
        }
    }

    /// The name reports use.
    pub fn name(self) -> (r: &'static str)
        ensures
            r@ == self.title(),
    {
        match self {
            Criterion::Positions => "positions",
            Criterion::KlP99 => "kl_p99",
            Criterion::Top1Flips => "top1_flips",
            Criterion::Top10Changes => "top10_changes",
            Criterion::RouteFlips => "route_flips",
            Criterion::Top1Displacement => "top1_mass_displaced",
            Criterion::TopKDisplacement => "top10_mass_displaced",
            Criterion::RouteDisplacement => "route_mixture_mass",
            Criterion::CoveredMass => "min_covered_mass",
            Criterion::ActivationAuthority => "activations",
        }
    }
}

/// One failed criterion, and what it saw against what it required.
pub type Failure = (Criterion, Seq<Shown>);

/// The outcome of judging a bank by a gate.
#[derive(Debug, Clone, PartialEq)]
pub struct QualityVerdict {
    pub gate_id: String,
    /// Empty means passed.
    pub failures: Vec<(Criterion, Phrase)>,
}

/// Failures, by what they show.
pub open spec fn shown_failures(v: Seq<(Criterion, Phrase)>) -> Seq<Failure> {
    v.map_values(|f: (Criterion, Phrase)| (f.0, f.1@))
}

/// Failures one after the other: `name: detail`, joined by `; `.
pub open spec fn listed(failures: Seq<Failure>) -> Seq<Shown>
    decreases failures.len(),
{
    if failures.len() == 0 {
        Seq::empty()
    } else {
        let f = failures.last();
        let item = seq![Shown::Words(f.0.title()), Shown::Words(": "@)] + f.1;
        if failures.len() == 1 {
            item
        } else {
            listed(failures.drop_last()).push(Shown::Words("; "@)) + item
        }
    }
}

impl QualityVerdict {
    /// The failures, by what they show.
    pub open spec fn found(&self) -> Seq<Failure> {
        shown_failures(self.failures@)
    }

    /// What `describe` says.
    pub open spec fn description(&self) -> Seq<Shown> {
        if self.failures@.len() == 0 {
            seq![Shown::Words("passed "@), Shown::Words(self.gate_id@)]
        } else {
            seq![
                Shown::Words("failed "@),
                Shown::Words(self.gate_id@),
                Shown::Words(" — "@),
            ] + listed(self.found())
        }
    }

    /// Whether nothing failed.
    pub fn passed(&self) -> (r: bool)
        ensures
            r == (self.failures@.len() == 0),
    {
        self.failures.len() == 0
    }

    /// The quality gate, and every criterion that failed with what it saw.
    pub fn describe(&self) -> (r: Phrase)
        ensures
            r@ == self.description(),
    {
        let mut out = Phrase::new();
        if self.passed() {
            out.say("passed ");
            out.say(self.gate_id.as_str());
            assert(out@ =~= self.description());
            return out;
        }
        out.say("failed ");
        out.say(self.gate_id.as_str());
        out.say(" — ");
        let ghost head = out@;
        let ghost all = self.found();
        let mut i: usize = 0;
        assert(head + listed(all.take(0)) =~= head);
        while i < self.failures.len()
            invariant
                i <= self.failures@.len(),
                all == self.found(),
                all.len() == self.failures@.len(),
                out@ == head + listed(all.take(i as int)),
            decreases self.failures@.len() - i,
        {
            let ghost before = all.take(i as int);
            let ghost next = all.take(i as int + 1);
            assert(next.drop_last() =~= before);
            assert(next.last() == (
                self.failures@[i as int].0,
                self.failures@[i as int].1@,
            ));
            if i > 0 {
                out.say("; ");
            }
            out.say(self.failures[i].0.name());
            out.say(": ");
            out.append(&self.failures[i].1);
            assert(out@ =~= head + listed(next));
            i = i + 1;
        }
        assert(all.take(all.len() as int) =~= all);
        assert(out@ =~= self.description());
        out
    }
}

/// `{a} < {b} required`.
pub open spec fn fewer_text(a: u64, b: u64) -> Seq<char> {
    decimal(a as nat) + " < "@ + decimal(b as nat) + " required"@
}

/// `{a} > {b}`.
pub open spec fn more_text(a: u64, b: u64) -> Seq<char> {
    decimal(a as nat) + " > "@ + decimal(b as nat)
}

/// Too few positions.
pub open spec fn judged_positions(g: QualityGate, b: QualityBank) -> Seq<Failure> {
    if b.positions < g.positions_min {
        seq![(Criterion::Positions, worded(fewer_text(b.positions, g.positions_min)))]
    } else {
        Seq::empty()
    }
}

/// Too much divergence at the 99th percentile.
pub open spec fn judged_kl(g: QualityGate, b: QualityBank) -> Seq<Failure> {
    if b.logits.kl_p99.above(g.kl_p99_max) {
        seq![
            (
                Criterion::KlP99,
                seq![
                    Shown::Scientific(b.logits.kl_p99),
                    Shown::Words(" > "@),
                    Shown::Scientific(g.kl_p99_max),
                ],
            ),
        ]
    } else {
        Seq::empty()
    }
}

/// A count over its limit, where the quality gate has one.
pub open spec fn judged_count(limit: Option<u64>, got: u64, c: Criterion) -> Seq<Failure> {
    if limit matches Some(l) && got > l {
        seq![(c, worded(more_text(got, limit->0)))]
    } else {
        Seq::empty()
    }
}

/// Whether the absence of a displacement distribution means that nothing
/// changed rather than that nothing was measured.
pub open spec fn unchanged(b: QualityBank, c: Criterion) -> bool {
    match c {
        Criterion::Top1Displacement => b.logits.top1_flips == 0,
        Criterion::TopKDisplacement => b.logits.top10_changes == 0,
        Criterion::RouteDisplacement => b.routing.route_flips == 0,
        _ => false,
    }
}

/// A consequence over its limit, or asked for and not recorded.
pub open spec fn judged_consequence(
    limit: Option<Reading>,
    observed: Option<Reading>,
    unchanged: bool,
    c: Criterion,
    what: Seq<char>,
) -> Seq<Failure> {
    match limit {
        None => Seq::empty(),
        Some(l) => match observed {
            None => if unchanged {
                Seq::empty()
            } else {
                seq![
                    (
                        c,
                        seq![
                            Shown::Words(what),
                            Shown::Words(" was not recorded, and this gate requires <= "@),
                            Shown::Fixed(l),
                        ],
                    ),
                ]
            },
            Some(got) => if got.within(l) {
                Seq::empty()
            } else {
                seq![
                    (
                        c,
                        seq![
                            Shown::Words(what),
                            Shown::Words(" "@),
                            Shown::Fixed(got),
                            Shown::Words(" > "@),
                            Shown::Fixed(l),
                        ],
                    ),
                ]
            },
        },
    }
}

/// Numbers a gate that asks for model activations will not judge.
pub open spec fn judged_activations(g: QualityGate, b: QualityBank) -> Seq<Failure> {
    if g.require_model_activations != Some(true) {
        Seq::empty()
    } else {
        match b.activations {
            Some(ActivationSource::ModelExecution) => Seq::empty(),
            Some(ActivationSource::Synthetic) => seq![
                (
                    Criterion::ActivationAuthority,
                    worded("the bank's activations are synthetic, which may prove mechanism and never a magnitude"@),
                ),
            ],
            None => seq![
                (
                    Criterion::ActivationAuthority,
                    worded("the bank does not say where its activations came from"@),
                ),
            ],
        }
    }
}

/// A truncation that saw too little, or did not say.
pub open spec fn judged_coverage(g: QualityGate, b: QualityBank) -> Seq<Failure> {
    match g.covered_mass_min {
        None => Seq::empty(),
        Some(required) => match b.min_covered_mass {
            Some(got) => if required.within(got) {
                Seq::empty()
            } else {
                seq![
                    (
                        Criterion::CoveredMass,
                        seq![
                            Shown::Fixed(got),
                            Shown::Words(" < "@),
                            Shown::Fixed(required),
                            Shown::Words(" required"@),
                        ],
                    ),
                ]
            },
            None => seq![
                (
                    Criterion::CoveredMass,
                    seq![
                        Shown::Words("not recorded, and this gate requires at least "@),
                        Shown::Fixed(required),
                        Shown::Words(" — a KL                          of unknown coverage is not evidence"@),
                    ],
                ),
            ],
        },
    }
}

/// The largest value of a distribution.
pub open spec fn max_of(d: Option<Distribution>) -> Option<Reading> {
    match d {
        Some(x) => Some(x.max),
        None => None,
    }
}

/// The 99th percentile of a distribution.
pub open spec fn p99_of(d: Option<Distribution>) -> Option<Reading> {
    match d {
        Some(x) => Some(x.p99),
        None => None,
    }
}

/// **Everything a bank fails a gate on**, in the order criteria are judged.
pub open spec fn failures_of(g: QualityGate, b: QualityBank) -> Seq<Failure> {
    judged_positions(g, b) + judged_kl(g, b) + judged_count(
        g.top1_flip_max,
        b.logits.top1_flips,
        Criterion::Top1Flips,
    ) + judged_count(g.top10_change_max, b.logits.top10_changes, Criterion::Top10Changes)
        + judged_count(g.route_flip_max, b.routing.route_flips, Criterion::RouteFlips)
        + judged_consequence(
        g.top1_mass_displaced_max,
        max_of(b.top1_mass_displaced),
        unchanged(b, Criterion::Top1Displacement),
        Criterion::Top1Displacement,
        "top-1 probability given up"@,
    ) + judged_consequence(
        g.top10_mass_displaced_p99_max,
        p99_of(b.top10_mass_displaced),
        unchanged(b, Criterion::TopKDisplacement),
        Criterion::TopKDisplacement,
        "top-10 mass displaced at p99"@,
    ) + judged_consequence(
        g.route_mixture_mass_p99_max,
        p99_of(b.routing.route_weight_mass_moved),
        unchanged(b, Criterion::RouteDisplacement),
        Criterion::RouteDisplacement,
        "routed mixture moved at p99"@,
    ) + judged_consequence(
        g.route_mixture_mass_max,
        max_of(b.routing.route_weight_mass_moved),
        unchanged(b, Criterion::RouteDisplacement),
        Criterion::RouteDisplacement,
        "routed mixture moved at max"@,
    ) + judged_activations(g, b) + judged_coverage(g, b)
}

/// The quality gate refuses nothing in the bank.
pub open spec fn passes(g: QualityGate, b: QualityBank) -> bool {
    failures_of(g, b).len() == 0
}

fn note(failures: &mut Vec<(Criterion, Phrase)>, c: Criterion, detail: Phrase)
    ensures
        shown_failures(final(failures)@) == shown_failures(old(failures)@) + seq![(c, detail@)],
{
    let ghost before = failures@;
    let ghost shown = detail@;
    failures.push((c, detail));
    assert(shown_failures(failures@) =~= shown_failures(before) + seq![(c, shown)]);
}

fn judge_count(
    failures: &mut Vec<(Criterion, Phrase)>,
    limit: Option<u64>,
    got: u64,
    c: Criterion,
)
    ensures
        shown_failures(final(failures)@) == shown_failures(old(failures)@) + judged_count(
            limit,
            got,
            c,
        ),
{
    if let Some(l) = limit {
        if got > l {
            let mut s: String = String::new();
            push_decimal(&mut s, got);
            assert(s@ =~= decimal(got as nat));
            s.append(" > ");
            push_decimal(&mut s, l);
            note(failures, c, Phrase::words(s));
            return ;
        }
    }
    assert(shown_failures(failures@) + Seq::<Failure>::empty() =~= shown_failures(failures@));
}

fn judge_consequence(
    failures: &mut Vec<(Criterion, Phrase)>,
    limit: Option<Reading>,
    observed: Option<Reading>,
    unchanged: bool,
    c: Criterion,
    what: &str,
)
    ensures
        shown_failures(final(failures)@) == shown_failures(old(failures)@) + judged_consequence(
            limit,
            observed,
            unchanged,
            c,
            what@,
        ),
{
    assert(shown_failures(failures@) + Seq::<Failure>::empty() =~= shown_failures(failures@));
    let l: Reading = match limit {
        Some(l) => l,
        None => return ,
    };
    match observed {
        None => {
            if !unchanged {
                let mut p = Phrase::new();
                p.say(what);
                p.say(" was not recorded, and this gate requires <= ");
                p.push(Piece::Fixed(l));
                assert(p@ =~= seq![
                    Shown::Words(what@),
                    Shown::Words(" was not recorded, and this gate requires <= "@),
                    Shown::Fixed(l),
                ]);
                note(failures, c, p);
            }
        },
        Some(got) => {
            if !got.at_most(l) {
                let mut p = Phrase::new();
                p.say(what);
                p.say(" ");
                p.push(Piece::Fixed(got));
                p.say(" > ");
                p.push(Piece::Fixed(l));
                assert(p@ =~= seq![
                    Shown::Words(what@),
                    Shown::Words(" "@),
                    Shown::Fixed(got),
                    Shown::Words(" > "@),
                    Shown::Fixed(l),
                ]);
                note(failures, c, p);
            }
        },
    }
}

fn max_reading(d: &Option<Distribution>) -> (r: Option<Reading>)
    ensures
        r == max_of(*d),
{
    match d {
        Some(x) => Some(x.max),
        None => None,
    }
}

fn p99_reading(d: &Option<Distribution>) -> (r: Option<Reading>)
    ensures
        r == p99_of(*d),
{
    match d {
        Some(x) => Some(x.p99),
        None => None,
    }
}

impl QualityGate {
    fn judge_activations(&self, bank: &QualityBank, failures: &mut Vec<(Criterion, Phrase)>)
        ensures
            shown_failures(final(failures)@) == shown_failures(old(failures)@)
                + judged_activations(*self, *bank),
    {
        assert(shown_failures(failures@) + Seq::<Failure>::empty() =~= shown_failures(failures@));
        let asks: bool = match self.require_model_activations {
            Some(b) => b,
            None => false,
        };
        if asks {
            match bank.activations {
                Some(ActivationSource::ModelExecution) => {},
                Some(ActivationSource::Synthetic) => {
                    note(
                        failures,
                        Criterion::ActivationAuthority,
                        Phrase::words(
                            "the bank's activations are synthetic, which may prove mechanism and never a magnitude".to_owned(),
                        ),
                    );
                },
                None => {
                    note(
                        failures,
                        Criterion::ActivationAuthority,
                        Phrase::words(
                            "the bank does not say where its activations came from".to_owned(),
                        ),
                    );
                },
            }
        }
    }

    fn judge_coverage(&self, bank: &QualityBank, failures: &mut Vec<(Criterion, Phrase)>)
        ensures
            shown_failures(final(failures)@) == shown_failures(old(failures)@) + judged_coverage(
                *self,
                *bank,
            ),
    {
        assert(shown_failures(failures@) + Seq::<Failure>::empty() =~= shown_failures(failures@));
        if let Some(required) = self.covered_mass_min {
            match bank.min_covered_mass {
                Some(got) => {
                    if !required.at_most(got) {
                        let mut p = Phrase::new();
                        p.push(Piece::Fixed(got));
                        p.say(" < ");
                        p.push(Piece::Fixed(required));
                        p.say(" required");
                        assert(p@ =~= seq![
                            Shown::Fixed(got),
                            Shown::Words(" < "@),
                            Shown::Fixed(required),
                            Shown::Words(" required"@),
                        ]);
                        note(failures, Criterion::CoveredMass, p);
                    }
                },
                None => {
                    let mut p = Phrase::new();
                    p.say("not recorded, and this gate requires at least ");
                    p.push(Piece::Fixed(required));
                    p.say(
                        " — a KL                          of unknown coverage is not evidence",
                    );
                    assert(p@ =~= seq![
                        Shown::Words("not recorded, and this gate requires at least "@),
                        Shown::Fixed(required),
                        Shown::Words(
                            " — a KL                          of unknown coverage is not evidence"@,
                        ),
                    ]);
                    note(failures, Criterion::CoveredMass, p);
                },
            }
        }
    }

    /// Judge a bank. Every criterion is checked, so a verdict says everything
    /// that is wrong rather than the first thing.
    pub fn evaluate(&self, bank: &QualityBank) -> (r: QualityVerdict)
        ensures
            r.gate_id@ == self.id@,
            r.found() == failures_of(*self, *bank),
            r.failures@.len() == failures_of(*self, *bank).len(),
    {
        let mut failures: Vec<(Criterion, Phrase)> = Vec::new();
        assert(shown_failures(failures@) =~= Seq::<Failure>::empty());
        if bank.positions < self.positions_min {
            let mut s: String = String::new();
            push_decimal(&mut s, bank.positions);
            assert(s@ =~= decimal(bank.positions as nat));
            s.append(" < ");
            push_decimal(&mut s, self.positions_min);
            s.append(" required");
            note(&mut failures, Criterion::Positions, Phrase::words(s));
        }
        assert(shown_failures(failures@) =~= judged_positions(*self, *bank));
        if bank.logits.kl_p99.exceeds(self.kl_p99_max) {
            let mut p = Phrase::new();
            p.push(Piece::Scientific(bank.logits.kl_p99));
            p.say(" > ");
            p.push(Piece::Scientific(self.kl_p99_max));
            assert(p@ =~= seq![
                Shown::Scientific(bank.logits.kl_p99),
                Shown::Words(" > "@),
                Shown::Scientific(self.kl_p99_max),
            ]);
            note(&mut failures, Criterion::KlP99, p);
        }
        assert(shown_failures(failures@) =~= judged_positions(*self, *bank) + judged_kl(
            *self,
            *bank,
        ));
        judge_count(
            &mut failures,
            self.top1_flip_max,
            bank.logits.top1_flips,
            Criterion::Top1Flips,
        );
        judge_count(
            &mut failures,
            self.top10_change_max,
            bank.logits.top10_changes,
            Criterion::Top10Changes,
        );
        judge_count(
            &mut failures,
            self.route_flip_max,
            bank.routing.route_flips,
            Criterion::RouteFlips,
        );
        // Consequence. A criterion the quality gate asks for and the bank did not
        // record fails: an unmeasured consequence is not a small one.
        judge_consequence(
            &mut failures,
            self.top1_mass_displaced_max,
            max_reading(&bank.top1_mass_displaced),
            bank.logits.top1_flips == 0,
            Criterion::Top1Displacement,
            "top-1 probability given up",
        );
        judge_consequence(
            &mut failures,
            self.top10_mass_displaced_p99_max,
            p99_reading(&bank.top10_mass_displaced),
            bank.logits.top10_changes == 0,
            Criterion::TopKDisplacement,
            "top-10 mass displaced at p99",
        );
        judge_consequence(
            &mut failures,
            self.route_mixture_mass_p99_max,
            p99_reading(&bank.routing.route_weight_mass_moved),
            bank.routing.route_flips == 0,
            Criterion::RouteDisplacement,
            "routed mixture moved at p99",
        );
        judge_consequence(
            &mut failures,
            self.route_mixture_mass_max,
            max_reading(&bank.routing.route_weight_mass_moved),
            bank.routing.route_flips == 0,
            Criterion::RouteDisplacement,
            "routed mixture moved at max",
        );
        self.judge_activations(bank, &mut failures);
        self.judge_coverage(bank, &mut failures);
        let r = QualityVerdict { gate_id: self.id.clone(), failures };
        assert(r.found().len() == r.failures@.len());
        r
    }
}

/// A bank together with the quality gate it is judged by. The verdict is not a
/// field: it is derived.
#[derive(Debug, Clone, PartialEq)]
pub struct QualityEvidence {
    pub gate: QualityGate,
    pub bank: QualityBank,
}

/// A measured statistic against its bound.
pub open spec fn against(
    measured: Option<Shown>,
    bound: Option<Shown>,
    dir: Seq<char>,
) -> Seq<Shown> {
    match bound {
        None => Seq::empty(),
        Some(b) => match measured {
            Some(m) => seq![
                m,
                Shown::Words(" vs "@),
                Shown::Words(dir),
                Shown::Words(" "@),
                b,
            ],
            None => seq![
                Shown::Words("no changes vs "@),
                Shown::Words(dir),
                Shown::Words(" "@),
                b,
            ],
        },
    }
}

/// A reading, shown in scientific notation.
pub open spec fn sci(x: Option<Reading>) -> Option<Shown> {
    match x {
        Some(v) => Some(Shown::Scientific(v)),
        None => None,
    }
}

/// A count, shown in scientific notation.
pub open spec fn sci_count(x: Option<u64>) -> Option<Shown> {
    match x {
        Some(v) => Some(Shown::CountScientific(v)),
        None => None,
    }
}

/// `n` spaces.
pub open spec fn spaces(n: int) -> Seq<char> {
    Seq::new(
        if n > 0 {
            n as nat
        } else {
            0
        },
        |i: int| ' ',
    )
}

/// A name, filled with spaces to a column of 22.
pub open spec fn column(name: Seq<char>) -> Seq<char> {
    name + spaces(22 - name.len())
}

/// Some failure is of this criterion.
pub open spec fn failed_on(failures: Seq<Failure>, c: Criterion) -> bool {
    exists|i: int| 0 <= i < failures.len() && (#[trigger] failures[i]).0 == c
}

/// One row of the authority section.
pub struct AuthorityRow {
    /// The quality gate asks for it.
    pub asked: bool,
    pub name: Seq<char>,
    /// Some criterion the row stands for failed.
    pub failed: bool,
    pub detail: Seq<Shown>,
}

impl AuthorityRow {
    /// The row is written, and written as failed.
    pub open spec fn reads_fail(self) -> bool {
        self.asked && self.failed
    }

    /// The row as written: nothing where the quality gate does not ask for it.
    pub open spec fn written(self) -> Seq<Shown> {
        if self.asked {
            seq![
                Shown::Words("  "@),
                Shown::Words(column(self.name)),
                Shown::Words(
                    if self.failed {
                        " FAIL   "@
                    } else {
                        " PASS   "@
                    },
                ),
            ] + self.detail + seq![Shown::Words("\n"@)]
        } else {
            Seq::empty()
        }
    }
}

/// The routed-mixture statistics the quality gate bounds, each against its bound.
pub open spec fn route_detail(g: QualityGate, b: QualityBank) -> Seq<Shown> {
    let route = b.routing.route_weight_mass_moved;
    let p99 = if g.route_mixture_mass_p99_max is Some {
        seq![Shown::Words("p99 "@)] + against(
            sci(p99_of(route)),
            sci(g.route_mixture_mass_p99_max),
            "<="@,
        )
    } else {
        Seq::empty()
    };
    let max = if g.route_mixture_mass_max is Some {
        seq![Shown::Words("max "@)] + against(
            sci(max_of(route)),
            sci(g.route_mixture_mass_max),
            "<="@,
        )
    } else {
        Seq::empty()
    };
    if g.route_mixture_mass_p99_max is Some && g.route_mixture_mass_max is Some {
        p99 + seq![Shown::Words("; "@)] + max
    } else {
        p99 + max
    }
}

/// The raw counts, each against its bound.
pub open spec fn count_detail(g: QualityGate, b: QualityBank) -> Seq<Shown> {
    seq![Shown::Words("top1 "@)] + against(
        sci_count(Some(b.logits.top1_flips)),
        sci_count(g.top1_flip_max),
        "<="@,
    ) + seq![Shown::Words(" top10 "@)] + against(
        sci_count(Some(b.logits.top10_changes)),
        sci_count(g.top10_change_max),
        "<="@,
    ) + seq![Shown::Words(" route "@)] + against(
        sci_count(Some(b.routing.route_flips)),
        sci_count(g.route_flip_max),
        "<="@,
    )
}

/// Where the activations came from, against what the quality gate requires.
pub open spec fn activation_detail(b: QualityBank) -> Seq<char> {
    match b.activations {
        Some(ActivationSource::ModelExecution) => "model execution vs model execution"@,
        Some(ActivationSource::Synthetic) => "synthetic vs model execution"@,
        None => "not recorded vs model execution"@,
    }
}

/// The quality gate judges on some count.
pub open spec fn judges_counts(g: QualityGate) -> bool {
    g.top1_flip_max is Some || g.top10_change_max is Some || g.route_flip_max is Some
}

/// What decided: one row per question the quality gate can ask, each stating
/// the statistic it is judged on against its bound.
pub open spec fn judged_rows(
    g: QualityGate,
    b: QualityBank,
    f: Seq<Failure>,
) -> Seq<AuthorityRow> {
    seq![
        AuthorityRow {
            asked: true,
            name: "positions"@,
            failed: failed_on(f, Criterion::Positions),
            detail: worded(
                decimal(b.positions as nat) + " vs >= "@ + decimal(g.positions_min as nat),
            ),
        },
        AuthorityRow {
            asked: true,
            name: "kl_p99"@,
            failed: failed_on(f, Criterion::KlP99),
            detail: against(sci(Some(b.logits.kl_p99)), sci(Some(g.kl_p99_max)), "<="@),
        },
        AuthorityRow {
            asked: g.covered_mass_min is Some,
            name: "covered_mass"@,
            failed: failed_on(f, Criterion::CoveredMass),
            detail: against(sci(b.min_covered_mass), sci(g.covered_mass_min), ">="@),
        },
        AuthorityRow {
            asked: g.top1_mass_displaced_max is Some,
            name: "top1_mass_displaced"@,
            failed: failed_on(f, Criterion::Top1Displacement),
            detail: seq![Shown::Words("max "@)] + against(
                sci(max_of(b.top1_mass_displaced)),
                sci(g.top1_mass_displaced_max),
                "<="@,
            ),
        },
        AuthorityRow {
            asked: g.top10_mass_displaced_p99_max is Some,
            name: "top10_mass_displaced"@,
            failed: failed_on(f, Criterion::TopKDisplacement),
            detail: seq![Shown::Words("p99 "@)] + against(
                sci(p99_of(b.top10_mass_displaced)),
                sci(g.top10_mass_displaced_p99_max),
                "<="@,
            ),
        },
        AuthorityRow {
            asked: g.route_mixture_mass_p99_max is Some || g.route_mixture_mass_max is Some,
            name: "route_mass"@,
            failed: failed_on(f, Criterion::RouteDisplacement),
            detail: route_detail(g, b),
        },
        AuthorityRow {
            asked: judges_counts(g),
            name: "discrete_counts"@,
            failed: failed_on(f, Criterion::Top1Flips) || failed_on(f, Criterion::Top10Changes)
                || failed_on(f, Criterion::RouteFlips),
            detail: count_detail(g, b),
        },
        AuthorityRow {
            asked: g.require_model_activations == Some(true),
            name: "activations"@,
            failed: failed_on(f, Criterion::ActivationAuthority),
            detail: worded(activation_detail(b)),
        },
    ]
}

/// The rows of a bank judged by a gate.
pub open spec fn authority_rows(g: QualityGate, b: QualityBank) -> Seq<AuthorityRow> {
    judged_rows(g, b, failures_of(g, b))
}

/// Some row of the authority section reads `FAIL`.
pub open spec fn some_row_fails(rows: Seq<AuthorityRow>) -> bool {
    exists|i: int| 0 <= i < rows.len() && (#[trigger] rows[i]).reads_fail()
}

/// The head of a report.
pub open spec fn report_header(g: QualityGate) -> Seq<Shown> {
    seq![
        Shown::Words("QUALITY_GATE: "@),
        Shown::Words(g.id@),
        Shown::Words("\n\nAUTHORITY:\n"@),
    ]
}

/// The header, then what decided, row by row.
pub open spec fn authority_section(g: QualityGate, b: QualityBank) -> Seq<Shown> {
    let rows = authority_rows(g, b);
    report_header(g) + rows[0].written() + rows[1].written() + rows[2].written() + rows[3].written()
        + rows[4].written() + rows[5].written() + rows[6].written() + rows[7].written()
}

/// The row that stands for a criterion.
pub open spec fn row_of(c: Criterion) -> int {
    match c {
        Criterion::Positions => 0,
        Criterion::KlP99 => 1,
        Criterion::CoveredMass => 2,
        Criterion::Top1Displacement => 3,
        Criterion::TopKDisplacement => 4,
        Criterion::RouteDisplacement => 5,
        Criterion::Top1Flips => 6,
        Criterion::Top10Changes => 6,
        Criterion::RouteFlips => 6,
        Criterion::ActivationAuthority => 7,
    }
}

/// Every failure is of a criterion whose row is asked for.
spec fn all_asked(g: QualityGate, b: QualityBank, failures: Seq<Failure>) -> bool {
    forall|i: int|
        0 <= i < failures.len() ==> authority_rows(g, b)[row_of((#[trigger] failures[i]).0)].asked
}

proof fn lemma_asked_joined(g: QualityGate, b: QualityBank, x: Seq<Failure>, y: Seq<Failure>)
    requires
        all_asked(g, b, x),
        all_asked(g, b, y),
    ensures
        all_asked(g, b, x + y),
{
    let z = x + y;
    assert forall|i: int| 0 <= i < z.len() implies authority_rows(g, b)[row_of(
        (#[trigger] z[i]).0,
    )].asked by {
        if i < x.len() {
            assert(z[i] == x[i]);
        } else {
            assert(z[i] == y[i - x.len()]);
        }
    }
}

/// Nothing fails on a criterion the quality gate does not ask for.
proof fn lemma_failures_are_asked(g: QualityGate, b: QualityBank)
    ensures
        all_asked(g, b, failures_of(g, b)),
{
    let s0 = judged_positions(g, b);
    let s1 = judged_kl(g, b);
    let s2 = judged_count(g.top1_flip_max, b.logits.top1_flips, Criterion::Top1Flips);
    let s3 = judged_count(g.top10_change_max, b.logits.top10_changes, Criterion::Top10Changes);
    let s4 = judged_count(g.route_flip_max, b.routing.route_flips, Criterion::RouteFlips);
    let s5 = judged_consequence(
        g.top1_mass_displaced_max,
        max_of(b.top1_mass_displaced),
        unchanged(b, Criterion::Top1Displacement),
        Criterion::Top1Displacement,
        "top-1 probability given up"@,
    );
    let s6 = judged_consequence(
        g.top10_mass_displaced_p99_max,
        p99_of(b.top10_mass_displaced),
        unchanged(b, Criterion::TopKDisplacement),
        Criterion::TopKDisplacement,
        "top-10 mass displaced at p99"@,
    );
    let s7 = judged_consequence(
        g.route_mixture_mass_p99_max,
        p99_of(b.routing.route_weight_mass_moved),
        unchanged(b, Criterion::RouteDisplacement),
        Criterion::RouteDisplacement,
        "routed mixture moved at p99"@,
    );
    let s8 = judged_consequence(
        g.route_mixture_mass_max,
        max_of(b.routing.route_weight_mass_moved),
        unchanged(b, Criterion::RouteDisplacement),
        Criterion::RouteDisplacement,
        "routed mixture moved at max"@,
    );
    let s9 = judged_activations(g, b);
    let s10 = judged_coverage(g, b);
    lemma_asked_joined(g, b, s0, s1);
    lemma_asked_joined(g, b, s0 + s1, s2);
    lemma_asked_joined(g, b, s0 + s1 + s2, s3);
    lemma_asked_joined(g, b, s0 + s1 + s2 + s3, s4);
    lemma_asked_joined(g, b, s0 + s1 + s2 + s3 + s4, s5);
    lemma_asked_joined(g, b, s0 + s1 + s2 + s3 + s4 + s5, s6);
    lemma_asked_joined(g, b, s0 + s1 + s2 + s3 + s4 + s5 + s6, s7);
    lemma_asked_joined(g, b, s0 + s1 + s2 + s3 + s4 + s5 + s6 + s7, s8);
    lemma_asked_joined(g, b, s0 + s1 + s2 + s3 + s4 + s5 + s6 + s7 + s8, s9);
    lemma_asked_joined(g, b, s0 + s1 + s2 + s3 + s4 + s5 + s6 + s7 + s8 + s9, s10);
}

/// **The authority section is what decided**: a bank passes exactly where no
/// row of the section reads `FAIL`.
pub proof fn law_the_authority_section_decides(g: QualityGate, b: QualityBank)
    ensures
        passes(g, b) <==> !some_row_fails(authority_rows(g, b)),
{
    let f = failures_of(g, b);
    let rows = authority_rows(g, b);
    lemma_failures_are_asked(g, b);
    if f.len() > 0 {
        let c = f[0].0;
        assert(failed_on(f, c));
        assert(rows[row_of(c)].reads_fail());
    }
}

/// What merely happened.
pub open spec fn diagnostics_text(b: QualityBank) -> Seq<char> {
    let counts =
        "\nDIAGNOSTICS (recorded, not authoritative):\n  top1 flips             "@
        + decimal(b.logits.top1_flips as nat) + "\n  top10 changes          "@ + decimal(
        b.logits.top10_changes as nat,
    ) + "\n  route flips            "@ + decimal(b.routing.route_flips as nat)
        + "\n  positions              "@ + decimal(b.positions as nat) + "\n"@;
    match b.routing.first_layer_with_route_change {
        Some(l) => counts + "  first changed layer    "@ + decimal(l as nat) + "\n"@,
        None => counts,
    }
}

impl QualityEvidence {
    /// What `report` says.
    pub open spec fn reported(&self) -> Seq<Shown> {
        authority_section(self.gate, self.bank).push(Shown::Words(diagnostics_text(self.bank)))
    }

    /// The bank judged by its gate.
    pub fn verdict(&self) -> (r: QualityVerdict)
        ensures
            r.gate_id@ == self.gate.id@,
            r.found() == failures_of(self.gate, self.bank),
            r.failures@.len() == failures_of(self.gate, self.bank).len(),
    {
        self.gate.evaluate(&self.bank)
    }

    /// The quality gate id this evidence passed, if it passed.
    pub fn proven_by(&self) -> (r: Option<&str>)
        ensures
            match r {
                Some(id) => passes(self.gate, self.bank) && id@ == self.gate.id@,
                None => !passes(self.gate, self.bank),
            },
    {
        if self.verdict().passed() {
            Some(self.gate.id.as_str())
        } else {
            None
        }
    }

    /// Whether the logits moved while routing stayed put.
    pub fn is_arithmetic_only(&self) -> (r: bool)
        ensures
            r == (self.bank.routing.route_flips == 0 && self.bank.logits.moved()),
    {
        self.bank.routing.route_flips == 0 && self.bank.logits.have_moved()
    }

    /// The promotion report: what decided, and what merely happened.
    pub fn report(&self) -> (r: Phrase)
        ensures
            r@ == self.reported(),
            passes(self.gate, self.bank) <==> !some_row_fails(
                authority_rows(self.gate, self.bank),
            ),
    {
        proof {
            law_the_authority_section_decides(self.gate, self.bank);
        }
        let b: &QualityBank = &self.bank;
        let verdict: QualityVerdict = self.verdict();
        let mut out: Phrase = self.opened();
        self.push_measures(&verdict, &mut out);
        self.push_counts(&verdict, &mut out);
        let mut s: String =
            "\nDIAGNOSTICS (recorded, not authoritative):\n  top1 flips             ".to_owned();
        push_decimal(&mut s, b.logits.top1_flips);
        s.append("\n  top10 changes          ");
        push_decimal(&mut s, b.logits.top10_changes);
        s.append("\n  route flips            ");
        push_decimal(&mut s, b.routing.route_flips);
        s.append("\n  positions              ");
        push_decimal(&mut s, b.positions);
        s.append("\n");
        if let Some(l) = b.routing.first_layer_with_route_change {
            s.append("  first changed layer    ");
            push_decimal(&mut s, l);
            s.append("\n");
        }
        out.push(Piece::Words(s));
        out
    }

    fn opened(&self) -> (r: Phrase)
        ensures
            r@ == report_header(self.gate),
    {
        let mut out = Phrase::new();
        out.say("QUALITY_GATE: ");
        out.say(self.gate.id.as_str());
        out.say("\n\nAUTHORITY:\n");
        assert(out@ =~= report_header(self.gate));
        out
    }

    fn push_measures(&self, verdict: &QualityVerdict, out: &mut Phrase)
        ensures
            ({
                let rows = judged_rows(self.gate, self.bank, verdict.found());
                final(out)@ == old(out)@ + rows[0].written() + rows[1].written()
                    + rows[2].written() + rows[3].written() + rows[4].written()
            }),
    {
        let g: &QualityGate = &self.gate;
        let b: &QualityBank = &self.bank;
        let mut positions: String = String::new();
        push_decimal(&mut positions, b.positions);
        assert(positions@ =~= decimal(b.positions as nat));
        positions.append(" vs >= ");
        push_decimal(&mut positions, g.positions_min);
        push_row(
            out,
            true,
            "positions",
            verdict.fails(Criterion::Positions),
            &Phrase::words(positions),
        );
        push_row(
            out,
            true,
            "kl_p99",
            verdict.fails(Criterion::KlP99),
            &compared(Some(b.logits.kl_p99), Some(g.kl_p99_max), "<="),
        );
        push_row(
            out,
            g.covered_mass_min.is_some(),
            "covered_mass",
            verdict.fails(Criterion::CoveredMass),
            &compared(b.min_covered_mass, g.covered_mass_min, ">="),
        );
        push_row(
            out,
            g.top1_mass_displaced_max.is_some(),
            "top1_mass_displaced",
            verdict.fails(Criterion::Top1Displacement),
            &labelled(
                "max ",
                &compared(
                    max_reading(&b.top1_mass_displaced),
                    g.top1_mass_displaced_max,
                    "<=",
                ),
            ),
        );
        push_row(
            out,
            g.top10_mass_displaced_p99_max.is_some(),
            "top10_mass_displaced",
            verdict.fails(Criterion::TopKDisplacement),
            &labelled(
                "p99 ",
                &compared(
                    p99_reading(&b.top10_mass_displaced),
                    g.top10_mass_displaced_p99_max,
                    "<=",
                ),
            ),
        );
    }

    fn push_counts(&self, verdict: &QualityVerdict, out: &mut Phrase)
        ensures
            ({
                let rows = judged_rows(self.gate, self.bank, verdict.found());
                final(out)@ == old(out)@ + rows[5].written() + rows[6].written()
                    + rows[7].written()
            }),
    {
        let g: &QualityGate = &self.gate;
        push_row(
            out,
            g.route_mixture_mass_p99_max.is_some() || g.route_mixture_mass_max.is_some(),
            "route_mass",
            verdict.fails(Criterion::RouteDisplacement),
            &self.routed(),
        );
        push_row(
            out,
            g.top1_flip_max.is_some() || g.top10_change_max.is_some() || g.route_flip_max.is_some(),
            "discrete_counts",
            verdict.fails(Criterion::Top1Flips) || verdict.fails(Criterion::Top10Changes)
                || verdict.fails(Criterion::RouteFlips),
            &self.counted(),
        );
        push_row(
            out,
            matches!(g.require_model_activations, Some(true)),
            "activations",
            verdict.fails(Criterion::ActivationAuthority),
            &self.activated(),
        );
    }

    fn routed(&self) -> (r: Phrase)
        ensures
            r@ == route_detail(self.gate, self.bank),
    {
        let route: &Option<Distribution> = &self.bank.routing.route_weight_mass_moved;
        let mut out = Phrase::new();
        if self.gate.route_mixture_mass_p99_max.is_some() {
            out = labelled(
                "p99 ",
                &compared(p99_reading(route), self.gate.route_mixture_mass_p99_max, "<="),
            );
            if self.gate.route_mixture_mass_max.is_some() {
                out.say("; ");
            }
        }
        if self.gate.route_mixture_mass_max.is_some() {
            out.append(
                &labelled(
                    "max ",
                    &compared(max_reading(route), self.gate.route_mixture_mass_max, "<="),
                ),
            );
        }
        assert(out@ =~= route_detail(self.gate, self.bank));
        out
    }

    fn activated(&self) -> (r: Phrase)
        ensures
            r@ == worded(activation_detail(self.bank)),
    {
        let s: &str = match self.bank.activations {
            Some(ActivationSource::ModelExecution) => "model execution vs model execution",
            Some(ActivationSource::Synthetic) => "synthetic vs model execution",
            None => "not recorded vs model execution",
        };
        Phrase::words(s.to_owned())
    }

    fn counted(&self) -> (r: Phrase)
        ensures
            r@ == count_detail(self.gate, self.bank),
    {
        let mut out = labelled(
            "top1 ",
            &compared_counts(self.bank.logits.top1_flips, self.gate.top1_flip_max),
        );
        out.append(
            &labelled(
                " top10 ",
                &compared_counts(self.bank.logits.top10_changes, self.gate.top10_change_max),
            ),
        );
        out.append(
            &labelled(
                " route ",
                &compared_counts(self.bank.routing.route_flips, self.gate.route_flip_max),
            ),
        );
        assert(out@ =~= count_detail(self.gate, self.bank));
        out
    }
}

impl QualityVerdict {
    /// Whether some failure is of this criterion.
    pub fn fails(&self, c: Criterion) -> (r: bool)
        ensures
            r == failed_on(self.found(), c),
    {
        let ghost all = self.found();
        let mut i: usize = 0;
        while i < self.failures.len()
            invariant
                i <= self.failures@.len(),
                all == self.found(),
                all.len() == self.failures@.len(),
                forall|j: int| 0 <= j < i ==> (#[trigger] all[j]).0 != c,
            decreases self.failures@.len() - i,
        {
            assert(all[i as int].0 == self.failures@[i as int].0);
            if self.failures[i].0 == c {
                return true;
            }
            i = i + 1;
        }
        false
    }
}

fn compared(measured: Option<Reading>, bound: Option<Reading>, dir: &str) -> (r: Phrase)
    ensures
        r@ == against(sci(measured), sci(bound), dir@),
{
    let mut p = Phrase::new();
    if let Some(b) = bound {
        match measured {
            Some(m) => {
                p.push(Piece::Scientific(m));
                p.say(" vs ");
            },
            None => {
                p.say("no changes vs ");
            },
        }
        p.say(dir);
        p.say(" ");
        p.push(Piece::Scientific(b));
    }
    assert(p@ =~= against(sci(measured), sci(bound), dir@));
    p
}

fn compared_counts(measured: u64, bound: Option<u64>) -> (r: Phrase)
    ensures
        r@ == against(sci_count(Some(measured)), sci_count(bound), "<="@),
{
    let mut p = Phrase::new();
    if let Some(b) = bound {
        p.push(Piece::CountScientific(measured));
        p.say(" vs ");
        p.say("<=");
        p.say(" ");
        p.push(Piece::CountScientific(b));
    }
    assert(p@ =~= against(sci_count(Some(measured)), sci_count(bound), "<="@));
    p
}

fn labelled(label: &str, detail: &Phrase) -> (r: Phrase)
    ensures
        r@ == seq![Shown::Words(label@)] + detail@,
{
    let mut p = Phrase::new();
    p.say(label);
    p.append(detail);
    assert(p@ =~= seq![Shown::Words(label@)] + detail@);
    p
}

fn in_column(name: &str) -> (r: String)
    ensures
        r@ == column(name@),
{
    let mut s: String = name.to_owned();
    let width: usize = name.unicode_len();
    let mut n: usize = width;
    proof {
        reveal_strlit(" ");
        assert(" "@ =~= seq![' ']);
        assert(s@ =~= name@ + spaces(0));
    }
    while n < 22
        invariant
            width == name@.len(),
            width <= n,
            n <= 22 || n == width,
            s@ == name@ + spaces(n - width),
            " "@ == seq![' '],
        decreases 22 - n,
    {
        s.append(" ");
        n = n + 1;
        assert(s@ =~= name@ + spaces(n - width));
    }
    assert(s@ =~= column(name@));
    s
}

fn push_row(out: &mut Phrase, asked: bool, name: &str, failed: bool, detail: &Phrase)
    ensures
        final(out)@ == old(out)@ + (AuthorityRow {
            asked,
            name: name@,
            failed,
            detail: detail@,
        }).written(),
{
    let ghost before = out@;
    if asked {
        out.say("  ");
        out.push(Piece::Words(in_column(name)));
        out.say(
            if failed {
                " FAIL   "
            } else {
                " PASS   "
            },
        );
        out.append(detail);
        out.say("\n");
    }
    assert(out@ =~= before + (AuthorityRow {
        asked,
        name: name@,
        failed,
        detail: detail@,
    }).written());
}

proof fn lemma_failed_joins(a: Seq<Failure>, b: Seq<Failure>, c: Criterion)
    ensures
        failed_on(a + b, c) <==> failed_on(a, c) || failed_on(b, c),
{
    let all = a + b;
    if failed_on(a, c) {
        let i = choose|i: int| 0 <= i < a.len() && (#[trigger] a[i]).0 == c;
        assert(all[i] == a[i]);
    }
    if failed_on(b, c) {
        let i = choose|i: int| 0 <= i < b.len() && (#[trigger] b[i]).0 == c;
        assert(all[a.len() + i] == b[i]);
    }
    if failed_on(all, c) {
        let i = choose|i: int| 0 <= i < all.len() && (#[trigger] all[i]).0 == c;
        if i < a.len() {
            assert(a[i] == all[i]);
        } else {
            assert(b[i - a.len()] == all[i]);
        }
    }
}

proof fn lemma_failed_group(p: Seq<Failure>, c: Criterion)
    requires
        p.len() <= 1,
    ensures
        failed_on(p, c) <==> p.len() == 1 && p[0].0 == c,
{
    if p.len() == 1 {
        assert(p[0] == p[0]);
    }
}

/// **What each criterion fails on**, in what was measured: too few positions;
/// divergence above its limit at p99; a count above its limit; an argmax flip,
/// a top-k reordering or a routing change whose consequence is not within its
/// limit at the statistic the limit is of, or was not recorded though
/// something changed; coverage under its floor or not recorded; activations
/// that are not the model's where they are asked for.
#[verifier::spinoff_prover]
#[verifier::rlimit(80)]
pub proof fn law_what_each_criterion_fails_on(g: QualityGate, b: QualityBank, c: Criterion)
    ensures
        (exists|i: int| 0 <= i < failures_of(g, b).len() && (#[trigger] failures_of(g, b)[i]).0 == c)
            <==> match c {
            Criterion::Positions => b.positions < g.positions_min,
            Criterion::KlP99 => b.logits.kl_p99.above(g.kl_p99_max),
            Criterion::Top1Flips => g.top1_flip_max matches Some(l) && b.logits.top1_flips > l,
            Criterion::Top10Changes => g.top10_change_max matches Some(l) && b.logits.top10_changes
                > l,
            Criterion::RouteFlips => g.route_flip_max matches Some(l) && b.routing.route_flips > l,
            Criterion::Top1Displacement => g.top1_mass_displaced_max matches Some(l) && match b.top1_mass_displaced {
                Some(d) => !d.max.within(l),
                None => b.logits.top1_flips > 0,
            },
            Criterion::TopKDisplacement => g.top10_mass_displaced_p99_max matches Some(l) && match b.top10_mass_displaced {
                Some(d) => !d.p99.within(l),
                None => b.logits.top10_changes > 0,
            },
            Criterion::RouteDisplacement => match b.routing.route_weight_mass_moved {
                Some(d) => (g.route_mixture_mass_p99_max matches Some(l) && !d.p99.within(l)) || (
                g.route_mixture_mass_max matches Some(l) && !d.max.within(l)),
                None => b.routing.route_flips > 0 && (g.route_mixture_mass_p99_max is Some
                    || g.route_mixture_mass_max is Some),
            },
            Criterion::CoveredMass => g.covered_mass_min matches Some(l) && match b.min_covered_mass {
                Some(got) => !l.within(got),
                None => true,
            },
            Criterion::ActivationAuthority => g.require_model_activations == Some(true)
                && b.activations != Some(ActivationSource::ModelExecution),
        },
{
    lemma_failures_by_criterion(g, b, c);
    assert(failed_on(failures_of(g, b), c) <==> exists|i: int|
        0 <= i < failures_of(g, b).len() && (#[trigger] failures_of(g, b)[i]).0 == c);
}

spec fn one_of(p: Seq<Failure>, c: Criterion) -> bool {
    p.len() == 1 && p[0].0 == c
}

proof fn lemma_failures_by_criterion(g: QualityGate, b: QualityBank, c: Criterion)
    ensures
        failed_on(failures_of(g, b), c) <==> (
        one_of(judged_positions(g, b), c)
            || one_of(judged_kl(g, b), c)
            || one_of(judged_count(g.top1_flip_max, b.logits.top1_flips, Criterion::Top1Flips), c)
            || one_of(judged_count(g.top10_change_max, b.logits.top10_changes, Criterion::Top10Changes), c)
            || one_of(judged_count(g.route_flip_max, b.routing.route_flips, Criterion::RouteFlips), c)
            || one_of(judged_consequence(g.top1_mass_displaced_max, max_of(b.top1_mass_displaced), unchanged(b, Criterion::Top1Displacement), Criterion::Top1Displacement, "top-1 probability given up"@), c)
            || one_of(judged_consequence(g.top10_mass_displaced_p99_max, p99_of(b.top10_mass_displaced), unchanged(b, Criterion::TopKDisplacement), Criterion::TopKDisplacement, "top-10 mass displaced at p99"@), c)
            || one_of(judged_consequence(g.route_mixture_mass_p99_max, p99_of(b.routing.route_weight_mass_moved), unchanged(b, Criterion::RouteDisplacement), Criterion::RouteDisplacement, "routed mixture moved at p99"@), c)
            || one_of(judged_consequence(g.route_mixture_mass_max, max_of(b.routing.route_weight_mass_moved), unchanged(b, Criterion::RouteDisplacement), Criterion::RouteDisplacement, "routed mixture moved at max"@), c)
            || one_of(judged_activations(g, b), c)
            || one_of(judged_coverage(g, b), c)
        ),
{
    let s0 = Seq::<Failure>::empty();
    let p1 = judged_positions(g, b);
    let s1 = s0 + p1;
    lemma_failed_joins(s0, p1, c);
    lemma_failed_group(p1, c);
    let p2 = judged_kl(g, b);
    let s2 = s1 + p2;
    lemma_failed_joins(s1, p2, c);
    lemma_failed_group(p2, c);
    let p3 = judged_count(g.top1_flip_max, b.logits.top1_flips, Criterion::Top1Flips);
    let s3 = s2 + p3;
    lemma_failed_joins(s2, p3, c);
    lemma_failed_group(p3, c);
    let p4 = judged_count(g.top10_change_max, b.logits.top10_changes, Criterion::Top10Changes);
    let s4 = s3 + p4;
    lemma_failed_joins(s3, p4, c);
    lemma_failed_group(p4, c);
    let p5 = judged_count(g.route_flip_max, b.routing.route_flips, Criterion::RouteFlips);
    let s5 = s4 + p5;
    lemma_failed_joins(s4, p5, c);
    lemma_failed_group(p5, c);
    let p6 = judged_consequence(g.top1_mass_displaced_max, max_of(b.top1_mass_displaced), unchanged(b, Criterion::Top1Displacement), Criterion::Top1Displacement, "top-1 probability given up"@);
    let s6 = s5 + p6;
    lemma_failed_joins(s5, p6, c);
    lemma_failed_group(p6, c);
    let p7 = judged_consequence(g.top10_mass_displaced_p99_max, p99_of(b.top10_mass_displaced), unchanged(b, Criterion::TopKDisplacement), Criterion::TopKDisplacement, "top-10 mass displaced at p99"@);
    let s7 = s6 + p7;
    lemma_failed_joins(s6, p7, c);
    lemma_failed_group(p7, c);
    let p8 = judged_consequence(g.route_mixture_mass_p99_max, p99_of(b.routing.route_weight_mass_moved), unchanged(b, Criterion::RouteDisplacement), Criterion::RouteDisplacement, "routed mixture moved at p99"@);
    let s8 = s7 + p8;
    lemma_failed_joins(s7, p8, c);
    lemma_failed_group(p8, c);
    let p9 = judged_consequence(g.route_mixture_mass_max, max_of(b.routing.route_weight_mass_moved), unchanged(b, Criterion::RouteDisplacement), Criterion::RouteDisplacement, "routed mixture moved at max"@);
    let s9 = s8 + p9;
    lemma_failed_joins(s8, p9, c);
    lemma_failed_group(p9, c);
    let p10 = judged_activations(g, b);
    let s10 = s9 + p10;
    lemma_failed_joins(s9, p10, c);
    lemma_failed_group(p10, c);
    let p11 = judged_coverage(g, b);
    let s11 = s10 + p11;
    lemma_failed_joins(s10, p11, c);
    lemma_failed_group(p11, c);
    assert(s1 =~= p1);
    assert(failures_of(g, b) == s11);
}

/// **A bank passes exactly where no criterion fails it.**
pub proof fn law_a_bank_passes_where_nothing_fails(g: QualityGate, b: QualityBank)
    ensures
        passes(g, b) <==> forall|c: Criterion| !#[trigger] failed_on(failures_of(g, b), c),
{
    let f = failures_of(g, b);
    if f.len() > 0 {
        assert(f[0].0 == f[0].0);
        assert(failed_on(f, f[0].0));
    }
}

/// **Only what a gate judges decides.** Banks that agree in the positions, in
/// the divergence at p99, in the counts, in coverage and activations, and in
/// the p99 and the largest value of what was displaced, fail on the same
/// criteria with the same words, whatever their other statistics are.
pub proof fn law_only_what_is_judged_decides(g: QualityGate, a: QualityBank, b: QualityBank)
    requires
        a.positions == b.positions,
        a.logits.kl_p99 == b.logits.kl_p99,
        a.logits.top1_flips == b.logits.top1_flips,
        a.logits.top10_changes == b.logits.top10_changes,
        a.routing.route_flips == b.routing.route_flips,
        a.min_covered_mass == b.min_covered_mass,
        a.activations == b.activations,
        match (a.top1_mass_displaced, b.top1_mass_displaced) {
            (Some(x), Some(y)) => x.max == y.max,
            (None, None) => true,
            _ => false,
        },
        match (a.top10_mass_displaced, b.top10_mass_displaced) {
            (Some(x), Some(y)) => x.p99 == y.p99,
            (None, None) => true,
            _ => false,
        },
        match (a.routing.route_weight_mass_moved, b.routing.route_weight_mass_moved) {
            (Some(x), Some(y)) => x.p99 == y.p99 && x.max == y.max,
            (None, None) => true,
            _ => false,
        },
    ensures
        failures_of(g, a) == failures_of(g, b),
        passes(g, a) == passes(g, b),
{
}

/// **A p99 limit bounds the p99.** A bank whose top-10 mass displaced, or
/// whose routed mixture moved, is not within its limit at p99 is refused, and
/// so is one whose largest value is not within a limit on the largest.
pub proof fn law_a_p99_limit_bounds_the_p99(g: QualityGate, b: QualityBank)
    ensures
        g.top10_mass_displaced_p99_max is Some && b.top10_mass_displaced is Some
            && !b.top10_mass_displaced->0.p99.within(g.top10_mass_displaced_p99_max->0) ==> !passes(
            g,
            b,
        ),
        g.route_mixture_mass_p99_max is Some && b.routing.route_weight_mass_moved is Some
            && !b.routing.route_weight_mass_moved->0.p99.within(g.route_mixture_mass_p99_max->0)
            ==> !passes(g, b),
        g.route_mixture_mass_max is Some && b.routing.route_weight_mass_moved is Some
            && !b.routing.route_weight_mass_moved->0.max.within(g.route_mixture_mass_max->0)
            ==> !passes(g, b),
        g.top1_mass_displaced_max is Some && b.top1_mass_displaced is Some
            && !b.top1_mass_displaced->0.max.within(g.top1_mass_displaced_max->0) ==> !passes(g, b),
{
    law_what_each_criterion_fails_on(g, b, Criterion::TopKDisplacement);
    law_what_each_criterion_fails_on(g, b, Criterion::RouteDisplacement);
    law_what_each_criterion_fails_on(g, b, Criterion::Top1Displacement);
}

/// **A stricter gate passes no more.** Raising a limit a gate has, or lowering
/// a floor, keeps every bank that passed.
pub proof fn law_a_looser_gate_passes_no_less(g: QualityGate, looser: QualityGate, b: QualityBank)
    requires
        passes(g, b),
        looser.positions_min <= g.positions_min,
        g.kl_p99_max.within(looser.kl_p99_max),
        looser.top1_flip_max matches Some(l) ==> (g.top1_flip_max matches Some(k) && k <= l),
        looser.top10_change_max matches Some(l) ==> (g.top10_change_max matches Some(k) && k <= l),
        looser.route_flip_max matches Some(l) ==> (g.route_flip_max matches Some(k) && k <= l),
        looser.top1_mass_displaced_max matches Some(l) ==> (
        g.top1_mass_displaced_max matches Some(k) && k.within(l)),
        looser.top10_mass_displaced_p99_max matches Some(l) ==> (
        g.top10_mass_displaced_p99_max matches Some(k) && k.within(l)),
        looser.route_mixture_mass_p99_max matches Some(l) ==> (
        g.route_mixture_mass_p99_max matches Some(k) && k.within(l)),
        looser.route_mixture_mass_max matches Some(l) ==> (
        g.route_mixture_mass_max matches Some(k) && k.within(l)),
        looser.covered_mass_min matches Some(l) ==> (g.covered_mass_min matches Some(k) && l.within(
            k,
        )),
        looser.require_model_activations == Some(true) ==> g.require_model_activations == Some(
            true,
        ),
    ensures
        passes(looser, b),
{
    law_a_bank_passes_where_nothing_fails(g, b);
    law_a_bank_passes_where_nothing_fails(looser, b);
    assert forall|c: Criterion| !#[trigger] failed_on(failures_of(looser, b), c) by {
        assert(!failed_on(failures_of(g, b), c));
        law_what_each_criterion_fails_on(g, b, c);
        law_what_each_criterion_fails_on(looser, b, c);
    }
}

/// **The nearest rank.** The observation reported as the `p`-th percentile is
/// the first that at least `p` hundredths of the observations stand at or
/// before: fewer than that stand before it.
pub proof fn law_the_nearest_rank(p: int, n: int)
    requires
        0 < p <= 100,
        0 < n,
    ensures
        0 <= nearest_rank(p, n) < n,
        p * n <= 100 * (nearest_rank(p, n) + 1),
        100 * nearest_rank(p, n) < p * n,
{
    assert(0 < p * n <= 100 * n) by (nonlinear_arith)
        requires
            0 < p <= 100,
            0 < n,
    ;
}

/// **The output moved where any statistic of it did.**
pub proof fn law_what_counts_as_movement(l: LogitEvidence)
    ensures
        !l.moved() <==> l.kl_p50.nought() && l.kl_p95.nought() && l.kl_p99.nought()
            && l.max_logit_delta.nought() && l.top1_flips == 0 && l.top10_changes == 0,
{
}

proof fn lemma_holds_either<T>(a: Seq<T>, b: Seq<T>, x: T)
    ensures
        a.contains(x) || b.contains(x) ==> (a + b).contains(x),
{
    let c = a + b;
    if a.contains(x) {
        let i = a.index_of(x);
        assert(c[i] == x);
    } else if b.contains(x) {
        let i = b.index_of(x);
        assert(c[a.len() + i] == x);
    }
}

/// What an asked row writes stands in the section.
proof fn lemma_section_holds(g: QualityGate, b: QualityBank, i: int, x: Shown)
    requires
        0 <= i < 8,
        authority_rows(g, b)[i].written().contains(x),
    ensures
        authority_section(g, b).contains(x),
{
    let rows = authority_rows(g, b);
    let s0 = report_header(g) + rows[0].written();
    let s1 = s0 + rows[1].written();
    let s2 = s1 + rows[2].written();
    let s3 = s2 + rows[3].written();
    let s4 = s3 + rows[4].written();
    let s5 = s4 + rows[5].written();
    let s6 = s5 + rows[6].written();
    lemma_holds_either(report_header(g), rows[0].written(), x);
    lemma_holds_either(s0, rows[1].written(), x);
    lemma_holds_either(s1, rows[2].written(), x);
    lemma_holds_either(s2, rows[3].written(), x);
    lemma_holds_either(s3, rows[4].written(), x);
    lemma_holds_either(s4, rows[5].written(), x);
    lemma_holds_either(s5, rows[6].written(), x);
    lemma_holds_either(s6, rows[7].written(), x);
}

/// What an asked row says stands in the section.
proof fn lemma_detail_is_shown(g: QualityGate, b: QualityBank, i: int, x: Shown)
    requires
        0 <= i < 8,
        authority_rows(g, b)[i].asked,
        authority_rows(g, b)[i].detail.contains(x),
    ensures
        authority_section(g, b).contains(x),
{
    let row = authority_rows(g, b)[i];
    let head = seq![
        Shown::Words("  "@),
        Shown::Words(column(row.name)),
        Shown::Words(
            if row.failed {
                " FAIL   "@
            } else {
                " PASS   "@
            },
        ),
    ];
    lemma_holds_either(head, row.detail, x);
    lemma_holds_either(head + row.detail, seq![Shown::Words("\n"@)], x);
    lemma_section_holds(g, b, i, x);
}

/// A statistic against its bound shows both.
proof fn lemma_against(measured: Option<Shown>, bound: Option<Shown>, dir: Seq<char>)
    ensures
        bound matches Some(l) ==> against(measured, bound, dir).contains(l),
        bound is Some && measured is Some ==> against(measured, bound, dir).contains(measured->0),
{
    let s = against(measured, bound, dir);
    if let Some(l) = bound {
        assert(s.last() == l);
        assert(s[s.len() - 1] == l);
        if let Some(m) = measured {
            assert(s[0] == m);
        }
    }
}

/// **A report shows what decided.** Each bound a gate has stands in the report
/// beside the statistic it bounds: divergence at p99, the largest top-1
/// displacement, the top-10 displacement at p99, the routed mixture at p99 and
/// at its largest, the coverage.
pub proof fn law_a_report_shows_what_decided(g: QualityGate, b: QualityBank)
    ensures
        ({
            let s = authority_section(g, b);
            &&& s.contains(Shown::Scientific(b.logits.kl_p99))
            &&& s.contains(Shown::Scientific(g.kl_p99_max))
            &&& g.covered_mass_min matches Some(l) ==> s.contains(Shown::Scientific(l)) && (
            b.min_covered_mass matches Some(x) ==> s.contains(Shown::Scientific(x)))
            &&& g.top1_mass_displaced_max matches Some(l) ==> s.contains(Shown::Scientific(l)) && (
            b.top1_mass_displaced matches Some(d) ==> s.contains(Shown::Scientific(d.max)))
            &&& g.top10_mass_displaced_p99_max matches Some(l) ==> s.contains(Shown::Scientific(l))
                && (b.top10_mass_displaced matches Some(d) ==> s.contains(
                Shown::Scientific(d.p99),
            ))
            &&& g.route_mixture_mass_p99_max matches Some(l) ==> s.contains(Shown::Scientific(l))
                && (b.routing.route_weight_mass_moved matches Some(d) ==> s.contains(
                Shown::Scientific(d.p99),
            ))
            &&& g.route_mixture_mass_max matches Some(l) ==> s.contains(Shown::Scientific(l)) && (
            b.routing.route_weight_mass_moved matches Some(d) ==> s.contains(
                Shown::Scientific(d.max),
            ))
        }),
{
    let s = authority_section(g, b);
    let rows = authority_rows(g, b);
    let kl = Shown::Scientific(b.logits.kl_p99);
    let kl_max = Shown::Scientific(g.kl_p99_max);
    lemma_against(Some(kl), Some(kl_max), "<="@);
    lemma_detail_is_shown(g, b, 1, kl);
    lemma_detail_is_shown(g, b, 1, kl_max);
    if let Some(l) = g.covered_mass_min {
        lemma_against(sci(b.min_covered_mass), sci(g.covered_mass_min), ">="@);
        lemma_detail_is_shown(g, b, 2, Shown::Scientific(l));
        if let Some(x) = b.min_covered_mass {
            lemma_detail_is_shown(g, b, 2, Shown::Scientific(x));
        }
    }
    if let Some(l) = g.top1_mass_displaced_max {
        let a = against(sci(max_of(b.top1_mass_displaced)), sci(g.top1_mass_displaced_max), "<="@);
        lemma_against(sci(max_of(b.top1_mass_displaced)), sci(g.top1_mass_displaced_max), "<="@);
        lemma_holds_either(seq![Shown::Words("max "@)], a, Shown::Scientific(l));
        lemma_detail_is_shown(g, b, 3, Shown::Scientific(l));
        if let Some(d) = b.top1_mass_displaced {
            lemma_holds_either(seq![Shown::Words("max "@)], a, Shown::Scientific(d.max));
            lemma_detail_is_shown(g, b, 3, Shown::Scientific(d.max));
        }
    }
    if let Some(l) = g.top10_mass_displaced_p99_max {
        let a = against(
            sci(p99_of(b.top10_mass_displaced)),
            sci(g.top10_mass_displaced_p99_max),
            "<="@,
        );
        lemma_against(
            sci(p99_of(b.top10_mass_displaced)),
            sci(g.top10_mass_displaced_p99_max),
            "<="@,
        );
        lemma_holds_either(seq![Shown::Words("p99 "@)], a, Shown::Scientific(l));
        lemma_detail_is_shown(g, b, 4, Shown::Scientific(l));
        if let Some(d) = b.top10_mass_displaced {
            lemma_holds_either(seq![Shown::Words("p99 "@)], a, Shown::Scientific(d.p99));
            lemma_detail_is_shown(g, b, 4, Shown::Scientific(d.p99));
        }
    }
    let route = b.routing.route_weight_mass_moved;
    if let Some(l) = g.route_mixture_mass_p99_max {
        lemma_route_detail(g, b, Shown::Scientific(l));
        lemma_against(sci(p99_of(route)), sci(g.route_mixture_mass_p99_max), "<="@);
        lemma_detail_is_shown(g, b, 5, Shown::Scientific(l));
        if let Some(d) = route {
            lemma_route_detail(g, b, Shown::Scientific(d.p99));
            lemma_detail_is_shown(g, b, 5, Shown::Scientific(d.p99));
        }
    }
    if let Some(l) = g.route_mixture_mass_max {
        lemma_route_detail(g, b, Shown::Scientific(l));
        lemma_against(sci(max_of(route)), sci(g.route_mixture_mass_max), "<="@);
        lemma_detail_is_shown(g, b, 5, Shown::Scientific(l));
        if let Some(d) = route {
            lemma_route_detail(g, b, Shown::Scientific(d.max));
            lemma_detail_is_shown(g, b, 5, Shown::Scientific(d.max));
        }
    }
}

proof fn lemma_route_detail(g: QualityGate, b: QualityBank, x: Shown)
    ensures
        g.route_mixture_mass_p99_max is Some && against(
            sci(p99_of(b.routing.route_weight_mass_moved)),
            sci(g.route_mixture_mass_p99_max),
            "<="@,
        ).contains(x) ==> route_detail(g, b).contains(x),
        g.route_mixture_mass_max is Some && against(
            sci(max_of(b.routing.route_weight_mass_moved)),
            sci(g.route_mixture_mass_max),
            "<="@,
        ).contains(x) ==> route_detail(g, b).contains(x),
{
    let route = b.routing.route_weight_mass_moved;
    let u = against(sci(p99_of(route)), sci(g.route_mixture_mass_p99_max), "<="@);
    let v = against(sci(max_of(route)), sci(g.route_mixture_mass_max), "<="@);
    let p99 = if g.route_mixture_mass_p99_max is Some {
        seq![Shown::Words("p99 "@)] + u
    } else {
        Seq::empty()
    };
    let max = if g.route_mixture_mass_max is Some {
        seq![Shown::Words("max "@)] + v
    } else {
        Seq::empty()
    };
    lemma_holds_either(seq![Shown::Words("p99 "@)], u, x);
    lemma_holds_either(seq![Shown::Words("max "@)], v, x);
    lemma_holds_either(p99, max, x);
    lemma_holds_either(p99, seq![Shown::Words("; "@)], x);
    lemma_holds_either(p99 + seq![Shown::Words("; "@)], max, x);
}

/// A failure shows the limit it is over and, where there is one, the
/// statistic that is over it.
pub open spec fn shows_what_it_saw(g: QualityGate, b: QualityBank, f: Failure) -> bool {
    match f.0 {
        Criterion::KlP99 => f.1.contains(Shown::Scientific(b.logits.kl_p99)) && f.1.contains(
            Shown::Scientific(g.kl_p99_max),
        ),
        Criterion::Top1Displacement => g.top1_mass_displaced_max matches Some(l) && f.1.contains(
            Shown::Fixed(l),
        ) && (b.top1_mass_displaced matches Some(d) ==> f.1.contains(Shown::Fixed(d.max))),
        Criterion::TopKDisplacement => g.top10_mass_displaced_p99_max matches Some(l)
            && f.1.contains(Shown::Fixed(l)) && (b.top10_mass_displaced matches Some(d)
            ==> f.1.contains(Shown::Fixed(d.p99))),
        Criterion::RouteDisplacement => {
            ||| g.route_mixture_mass_p99_max matches Some(l) && f.1.contains(Shown::Fixed(l)) && (
            b.routing.route_weight_mass_moved matches Some(d) ==> f.1.contains(
                Shown::Fixed(d.p99),
            ))
            ||| g.route_mixture_mass_max matches Some(l) && f.1.contains(Shown::Fixed(l)) && (
            b.routing.route_weight_mass_moved matches Some(d) ==> f.1.contains(
                Shown::Fixed(d.max),
            ))
        },
        Criterion::CoveredMass => g.covered_mass_min matches Some(l) && f.1.contains(
            Shown::Fixed(l),
        ) && (b.min_covered_mass matches Some(x) ==> f.1.contains(Shown::Fixed(x))),
        _ => f.1.len() > 0,
    }
}

spec fn all_show(g: QualityGate, b: QualityBank, s: Seq<Failure>) -> bool {
    forall|i: int| 0 <= i < s.len() ==> shows_what_it_saw(g, b, #[trigger] s[i])
}

proof fn lemma_show_joined(g: QualityGate, b: QualityBank, x: Seq<Failure>, y: Seq<Failure>)
    requires
        all_show(g, b, x),
        all_show(g, b, y),
    ensures
        all_show(g, b, x + y),
{
    let z = x + y;
    assert forall|i: int| 0 <= i < z.len() implies shows_what_it_saw(g, b, #[trigger] z[i]) by {
        if i < x.len() {
            assert(z[i] == x[i]);
        } else {
            assert(z[i] == y[i - x.len()]);
        }
    }
}

proof fn lemma_consequence_shows(
    limit: Option<Reading>,
    observed: Option<Reading>,
    unchanged: bool,
    c: Criterion,
    what: Seq<char>,
)
    ensures
        ({
            let s = judged_consequence(limit, observed, unchanged, c, what);
            forall|i: int|
                0 <= i < s.len() ==> (#[trigger] s[i]).0 == c && (limit matches Some(l)
                    && s[i].1.contains(Shown::Fixed(l))) && (observed matches Some(x)
                    ==> s[i].1.contains(Shown::Fixed(x)))
        }),
{
    let s = judged_consequence(limit, observed, unchanged, c, what);
    if s.len() > 0 {
        let t = s[0].1;
        if observed is Some {
            assert(t[2] == Shown::Fixed(observed->0));
            assert(t[4] == Shown::Fixed(limit->0));
        } else {
            assert(t[2] == Shown::Fixed(limit->0));
        }
    }
}

/// **Every failure says what it saw against what it required**, at the
/// statistic the limit is of.
pub proof fn law_a_failure_shows_what_it_saw(g: QualityGate, b: QualityBank, i: int)
    requires
        0 <= i < failures_of(g, b).len(),
    ensures
        shows_what_it_saw(g, b, failures_of(g, b)[i]),
{
    let p0 = judged_positions(g, b);
    let p1 = judged_kl(g, b);
    let p2 = judged_count(g.top1_flip_max, b.logits.top1_flips, Criterion::Top1Flips);
    let p3 = judged_count(g.top10_change_max, b.logits.top10_changes, Criterion::Top10Changes);
    let p4 = judged_count(g.route_flip_max, b.routing.route_flips, Criterion::RouteFlips);
    let p5 = judged_consequence(
        g.top1_mass_displaced_max,
        max_of(b.top1_mass_displaced),
        unchanged(b, Criterion::Top1Displacement),
        Criterion::Top1Displacement,
        "top-1 probability given up"@,
    );
    let p6 = judged_consequence(
        g.top10_mass_displaced_p99_max,
        p99_of(b.top10_mass_displaced),
        unchanged(b, Criterion::TopKDisplacement),
        Criterion::TopKDisplacement,
        "top-10 mass displaced at p99"@,
    );
    let p7 = judged_consequence(
        g.route_mixture_mass_p99_max,
        p99_of(b.routing.route_weight_mass_moved),
        unchanged(b, Criterion::RouteDisplacement),
        Criterion::RouteDisplacement,
        "routed mixture moved at p99"@,
    );
    let p8 = judged_consequence(
        g.route_mixture_mass_max,
        max_of(b.routing.route_weight_mass_moved),
        unchanged(b, Criterion::RouteDisplacement),
        Criterion::RouteDisplacement,
        "routed mixture moved at max"@,
    );
    let p9 = judged_activations(g, b);
    let p10 = judged_coverage(g, b);
    if p1.len() > 0 {
        assert(p1[0].1[0] == Shown::Scientific(b.logits.kl_p99));
        assert(p1[0].1[2] == Shown::Scientific(g.kl_p99_max));
    }
    lemma_consequence_shows(
        g.top1_mass_displaced_max,
        max_of(b.top1_mass_displaced),
        unchanged(b, Criterion::Top1Displacement),
        Criterion::Top1Displacement,
        "top-1 probability given up"@,
    );
    lemma_consequence_shows(
        g.top10_mass_displaced_p99_max,
        p99_of(b.top10_mass_displaced),
        unchanged(b, Criterion::TopKDisplacement),
        Criterion::TopKDisplacement,
        "top-10 mass displaced at p99"@,
    );
    lemma_consequence_shows(
        g.route_mixture_mass_p99_max,
        p99_of(b.routing.route_weight_mass_moved),
        unchanged(b, Criterion::RouteDisplacement),
        Criterion::RouteDisplacement,
        "routed mixture moved at p99"@,
    );
    lemma_consequence_shows(
        g.route_mixture_mass_max,
        max_of(b.routing.route_weight_mass_moved),
        unchanged(b, Criterion::RouteDisplacement),
        Criterion::RouteDisplacement,
        "routed mixture moved at max"@,
    );
    if p10.len() > 0 {
        let t = p10[0].1;
        if b.min_covered_mass is Some {
            assert(t[0] == Shown::Fixed(b.min_covered_mass->0));
            assert(t[2] == Shown::Fixed(g.covered_mass_min->0));
        } else {
            assert(t[1] == Shown::Fixed(g.covered_mass_min->0));
        }
    }
    assert(all_show(g, b, p0) && all_show(g, b, p1) && all_show(g, b, p2) && all_show(g, b, p3)
        && all_show(g, b, p4));
    assert(all_show(g, b, p5) && all_show(g, b, p6) && all_show(g, b, p7) && all_show(g, b, p8));
    assert(all_show(g, b, p9) && all_show(g, b, p10));
    lemma_show_joined(g, b, p0, p1);
    lemma_show_joined(g, b, p0 + p1, p2);
    lemma_show_joined(g, b, p0 + p1 + p2, p3);
    lemma_show_joined(g, b, p0 + p1 + p2 + p3, p4);
    lemma_show_joined(g, b, p0 + p1 + p2 + p3 + p4, p5);
    lemma_show_joined(g, b, p0 + p1 + p2 + p3 + p4 + p5, p6);
    lemma_show_joined(g, b, p0 + p1 + p2 + p3 + p4 + p5 + p6, p7);
    lemma_show_joined(g, b, p0 + p1 + p2 + p3 + p4 + p5 + p6 + p7, p8);
    lemma_show_joined(g, b, p0 + p1 + p2 + p3 + p4 + p5 + p6 + p7 + p8, p9);
    lemma_show_joined(g, b, p0 + p1 + p2 + p3 + p4 + p5 + p6 + p7 + p8 + p9, p10);
}

/// **A distribution is written out whole**: each of its numbers stands right
/// behind its own name.
pub proof fn law_a_distribution_is_written_whole(field: Seq<char>, d: Distribution)
    ensures
        ({
            let s = distribution_shown(field, Some(d));
            &&& s[0] == Shown::Words(field)
            &&& forall|i: int|
                0 <= i < s.len() - 1 ==> {
                    &&& #[trigger] s[i] == Shown::Words(", p50: "@) ==> s[i + 1] == Shown::Plain(
                        d.p50,
                    ) || i == 0
                    &&& s[i] == Shown::Words(", p95: "@) ==> s[i + 1] == Shown::Plain(d.p95) || i
                        == 0
                    &&& s[i] == Shown::Words(", p99: "@) ==> s[i + 1] == Shown::Plain(d.p99) || i
                        == 0
                    &&& s[i] == Shown::Words(", max: "@) ==> s[i + 1] == Shown::Plain(d.max) || i
                        == 0
                }
            &&& s.contains(Shown::Plain(d.min)) && s.contains(Shown::Plain(d.p50)) && s.contains(
                Shown::Plain(d.p95),
            ) && s.contains(Shown::Plain(d.p99)) && s.contains(Shown::Plain(d.max))
        }),
{
    let s = distribution_shown(field, Some(d));
    reveal_strlit(", p50: ");
    reveal_strlit(", p95: ");
    reveal_strlit(", p99: ");
    reveal_strlit(", max: ");
    reveal_strlit("Some(Distribution { count: ");
    assert(", p50: "@[3] == '5' && ", p95: "@[4] == '5' && ", p99: "@[4] == '9' && ", max: "@[2]
        == 'm');
    assert(", p50: "@[2] == 'p' && ", p95: "@[2] == 'p' && ", p99: "@[2] == 'p');
    assert(", p95: "@[3] == '9' && ", p99: "@[3] == '9');
    let head = "Some(Distribution { count: "@ + decimal(d.count as nat) + ", min: "@;
    assert(head[0] == 'S');
    assert(", p50: "@[0] == ',' && ", p95: "@[0] == ',' && ", p99: "@[0] == ',' && ", max: "@[0]
        == ',');
    assert(s[2] == Shown::Plain(d.min));
    assert(s[4] == Shown::Plain(d.p50));
    assert(s[6] == Shown::Plain(d.p95));
    assert(s[8] == Shown::Plain(d.p99));
    assert(s[10] == Shown::Plain(d.max));
}

} // verus!

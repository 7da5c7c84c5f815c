//! Experiments: the declarations behind their identities, and measuring
//! several together.
use larql_represent::candidate::MeasurementIntent;
use larql_represent::coexecution::{BatchRefusal, ExecutionBatch, Fraction, SharingLedger};
use larql_represent::evidence_bank::EvidenceBank;
use larql_represent::identity::RepresentationState;
use larql_represent::instrument::InstrumentSemantics;
use larql_represent::key::MeasurementKey;
use larql_represent::map::{Exception, PrecisionMap};
use larql_represent::measurement::EvidenceScale;
use larql_represent::nvfp4_pack::DTYPE_NVFP4;
use larql_represent::policy::Role;
use larql_represent::protocol::{MeasurementProtocol, ProtocolMismatch};
use larql_represent::reading::{Phrase, Piece};
use larql_represent::realization::{LogicalBytes, ResolvedState};
use larql_represent::resolved::PackLayoutAdmission;
use larql_represent::source_identity::SourceIdentity;
use larql_represent::surface::{SurfaceTensor, TensorSurface};

/// A phrase, with its numbers written out.
fn say(p: &Phrase) -> String {
    p.pieces
        .iter()
        .map(|piece| match piece {
            Piece::Words(w) => w.clone(),
            Piece::Scientific(v) => format!("{:.3e}", f64::from_bits(v.bits)),
            Piece::Fixed(v) => format!("{:.4}", f64::from_bits(v.bits)),
            Piece::CountScientific(n) => format!("{:.3e}", *n as f64),
            Piece::Times(n, d) => format!("{:.2}", *n as f64 / *d as f64),
            Piece::Percent(n, d) => format!("{:.1}", *n as f64 / *d as f64 * 100.0),
            Piece::Quoted(w) => format!("{w:?}"),
            Piece::Plain(v) => format!("{:?}", f64::from_bits(v.bits)),
        })
        .collect()
}

fn model() -> SourceIdentity {
    SourceIdentity::synthetic(
        "kimi-linear-48b",
        "aligned-vindex3",
        vec![("target.decoder_stack".to_string(), "seg-dddd".to_string())],
    )
}

fn surface() -> TensorSurface {
    TensorSurface::new(
        ["q_proj", "k_proj", "v_proj", "o_proj"]
            .into_iter()
            .map(|p| {
                SurfaceTensor::new(
                    "target.decoder_stack",
                    &format!("0.self_attn.{p}.weight"),
                    Role::DecoderLinear,
                    vec![64, 64],
                )
            })
            .collect(),
    )
    .expect("distinct tensors")
}

fn protect(projection: &str) -> Exception {
    Exception {
        role: None,
        projection: Some(projection.into()),
        layers: None,
        encoding: None,
    }
}

fn map(exceptions: Vec<Exception>) -> PrecisionMap {
    PrecisionMap {
        name: "m".into(),
        encoding: DTYPE_NVFP4.into(),
        roles: vec!["decoder-linear".into()],
        exceptions,
    }
}

fn realization(exceptions: Vec<Exception>, bytes: u64) -> ResolvedState {
    ResolvedState::new(
        RepresentationState::resolve(&model(), &surface(), &map(exceptions), &PackLayoutAdmission),
        LogicalBytes::new(bytes),
    )
}

fn p() -> ResolvedState {
    realization(vec![protect("v_proj"), protect("o_proj")], 13_684_764_800)
}
fn t1() -> ResolvedState {
    realization(vec![protect("o_proj")], 13_682_673_664)
}
fn s2() -> ResolvedState {
    realization(vec![protect("k_proj")], 13_602_484_352)
}
fn s1() -> ResolvedState {
    realization(vec![], 13_600_393_216)
}

fn selection_bank() -> EvidenceBank {
    EvidenceBank::new(
        "kimi-teacher-forced/v1",
        "17d59a6b",
        (0..256).map(|i| format!("seq-{i:03}")).collect(),
        32,
    )
}

fn instrument() -> InstrumentSemantics {
    InstrumentSemantics::new(
        "kl(baseline || candidate)",
        "distribution{min,p50,p95,p99,max}",
        "teacher-forced, all positions",
        "q2a-teacher-forced/baseline-vs-overlay",
    )
    .truncated_to(2048)
}

fn key_for(s: &ResolvedState, scale: EvidenceScale) -> MeasurementKey {
    MeasurementKey::new(
        s.physical_id(),
        &selection_bank().id(),
        scale,
        &instrument().id(),
    )
}

/// The declarations the record's standing intent stands for.
///
/// The bank and instrument are the same values `standing_intent` is
/// built from — one authority, so the record cannot describe a protocol
/// it does not search under.
fn protocol() -> MeasurementProtocol {
    MeasurementProtocol::new(selection_bank(), instrument(), "teacher-forced-two-arm/v1")
}

/// The experiment the record's next run would be.
fn standing_intent() -> MeasurementIntent {
    MeasurementIntent::new(
        selection_bank().id(),
        EvidenceScale::Authority,
        instrument().id(),
    )
}

fn keys(scale: EvidenceScale) -> Vec<MeasurementKey> {
    [
        p(),
        t1(),
        s2(),
        s1(),
    ]
    .iter()
    .map(|s| key_for(s, scale))
    .collect()
}

/// **THE property.** Assembling a batch leaves every member's key
/// bit-identical to the key it would have had alone, in the same order.
#[test]
fn batching_does_not_change_any_members_identity() {
    let alone = keys(EvidenceScale::Authority);
    let batch = ExecutionBatch::assemble(alone.clone()).expect("co-executable");
    assert_eq!(batch.members(), alone.as_slice());
    assert_eq!(batch.len(), 4);
    // and each digest individually, so a reordering could not pass
    for (b, a) in batch.members().iter().zip(&alone) {
        assert_eq!(b.as_str(), a.as_str());
        assert_eq!(b.state(), a.state());
        assert_eq!(b.bank(), a.bank());
        assert_eq!(b.scale(), a.scale());
        assert_eq!(b.instrument(), a.instrument());
    }
}

/// A batch spanning two evidence SCALES is refused: one run cannot be
/// both a diagnostic and an authority reading, and the ladder is built
/// on their being different experiments.
#[test]
fn requests_at_different_scales_are_not_co_executable() {
    let two = vec![
        key_for(&p(), EvidenceScale::Authority),
        key_for(&t1(), EvidenceScale::Diagnostic),
    ];
    assert_eq!(ExecutionBatch::assemble(two), Err(BatchRefusal::MixedScale));
}

/// The same state twice would be recorded twice under one key, which the
/// registry cannot tell from a repeated measurement.
#[test]
fn a_repeated_state_is_refused() {
    let p = key_for(&p(), EvidenceScale::Authority);
    assert_eq!(
        ExecutionBatch::assemble(vec![p.clone(), p]),
        Err(BatchRefusal::DuplicateState)
    );
}

/// An empty batch is refused rather than succeeding vacuously — a batch
/// that "completes" with no members reads downstream as a measurement.
#[test]
fn an_empty_batch_is_refused() {
    assert_eq!(ExecutionBatch::assemble(vec![]), Err(BatchRefusal::Empty));
    for r in [
        BatchRefusal::Empty,
        BatchRefusal::MixedBank,
        BatchRefusal::MixedScale,
        BatchRefusal::MixedInstrument,
        BatchRefusal::DuplicateState,
    ] {
        assert!(!r.describe().is_empty(), "every refusal must say why");
    }
}

/// A single request is a legal batch of one. The abstraction must not
/// require a population to be usable, or the executor grows a second
/// path for the ordinary case.
#[test]
fn one_request_is_a_legal_batch() {
    let one = vec![key_for(&p(), EvidenceScale::Authority)];
    let b = ExecutionBatch::assemble(one.clone()).expect("batch of one");
    assert_eq!(b.members(), one.as_slice());
}

fn ratio(parts: (u128, u64)) -> f64 {
    parts.0 as f64 / parts.1 as f64
}

fn share(part: Fraction) -> f64 {
    part.numerator as f64 / part.denominator as f64
}

/// The ledger reports what was shared, and is undefined rather than
/// misleading when there is nothing to divide by.
#[test]
fn the_sharing_ledger_reports_amplification_against_one_member() {
    // The GLM shape: 8 arms, 53 experts materialised where 8 isolated
    // traversals would have touched 8 x 53-ish.
    let l = SharingLedger {
        members: 8,
        units_if_isolated: 8 * 49,
        units_materialised: 53,
    };
    let amp = ratio(l.amplification_vs_one().expect("defined"));
    assert!((amp - 53.0 / 49.0).abs() < 1e-12, "{amp}");
    assert!(amp > 1.0 && amp < 1.2, "expected ~1.08x, got {amp}");
    let saved = share(l.saving().expect("defined"));
    assert!(
        saved > 0.85,
        "8 arms for 1.08x should save >85%, got {saved}"
    );
    assert!(say(&l.describe()).contains("8 members"));
    assert_eq!(
        say(&l.describe()),
        "8 members: materialised 53 of 392 isolated units — 1.08x one member, 86.5% saved"
    );

    // Shared nothing: amplification equals the member count.
    let none = SharingLedger {
        members: 4,
        units_if_isolated: 40,
        units_materialised: 40,
    };
    assert!((ratio(none.amplification_vs_one().expect("defined")) - 4.0).abs() < 1e-12);
    assert_eq!(none.saving().map(share), Some(0.0));

    // Nothing materialised: no ratio is reported rather than 0 or NaN.
    let empty = SharingLedger {
        members: 0,
        units_if_isolated: 0,
        units_materialised: 0,
    };
    assert_eq!(empty.amplification_vs_one(), None);
    assert_eq!(empty.saving(), None);
    assert!(say(&empty.describe()).contains("nothing materialised"));
    assert_eq!(say(&empty.describe()), "0 members: nothing materialised");
}

fn other_bank() -> EvidenceBank {
    // The same corpus sliced to 32 of its 256 sequences: the difference
    // between a diagnostic and an authority run, and the case the bank
    // id exists to make visible.
    EvidenceBank::new(
        "kimi-teacher-forced/v1",
        "17d59a6b",
        (0..32).map(|i| format!("seq-{i:03}")).collect(),
        32,
    )
}

#[test]
fn the_record_s_protocol_describes_the_experiment_it_searches_under() {
    let protocol = protocol();
    protocol
        .describes(&standing_intent())
        .expect("the fixture's declarations are the ones its intent names");
    protocol
        .describes_key(&key_for(&p(), EvidenceScale::Authority))
        .expect("and the ones a key built from that intent names");
}

#[test]
fn a_protocol_declaring_another_corpus_is_refused_naming_both_digests() {
    let protocol = MeasurementProtocol::new(
        other_bank(),
        instrument(),
        "teacher-forced-two-arm/v1",
    );
    let refusal = protocol
        .describes(&standing_intent())
        .expect_err("32 of 256 sequences is a different corpus");

    let ProtocolMismatch::Bank { declared, searched } = &refusal else {
        panic!("the corpus is what differs: {refusal:?}");
    };
    assert_eq!(declared, &other_bank().id());
    assert_eq!(searched, &selection_bank().id());
    // Both digests reach the reader, so the refusal can be acted on
    // without diffing two records by hand.
    let said = refusal.describe();
    assert!(said.contains(declared.short()), "{said}");
    assert!(said.contains(searched.short()), "{said}");
}

#[test]
fn a_protocol_declaring_another_meaning_is_refused_distinctly() {
    // Same corpus, same procedure, a truncation covering a third of the
    // mass instead of most of it — which 1c established is a different
    // measurement and not a repeat.
    let protocol = MeasurementProtocol::new(
        selection_bank(),
        instrument().truncated_to(128),
        "teacher-forced-two-arm/v1",
    );
    let refusal = protocol
        .describes(&standing_intent())
        .expect_err("another truncation is another instrument");
    assert!(
        matches!(refusal, ProtocolMismatch::Instrument { .. }),
        "the meaning is what differs, and it must not be reported as a corpus: {refusal:?}"
    );
}

/// The two checks answer different questions, and the difference is
/// load bearing: `describes` says the record is internally consistent,
/// `describes_key` says THIS experiment is the one the declarations
/// cover. A policy that ever selects under another intent is caught
/// only by the second.
#[test]
fn describing_the_intent_does_not_describe_every_key() {
    let protocol = protocol();
    protocol
        .describes(&standing_intent())
        .expect("internally consistent");

    let foreign = MeasurementKey::new(
        p().physical_id(),
        &other_bank().id(),
        EvidenceScale::Authority,
        &instrument().id(),
    );
    let refusal = protocol
        .describes_key(&foreign)
        .expect_err("a key over another corpus is not covered by these declarations");
    assert!(
        matches!(refusal, ProtocolMismatch::Bank { .. }),
        "{refusal:?}"
    );
}

/// `LARQL_Q2A_SEQUENCES` took 32 of 256 and nothing recorded which 32.
/// A record-derived run consumes exactly the samples its own bank id
/// was computed over, so the slice is no longer a control anyone sets.
#[test]
fn sequences_come_from_the_declaration_rather_than_from_a_setting() {
    let protocol = protocol();
    assert_eq!(protocol.sequences(), 256);
    assert_eq!(protocol.bank.positions(), 8192);

    let sliced = MeasurementProtocol::new(
        other_bank(),
        instrument(),
        "teacher-forced-two-arm/v1",
    );
    assert_eq!(sliced.sequences(), 32);
    assert_eq!(sliced.bank.positions(), 1024);
    // And the two are not the same experiment, which is why the count
    // may be read off the declaration at all.
    assert_ne!(protocol.bank.id(), sliced.bank.id());
}

/// The procedure to perform and the procedure a reading was taken under
/// are two different claims in two different namespaces. Nothing here
/// asserts a mapping between them, and the instrument's own string
/// stays inside its digest where 1c put it.
#[test]
fn the_executable_procedure_is_not_the_instrument_s_procedure() {
    let protocol = protocol();
    assert_eq!(protocol.procedure, "teacher-forced-two-arm/v1");
    assert_eq!(
        protocol.instrument.procedure,
        "q2a-teacher-forced/baseline-vs-overlay"
    );

    // Renaming what this build performs cannot move what the reading
    // means; the instrument digest is unchanged.
    let renamed = MeasurementProtocol::new(
        selection_bank(),
        instrument(),
        "some-other-runner/v1",
    );
    assert_eq!(renamed.instrument.id(), protocol.instrument.id());
    renamed
        .describes(&standing_intent())
        .expect("the procedure is in no digest");
}

/// One bank, scale or instrument that differs names itself.
#[test]
fn a_batch_names_what_its_requests_differ_in() {
    let of = |bank: &EvidenceBank, inst: &InstrumentSemantics, s: &ResolvedState| {
        MeasurementKey::new(
            s.physical_id(),
            &bank.id(),
            EvidenceScale::Authority,
            &inst.id(),
        )
    };
    let first = key_for(&p(), EvidenceScale::Authority);
    let bank = of(&other_bank(), &instrument(), &t1());
    assert_eq!(
        ExecutionBatch::assemble(vec![first.clone(), bank.clone()]),
        Err(BatchRefusal::MixedBank)
    );
    let narrow = of(&selection_bank(), &instrument().truncated_to(128), &s2());
    assert_eq!(
        ExecutionBatch::assemble(vec![first.clone(), narrow.clone()]),
        Err(BatchRefusal::MixedInstrument)
    );
    // The first that differs is the one that is named.
    assert_eq!(
        ExecutionBatch::assemble(vec![first, narrow, bank]),
        Err(BatchRefusal::MixedInstrument)
    );
}

/// A protocol describes the intent it makes.
#[test]
fn a_protocol_describes_its_own_intent() {
    for scale in [EvidenceScale::Diagnostic, EvidenceScale::Authority] {
        let intent = protocol().intent(scale);
        assert_eq!(intent.scale, scale);
        assert_eq!(protocol().describes(&intent), Ok(()));
        assert_eq!(
            protocol().describes_key(&intent.key_for(p().physical_id())),
            Ok(())
        );
    }
}

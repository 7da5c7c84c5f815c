//! What a source container is, what it stores, and what states over it cost.
use larql_represent::accounting::{
    read_source_storage, verify_seal, PhysicalAccountingFacts, PhysicalAccountingSemantics,
    Segment, SegmentTensor, PHYSICAL_ACCOUNTING_PROCEDURE,
};
use larql_represent::action_space::{ActionVocabulary, MapEdit};
use larql_represent::assess::{NothingMeasured, RankingRule, RankingSemantics};
use larql_represent::bind::AccountingBindError;
use larql_represent::candidate::MeasurementIntent;
use larql_represent::digest::{digest_text, hash_bytes};
use larql_represent::evidence_bank::EvidenceBank;
use larql_represent::footprint::{
    compiled_bytes, CompiledBytes, Footprint, FootprintError, PackCompiledBytes, SurfaceFootprint,
};
use larql_represent::generator::{selectable, Generator};
use larql_represent::graph::TransitionPolicy;
use larql_represent::identity::RepresentationState;
use larql_represent::instrument::InstrumentSemantics;
use larql_represent::json::{canonical_json, Json};
use larql_represent::key::MeasurementRegistry;
use larql_represent::map::{Exception, PrecisionMap};
use larql_represent::measurement::EvidenceScale;
use larql_represent::nvfp4_pack::{PackLayout, DTYPE_NVFP4};
use larql_represent::policy::Role;
use larql_represent::realization::{LogicalBytes, ResolvedState};
use larql_represent::resolved::{
    layout_admission, resolve, LayoutPolicy, NoLayoutConstraint, PackLayoutAdmission,
    ResolvedDecision, ResolvedDecisionVector, ResolvedEncoding, PACK_LAYOUT_ADMISSION,
};
use larql_represent::search_policy::BestFirst;
use larql_represent::source_identity::{
    read_source_identity, RepresentationEntry, SourceIdentity, Vindex3Index,
};
use larql_represent::surface::{SurfaceTensor, TensorIdentity, TensorSurface};
use larql_represent::table::{NameSet, Table};

fn text(s: &str) -> Json {
    Json::Text(s.to_string())
}

fn object(members: Vec<(&str, Json)>) -> Json {
    Json::Object(
        members
            .into_iter()
            .map(|(k, v)| (k.to_string(), v))
            .collect(),
    )
}

// ---- digests and canonical documents ---------------------------------

#[test]
fn a_digest_is_lower_case_sha256() {
    assert_eq!(
        digest_text("abc"),
        "ba7816bf8f01cfea414140de5dae2223b00361a396177a9cb410ff61f20015ad"
    );
    assert_eq!(
        hash_bytes(&[]),
        "e3b0c44298fc1c149afbf4c8996fb92427ae41e4649b934ca495991b7852b855"
    );
}

#[test]
fn a_canonical_document_sorts_its_members_and_escapes_its_texts() {
    let doc = object(vec![
        ("b", Json::Number("1.50".to_string())),
        (
            "a",
            Json::Array(vec![
                Json::Bool(true),
                Json::Null,
                text("x\"\\\n\t\u{8}\u{c}\r\u{1}\u{1f}\u{7f}é/"),
                object(vec![]),
                Json::Array(vec![]),
                Json::Bool(false),
            ]),
        ),
    ]);
    assert_eq!(
        canonical_json(&doc),
        "{\"a\":[true,null,\"x\\\"\\\\\\n\\t\\b\\f\\r\\u0001\\u001f\u{7f}é/\",{},[],false],\"b\":1.50}"
    );
}

#[test]
fn key_order_is_not_written() {
    let one = object(vec![("k", text("v")), ("a", Json::Null)]);
    let two = object(vec![("a", Json::Null), ("k", text("v"))]);
    assert_eq!(canonical_json(&one), canonical_json(&two));
}

// ---- identity ---------------------------------------------------------

fn entry(segment: &str, bytes: &[u8], tensors: usize) -> RepresentationEntry {
    RepresentationEntry {
        object: "target.decoder_stack".to_string(),
        encoding: "BF16".to_string(),
        segment: segment.to_string(),
        tensor_count: tensors,
        payload_bytes: bytes.len() as u64,
        payload_sha256: "payload".to_string(),
        segment_sha256: hash_bytes(bytes),
        codec: None,
    }
}

fn index(entries: Vec<(&str, RepresentationEntry)>) -> Vindex3Index {
    let mut representations = Table::new();
    for (id, e) in entries {
        representations.insert(id.to_string(), e);
    }
    Vindex3Index {
        system_graph: Some("graph.json".to_string()),
        representations,
        document: object(vec![
            ("schema", text("vindex3")),
            ("system_graph", text("graph.json")),
            ("representations", object(vec![])),
            ("derived_from_model", text("/somewhere")),
        ]),
    }
}

#[test]
fn an_identity_seals_the_graph_the_entries_and_the_rest_of_the_index() {
    let mut e = entry("seg-0", b"bytes", 2);
    e.codec = Some(object(vec![("z", Json::Null), ("a", Json::Bool(true))]));
    let id = read_source_identity(&index(vec![("r0", e)]), "exported", b"graph").expect("identity");
    assert_eq!(id.artifact.as_str(), digest_text("exported"));
    assert_eq!(id.graph_hash(), hash_bytes(b"graph"));
    assert_eq!(
        id.semantic.catalogue_hash,
        digest_text("{\"schema\":\"vindex3\"}")
    );
    let sealed = format!(
        "source-semantic-id/v1\u{1d}graph={}\u{1d}catalogue={}\u{1d}representations=\
         r0\u{1f}target.decoder_stack\u{1f}BF16\u{1f}seg-0\u{1f}2\u{1f}5\u{1f}payload\u{1f}{}\u{1f}\
         {{\"a\":true,\"z\":null}}",
        hash_bytes(b"graph"),
        digest_text("{\"schema\":\"vindex3\"}"),
        hash_bytes(b"bytes"),
    );
    assert_eq!(id.semantic.canonical(), sealed);
    assert_eq!(id.semantic_digest(), digest_text(&sealed));
    assert_eq!(
        id.segments().get(&"seg-0".to_string()),
        Some(&"payload".to_string())
    );
}

#[test]
fn every_sealed_fact_moves_the_identity() {
    let of = |change: &dyn Fn(&mut RepresentationEntry), graph: &[u8]| {
        let mut e = entry("seg-0", b"bytes", 2);
        change(&mut e);
        read_source_identity(&index(vec![("r0", e)]), "t", graph)
            .expect("identity")
            .semantic_digest()
    };
    let base = of(&|_| {}, b"g");
    assert_eq!(base, of(&|_| {}, b"g"));
    assert_ne!(base, of(&|_| {}, b"another graph"));
    let changes: Vec<Box<dyn Fn(&mut RepresentationEntry)>> = vec![
        Box::new(|e| e.object = "other".into()),
        Box::new(|e| e.encoding = "F32".into()),
        Box::new(|e| e.segment = "seg-1".into()),
        Box::new(|e| e.tensor_count = 3),
        Box::new(|e| e.payload_bytes = 6),
        Box::new(|e| e.payload_sha256 = "other".into()),
        Box::new(|e| e.segment_sha256 = "other".into()),
        Box::new(|e| e.codec = Some(Json::Null)),
    ];
    for change in changes {
        assert_ne!(base, of(change.as_ref(), b"g"));
    }
}

#[test]
fn the_export_is_no_part_of_what_a_source_is() {
    let of = |text: &str| {
        read_source_identity(&index(vec![("r0", entry("seg-0", b"b", 1))]), text, b"g")
            .expect("identity")
    };
    let (a, b) = (of("one"), of("another"));
    assert_ne!(a.artifact, b.artifact);
    assert_eq!(a.semantic_digest(), b.semantic_digest());
    assert!(a.semantic.same_source(&b.semantic));
    let state = |m: &SourceIdentity| {
        RepresentationState::resolve(m, &surface(), &everything(), &PackLayoutAdmission)
    };
    assert_eq!(state(&a).id(), state(&b).id());
}

#[test]
fn an_index_that_seals_nothing_is_refused() {
    let say = |i: Vindex3Index| {
        read_source_identity(&i, "t", b"g")
            .expect_err("no identity")
            .message()
            .to_string()
    };
    let mut none = index(vec![("r0", entry("seg-0", b"b", 1))]);
    none.system_graph = None;
    assert!(say(none).contains("declares no `system_graph`"));
    assert!(say(index(vec![])).contains("declares no representations"));
    let mut flat = index(vec![("r0", entry("seg-0", b"b", 1))]);
    flat.document = Json::Null;
    assert_eq!(
        say(flat),
        "source identity refused: an index is a JSON object"
    );
    for field in ["segment", "payload_sha256", "segment_sha256"] {
        let mut e = entry("seg-0", b"b", 1);
        match field {
            "segment" => e.segment = String::new(),
            "payload_sha256" => e.payload_sha256 = String::new(),
            _ => e.segment_sha256 = String::new(),
        }
        let said = say(index(vec![("r0", e)]));
        assert!(said.contains(&format!("carries an empty `{field}`")), "{said}");
    }
    let said = say(index(vec![
        ("r0", entry("seg-0", b"one", 1)),
        ("r1", entry("seg-0", b"two", 1)),
    ]));
    assert!(said.contains("disagree about its digests"), "{said}");
}

// ---- storage ----------------------------------------------------------

fn row(name: &str, len: u64) -> SegmentTensor {
    SegmentTensor {
        name: name.to_string(),
        dtype: "BF16".to_string(),
        len,
    }
}

fn segment(bytes: &[u8], tensors: Vec<SegmentTensor>) -> Segment {
    Segment {
        bytes: bytes.to_vec(),
        tensors,
    }
}

fn q() -> SegmentTensor {
    row("0.self_attn.q_proj.weight", 8192)
}

fn v() -> SegmentTensor {
    row("0.self_attn.v_proj.weight", 3072)
}

fn model() -> SourceIdentity {
    read_source_identity(&index(vec![("r0", entry("seg-0", b"b", 2))]), "t", b"g")
        .expect("identity")
}

fn facts() -> PhysicalAccountingFacts {
    read_source_storage(&vec![segment(b"b", vec![v(), q()])], &model()).expect("facts")
}

#[test]
fn storage_is_what_the_sealed_table_says() {
    let f = facts();
    assert_eq!((f.len(), f.is_empty()), (2, false));
    assert_eq!(f.source_digest(), model().semantic_digest());
    assert!(f.describe(&model()));
    assert_eq!(
        f.semantics().as_str(),
        PhysicalAccountingSemantics::logical_bytes_v1().id().as_str()
    );
    let id = TensorIdentity::new("target.decoder_stack", "0.self_attn.q_proj.weight");
    let fact = f.get(&id).expect("stored");
    assert_eq!(fact.logical_bytes.get(), 8192);
    assert_eq!(fact.dtype.as_str(), "BF16");
    let listed: Vec<String> = f.tensors().iter().map(|(t, _)| t.path()).collect();
    assert_eq!(
        listed,
        [
            "target.decoder_stack/0.self_attn.q_proj.weight",
            "target.decoder_stack/0.self_attn.v_proj.weight",
        ]
    );
    assert_eq!(f.records().len(), 2);
}

#[test]
fn storage_that_is_not_the_sealed_storage_is_refused() {
    let say = |s: Segment| {
        read_source_storage(&vec![s], &model())
            .expect_err("refused")
            .message()
            .to_string()
    };
    let said = say(segment(b"tampered", vec![q(), v()]));
    assert!(said.contains("is not the one the source identity sealed"), "{said}");
    assert!(said.contains(&hash_bytes(b"tampered")[..12]), "{said}");
    let said = say(segment(b"b", vec![q()]));
    assert!(said.contains("declares 2 tensors and its sealed table holds 1"), "{said}");
    let said = say(segment(b"b", vec![q(), row("0.self_attn.q_proj.weight", 7)]));
    assert!(said.contains("is stored twice — 8192 B as BF16 and 7 B as BF16"), "{said}");
    let authority = &model().semantic.representations[0];
    assert!(verify_seal(&segment(b"b", vec![]), authority).is_ok());
    assert!(verify_seal(&segment(b"c", vec![]), authority).is_err());
}

// ---- surfaces and decisions ------------------------------------------

fn tensor(projection: &str, shape: Vec<usize>) -> SurfaceTensor {
    SurfaceTensor::new(
        "target.decoder_stack",
        &format!("0.self_attn.{projection}.weight"),
        Role::DecoderLinear,
        shape,
    )
}

/// q fits a pack; a row of v is not a whole number of groups.
fn surface() -> TensorSurface {
    TensorSurface::new(vec![
        tensor("v_proj", vec![64, 24]),
        tensor("q_proj", vec![64, 64]),
    ])
    .expect("distinct")
}

fn everything() -> PrecisionMap {
    PrecisionMap {
        name: "m".into(),
        encoding: DTYPE_NVFP4.into(),
        roles: vec!["decoder-linear".into()],
        exceptions: vec![],
    }
}

fn nothing() -> PrecisionMap {
    PrecisionMap {
        roles: vec![],
        ..everything()
    }
}

#[test]
fn a_surface_names_each_tensor_once() {
    let err = TensorSurface::new(vec![tensor("q_proj", vec![1]), tensor("q_proj", vec![2])])
        .err()
        .expect("one tensor twice");
    assert!(err.message().contains("0.self_attn.q_proj.weight"), "{err:?}");
    let flipped = TensorSurface::new(vec![
        tensor("q_proj", vec![64, 64]),
        tensor("v_proj", vec![64, 24]),
    ])
    .expect("distinct");
    assert_eq!(flipped.identity(), surface().identity(), "arrival is no part of it");
    assert_eq!(surface().entries()[0].tensor, "0.self_attn.q_proj.weight");
    let reshaped = TensorSurface::new(vec![
        tensor("q_proj", vec![64, 64]),
        tensor("v_proj", vec![64, 32]),
    ])
    .expect("distinct");
    assert_ne!(reshaped.identity(), surface().identity());
}

#[test]
fn a_map_resolves_to_one_decision_for_each_tensor() {
    let d = resolve(&everything(), &surface(), &PackLayoutAdmission);
    let stack = "target.decoder_stack";
    assert_eq!(
        d.get(stack, "0.self_attn.q_proj.weight"),
        Some(&ResolvedEncoding::Compiled(DTYPE_NVFP4.into()))
    );
    assert_eq!(
        d.get(stack, "0.self_attn.v_proj.weight"),
        Some(&ResolvedEncoding::LayoutRefused {
            encoding: DTYPE_NVFP4.into()
        })
    );
    assert_eq!(d.get(stack, "absent"), None);
    assert_eq!((d.len(), d.compiled(), d.layout_refused().len()), (2, 1, 1));
    assert_eq!(
        d.canonical(),
        "target.decoder_stack\u{1f}0.self_attn.q_proj.weight\u{1f}NVFP4\u{1e}\
         target.decoder_stack\u{1f}0.self_attn.v_proj.weight\u{1f}source"
    );
    let free = resolve(&everything(), &surface(), &NoLayoutConstraint);
    assert_eq!(free.compiled(), 2);
}

#[test]
fn a_protection_and_a_layout_refusal_present_alike() {
    let protecting = PrecisionMap {
        exceptions: vec![Exception {
            role: None,
            projection: Some("v_proj".into()),
            layers: None,
            encoding: None,
        }],
        ..everything()
    };
    let a = resolve(&protecting, &surface(), &PackLayoutAdmission);
    let b = resolve(&everything(), &surface(), &PackLayoutAdmission);
    assert_eq!(a.canonical(), b.canonical());
    assert_ne!(a.canonical_full(), b.canonical_full());
}

#[test]
fn stored_decisions_must_cover_their_surface() {
    let decision = |tensor: &str, encoding: ResolvedEncoding| ResolvedDecision {
        object: "target.decoder_stack".into(),
        tensor: tensor.into(),
        encoding,
    };
    let q = "0.self_attn.q_proj.weight";
    let v = "0.self_attn.v_proj.weight";
    let good = ResolvedDecisionVector::from_entries(
        &surface(),
        vec![
            decision(v, ResolvedEncoding::Source),
            decision(q, ResolvedEncoding::Source),
        ],
    )
    .expect("one decision each");
    assert_eq!(good.decisions()[0].tensor, q);
    for bad in [
        vec![decision(q, ResolvedEncoding::Source)],
        vec![
            decision(q, ResolvedEncoding::Source),
            decision("other", ResolvedEncoding::Source),
        ],
        vec![
            decision(q, ResolvedEncoding::Source),
            decision(q, ResolvedEncoding::Source),
        ],
        vec![
            decision(q, ResolvedEncoding::Compiled(String::new())),
            decision(v, ResolvedEncoding::Source),
        ],
    ] {
        assert!(ResolvedDecisionVector::from_entries(&surface(), bad).is_err());
    }
}

#[test]
fn a_policy_or_procedure_this_library_does_not_hold_is_refused() {
    assert_eq!(layout_admission(PACK_LAYOUT_ADMISSION), Ok(LayoutPolicy::Pack));
    let err = layout_admission("other/v9").expect_err("unknown");
    assert!(err.message().contains("`other/v9`"), "{err:?}");
    assert_eq!(compiled_bytes(PHYSICAL_ACCOUNTING_PROCEDURE), Ok(PackCompiledBytes));
    let err = compiled_bytes("other/v9").expect_err("unknown");
    assert!(err.message().contains("`other/v9`"), "{err:?}");
}

#[test]
fn a_pack_holds_whole_groups_of_a_matrix() {
    let l = PackLayout::derive(&[64, 64], "t").expect("packs");
    assert_eq!((l.n, l.k, l.total_len), (64, 64, 2308));
    let say = |shape: &[usize]| {
        PackLayout::derive(shape, "t")
            .expect_err("does not pack")
            .message()
            .to_string()
    };
    assert_eq!(
        say(&[64]),
        "tensor `t`: an NVFP4 pack holds matrices, and this tensor has 1 dimensions"
    );
    assert_eq!(
        say(&[64, 24]),
        "tensor `t`: a row of 24 elements is not a whole number of 16-element groups"
    );
    assert!(say(&[usize::MAX, 16]).contains("larger than this machine"));
    assert_eq!(
        PackCompiledBytes
            .compiled_bytes(DTYPE_NVFP4, &vec![64, 64])
            .map(|b| b.get()),
        Some(2308)
    );
    assert_eq!(PackCompiledBytes.compiled_bytes("Q6_K", &vec![64, 64]), None);
}

// ---- prices -----------------------------------------------------------

#[test]
fn a_surface_binds_to_the_storage_that_prices_all_of_it() {
    let bound = facts().bind(&model(), &surface()).expect("complete");
    assert_eq!(bound.source(), model().semantic_digest());
    assert_eq!(bound.surface_identity(), surface().identity());
    assert_eq!((bound.len(), bound.is_empty()), (2, false));
    assert_eq!(bound.tensors().len(), 2);
    let asked = surface();
    let priced = bound.prices_for(&asked).expect("its own surface");
    assert_eq!(priced[0].1.logical_bytes.get(), 8192);

    let other = SourceIdentity::synthetic("a", "g", vec![]);
    let err = facts().bind(&other, &surface()).expect_err("another source");
    assert!(matches!(err, AccountingBindError::ForeignSource { .. }));
    assert!(err.describe().contains("another's storage"));

    let wide = TensorSurface::new(vec![
        tensor("q_proj", vec![64, 64]),
        tensor("w_proj", vec![64, 64]),
        tensor("x_proj", vec![64, 64]),
    ])
    .expect("distinct");
    let err = facts().bind(&model(), &wide).expect_err("two tensors unpriced");
    assert_eq!(
        err.describe(),
        "the source container stores no price for 2 surface tensor(s): \
         target.decoder_stack/0.self_attn.w_proj.weight, \
         target.decoder_stack/0.self_attn.x_proj.weight"
    );
    let err = bound.prices_for(&wide).expect_err("another surface");
    assert!(matches!(err, AccountingBindError::ForeignSurface { .. }));
}

#[test]
fn a_state_costs_what_its_tensors_present() {
    let bound = facts().bind(&model(), &surface()).expect("complete");
    let encodings = vec![DTYPE_NVFP4.to_string()];
    let footprint = SurfaceFootprint::new(
        &bound,
        &surface(),
        &PackLayoutAdmission,
        &PackCompiledBytes,
        &encodings,
    )
    .expect("priced");
    assert_eq!(footprint.surface_identity(), surface().identity());
    let state = |m: &PrecisionMap, s: &TensorSurface| {
        RepresentationState::resolve(&model(), s, m, &PackLayoutAdmission)
    };
    let source = state(&nothing(), &surface());
    let compiled = state(&everything(), &surface());
    assert!(footprint.covers(&source) && footprint.covers(&compiled));
    assert_eq!(footprint.logical_bytes(&source).get(), 8192 + 3072);
    assert_eq!(
        footprint.try_logical_bytes(&compiled).map(|b| b.get()),
        Ok(2308 + 3072)
    );

    let narrow = TensorSurface::new(vec![tensor("q_proj", vec![64, 64])]).expect("one");
    let foreign = state(&everything(), &narrow);
    assert!(!footprint.covers(&foreign));
    assert!(matches!(
        footprint.try_logical_bytes(&foreign),
        Err(FootprintError::ForeignSurface { .. })
    ));

    // The layout takes the encoding and no rule says what it stores.
    let err = SurfaceFootprint::new(
        &bound,
        &surface(),
        &NoLayoutConstraint,
        &PackCompiledBytes,
        &vec!["Q6_K".to_string()],
    )
    .expect_err("unpriceable");
    assert!(
        err.describe().starts_with(
            "no oracle prices `target.decoder_stack/0.self_attn.q_proj.weight` at `Q6_K`"
        ),
        "{}",
        err.describe()
    );
}

#[test]
fn a_container_is_searched_under_the_prices_it_seals() {
    let bound = facts().bind(&model(), &surface()).expect("complete");
    let footprint = SurfaceFootprint::new(
        &bound,
        &surface(),
        &PackLayoutAdmission,
        &PackCompiledBytes,
        &vec![DTYPE_NVFP4.to_string()],
    )
    .expect("priced");
    let base = PrecisionMap {
        name: "base".into(),
        encoding: DTYPE_NVFP4.into(),
        roles: vec!["decoder-linear".into()],
        exceptions: vec![Exception {
            role: None,
            projection: None,
            layers: None,
            encoding: None,
        }],
    };
    let edit = |name: &str, projection: &str| {
        MapEdit::new(
            name,
            Exception {
                role: None,
                projection: Some(projection.to_string()),
                layers: None,
                encoding: Some(DTYPE_NVFP4.to_string()),
            },
        )
    };
    // Two names for one change, and one change the layout refuses.
    let vocabulary = ActionVocabulary::new(vec![
        edit("Q-direct", "q_proj"),
        edit("Q-again", "q_proj"),
        edit("V", "v_proj"),
    ])
    .expect("distinct names");
    let (m, s, measurements) = (model(), surface(), MeasurementRegistry::new());
    let generator = Generator {
        model: &m,
        surface: &s,
        base_map: &base,
        vocabulary: &vocabulary,
        layout: &PackLayoutAdmission,
        footprint: &footprint,
        policy: TransitionPolicy::StrictlyImprovingPhysical,
        measurements: &measurements,
    };
    let set = generator
        .candidates(
            &NameSet::new(),
            &MeasurementIntent::new(
                EvidenceBank::new("tokens/v1", "17d59a6b", vec!["seq-000".to_string()], 32).id(),
                EvidenceScale::Authority,
                InstrumentSemantics::new("kl", "distribution", "teacher-forced", "q2a").id(),
            ),
        )
        .expect("generate");
    let policy = BestFirst::new(RankingSemantics::new(RankingRule::PhysicalPrizeFirst));
    let assessed = policy.assess(&set, &NothingMeasured);
    assert_eq!(assessed.len(), 2, "the refused change moves no bytes");
    for a in &assessed {
        assert_eq!(a.physical_delta, 2308 - 8192, "{}", a.action.label);
    }
    assert_eq!(
        assessed[0].child_state, assessed[1].child_state,
        "two routes reach one state"
    );
}

#[test]
fn which_encoding_a_layout_refused_is_kept() {
    let of = |v: ResolvedEncoding| {
        let decision = |tensor: &str, encoding: ResolvedEncoding| ResolvedDecision {
            object: "target.decoder_stack".into(),
            tensor: format!("0.self_attn.{tensor}.weight"),
            encoding,
        };
        ResolvedDecisionVector::from_entries(
            &surface(),
            vec![
                decision("q_proj", ResolvedEncoding::Source),
                decision("v_proj", v),
            ],
        )
        .expect("covers the surface")
    };
    let refusing = |encoding: &str| {
        of(ResolvedEncoding::LayoutRefused {
            encoding: encoding.to_string(),
        })
    };
    let (a, b) = (refusing(DTYPE_NVFP4), refusing("Q3_K"));
    assert_eq!(a.layout_refused().len(), 1);
    assert_eq!(a.canonical(), b.canonical());
    assert_ne!(a.canonical_full(), b.canonical_full());
    let state = |d: ResolvedDecisionVector| {
        ResolvedState::new(
            RepresentationState::from_decisions(&model(), &surface(), d),
            LogicalBytes::new(1),
        )
    };
    let (refused, held) = (state(a), state(of(ResolvedEncoding::Source)));
    assert_ne!(refused.realization_id(), state(b).realization_id());
    assert_eq!(refused.physical_id(), held.physical_id());
    assert_ne!(refused.realization_id(), held.realization_id());
    let dearer = ResolvedState::new(refused.state().clone(), LogicalBytes::new(2));
    assert_eq!(dearer.realization_id(), refused.realization_id());
}

#[test]
fn a_search_is_bounded_where_its_table_has_every_price() {
    let bound = facts().bind(&model(), &surface()).expect("complete");
    let base = everything();
    let vocabulary = ActionVocabulary::new(vec![MapEdit::new(
        "hold-q",
        Exception {
            role: None,
            projection: Some("q_proj".to_string()),
            layers: None,
            encoding: None,
        },
    )])
    .expect("distinct names");
    let encodings = selectable(&base, &vocabulary);
    assert_eq!(encodings, vec![DTYPE_NVFP4.to_string()]);
    let table = |encodings: &Vec<String>| {
        SurfaceFootprint::new(
            &bound,
            &surface(),
            &PackLayoutAdmission,
            &PackCompiledBytes,
            encodings,
        )
        .expect("priced")
    };
    let (m, s, measurements) = (model(), surface(), MeasurementRegistry::new());
    let bounded = |footprint: &SurfaceFootprint| {
        Generator {
            model: &m,
            surface: &s,
            base_map: &base,
            vocabulary: &vocabulary,
            layout: &PackLayoutAdmission,
            footprint,
            policy: TransitionPolicy::Unconstrained,
            measurements: &measurements,
        }
        .is_bounded()
    };
    let full = table(&encodings);
    assert_eq!(
        full.ceiling(&s, &PackLayoutAdmission, &encodings),
        Some(8192 + 3072)
    );
    assert!(bounded(&full));
    // A table that never priced what the base map compiles to.
    let bare = table(&vec![]);
    assert_eq!(bare.ceiling(&s, &PackLayoutAdmission, &encodings), None);
    assert!(!bounded(&bare));
    // A table of another surface.
    let narrow = TensorSurface::new(vec![tensor("q_proj", vec![64, 64])]).expect("one");
    let elsewhere = SurfaceFootprint::new(
        &facts().bind(&model(), &narrow).expect("complete"),
        &narrow,
        &PackLayoutAdmission,
        &PackCompiledBytes,
        &encodings,
    )
    .expect("priced");
    assert!(!bounded(&elsewhere));
}

/// Whatever changes in an enumeration, the surface is another.
#[test]
fn another_enumeration_is_another_surface() {
    let surface_of = |list: Vec<SurfaceTensor>| TensorSurface::new(list).expect("distinct");
    let one = || SurfaceTensor::new("o", "t", Role::DecoderLinear, vec![2, 3]);
    let base = surface_of(vec![one()]);
    let others = vec![
        surface_of(vec![]),
        surface_of(vec![one(), SurfaceTensor::new("o", "u", Role::Norm, vec![])]),
        surface_of(vec![SurfaceTensor::new("o", "u", Role::DecoderLinear, vec![2, 3])]),
        surface_of(vec![SurfaceTensor::new("p", "t", Role::DecoderLinear, vec![2, 3])]),
        surface_of(vec![SurfaceTensor::new("o", "t", Role::ExpertWeight, vec![2, 3])]),
        surface_of(vec![SurfaceTensor::new("o", "t", Role::DecoderLinear, vec![23])]),
        surface_of(vec![SurfaceTensor::new("o", "t", Role::DecoderLinear, vec![])]),
    ];
    for other in &others {
        assert_ne!(other.identity(), base.identity());
    }
    assert_eq!(surface_of(vec![one()]).identity(), base.identity());
}

/// What is empty by default.
#[test]
fn defaults_are_empty() {
    assert!(ResolvedDecisionVector::default().is_empty());
    assert_eq!(
        SourceIdentity::default(),
        SourceIdentity::synthetic("", "", vec![])
    );
    assert_eq!(PackLayoutAdmission::default(), PackLayoutAdmission);
    assert_eq!(NoLayoutConstraint::default(), NoLayoutConstraint);
    assert_eq!(PackCompiledBytes::default(), PackCompiledBytes);
    assert_eq!(NothingMeasured::default(), NothingMeasured);
}

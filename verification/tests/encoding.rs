//! Framing for K-quant encoders, block codecs, precision maps and text.
use larql_represent::codec::BlockCodec;
use larql_represent::map::{Exception, Precision, PrecisionMap};
use larql_represent::policy::Role;
use larql_represent::reference_encoder::{Framing, KQuant};
use larql_represent::text::{before, decimal_text, push_signed, push_wide_decimal, same};

fn q6_k() -> KQuant {
    KQuant {
        name: "Q6_K",
        elements_per_block: 256,
        bytes_per_block: 210,
        ggml_type: 14,
    }
}

#[test]
fn a_tensor_is_framed_row_by_row() {
    assert_eq!(
        q6_k().frame(512, 256, "t"),
        Ok(Framing { rows: 2, bytes: 420 })
    );
    assert_eq!(
        q6_k().frame(512, 512, "t"),
        Ok(Framing { rows: 1, bytes: 420 })
    );
    assert_eq!(q6_k().frame(0, 256, "t"), Ok(Framing { rows: 0, bytes: 0 }));
}

#[test]
fn values_that_have_no_frame_are_refused() {
    let say = |values: usize, row: usize| {
        q6_k()
            .frame(values, row, "t")
            .expect_err("no frame")
            .message()
            .to_string()
    };
    assert_eq!(say(512, 0), "tensor `t`: 512 values do not divide into rows of 0");
    assert_eq!(say(512, 300), "tensor `t`: 512 values do not divide into rows of 300");
    assert_eq!(
        say(512, 128),
        "tensor `t`: row length 128 is not a whole number of 256-element blocks, \
         so Q6_K rows would share a scale"
    );
}

#[test]
fn what_the_encoder_wrote_is_held_to_the_geometry() {
    let framing = q6_k().frame(256, 256, "t").expect("frames");
    assert_eq!(q6_k().accept(vec![1; 210], 210, framing, "t"), Ok(vec![1; 210]));
    let err = q6_k().accept(vec![1; 210], 208, framing, "t").expect_err("short");
    assert_eq!(
        err.message(),
        "tensor `t`: ggml wrote 208 bytes for Q6_K, geometry implies 210 — the linked ggml \
         disagrees with this build's block table"
    );
}

#[test]
fn a_block_codec_prices_whole_blocks() {
    let q8 = BlockCodec {
        label: "Q8_0",
        block: 32,
        block_bytes: 34,
    };
    assert_eq!(q8.stored_bytes(4, 96, "t"), Ok(408));
    assert!(q8.stored_bytes(4, 33, "t").is_err());
    assert!(q8.stored_bytes(usize::MAX, 1 << 40, "t").is_err());
}

#[test]
fn the_first_matching_exception_decides() {
    let rule = |projection: Option<&str>, layers, encoding: Option<&str>| Exception {
        role: None,
        projection: projection.map(String::from),
        layers,
        encoding: encoding.map(String::from),
    };
    let map = PrecisionMap {
        name: "m".into(),
        encoding: "Q4_K".into(),
        roles: vec!["expert-weight".into()],
        exceptions: vec![
            rule(Some("down_proj"), Some((20, 26)), Some("Q6_K")),
            rule(Some("down_proj"), None, None),
        ],
    };
    let at = |tensor: &str| map.resolve(Role::ExpertWeight, tensor);
    assert_eq!(at("20.mlp.experts.3.down_proj.weight"), Precision::Compiled("Q6_K"));
    assert_eq!(at("26.mlp.experts.3.down_proj.weight"), Precision::Compiled("Q6_K"));
    assert_eq!(at("27.mlp.experts.3.down_proj.weight"), Precision::Source);
    assert_eq!(at("27.mlp.experts.3.up_proj.weight"), Precision::Compiled("Q4_K"));
    assert_eq!(map.resolve(Role::Router, "0.router.weight"), Precision::Source);
    assert!(map.names_role(Role::ExpertWeight) && !map.names_role(Role::Norm));
}

#[test]
fn numbers_are_written_in_full() {
    assert_eq!(decimal_text(0), "0");
    assert_eq!(decimal_text(u64::MAX), u64::MAX.to_string());
    let mut s = String::from("x");
    push_signed(&mut s, i64::MIN);
    push_signed(&mut s, 7);
    assert_eq!(s, "x-92233720368547758087");
    let mut wide = String::new();
    push_wide_decimal(&mut wide, u128::MAX);
    assert_eq!(wide, u128::MAX.to_string());
}

#[test]
fn texts_are_ordered_by_their_bytes() {
    for (a, b) in [("", "a"), ("a", "b"), ("a", "aa"), ("Z", "a"), ("z", "é"), ("é", "日")] {
        assert!(before(a, b) && !before(b, a) && !same(a, b), "{a} {b}");
        assert_eq!(a < b, before(a, b));
    }
    assert!(same("é", "é") && !before("é", "é"));
}

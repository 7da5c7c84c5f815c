//! Addressing an arbitrarily ordered source expert bank.
use larql_represent::binding::ExtentPolicy;
use larql_represent::physical::PhysicalStore;
use larql_represent::source_bank::source_expert_bank;
use larql_represent::table::Table;
use std::collections::BTreeMap;
use std::sync::Arc;

const PER: u64 = 4_718_592;

/// The offsets, as the library's table.
fn table(m: &BTreeMap<String, u64>) -> Table<String, u64> {
    let mut t = Table::new();
    for (name, offset) in m {
        t.insert(name.clone(), *offset);
    }
    t
}

fn synthetic_store(bytes: usize) -> Arc<PhysicalStore> {
    Arc::new(PhysicalStore::owned(
        "source".to_string(),
        vec![7u8; bytes],
        Table::new(),
    ))
}

/// Deliberately NON-MONOTONIC placement, so a table that secretly
/// assumed expert order would be wrong.
fn shuffled_offsets(experts: u32, per: u64) -> BTreeMap<String, u64> {
    let mut m = BTreeMap::new();
    for e in 0..experts {
        // A base that has nothing to do with `e * stride`.
        let base = u64::from((e * 97 + 13) % experts) * 3 * per;
        for (i, proj) in ["w1", "w2", "w3"].iter().enumerate() {
            m.insert(
                format!("1.block_sparse_moe.experts.{e}.{proj}.weight"),
                base + i as u64 * per,
            );
        }
    }
    m
}

/// The table carries the segment's own offsets, never anything derived
/// from an expert id.
#[test]
fn the_base_table_follows_the_segment_not_the_expert_order() {
    let experts = 16u32;
    let offsets = shuffled_offsets(experts, PER);
    let store = synthetic_store((u64::from(experts) * 3 * PER) as usize);
    let bank = source_expert_bank(&store, &table(&offsets), 1, experts, PER).expect("addresses");

    for e in 0..experts {
        let want = offsets[&format!("1.block_sparse_moe.experts.{e}.w1.weight")];
        assert_eq!(
            u64::from(bank.bases[e as usize]),
            want,
            "expert {e}'s base must come from the segment header"
        );
    }
    // And it really is out of order, or the test proves nothing.
    assert!(
        bank.bases.windows(2).any(|w| w[0] > w[1]),
        "the fixture must be non-monotonic for this to mean anything"
    );
}

/// A source whose projections are NOT contiguous within an expert
/// cannot be addressed by one base table, and must say so rather than
/// silently reading a neighbouring projection.
#[test]
fn a_non_contiguous_source_is_refused() {
    let mut offsets = shuffled_offsets(4, PER);
    offsets.insert("1.block_sparse_moe.experts.2.w3.weight".into(), 999);
    let store = synthetic_store((4 * 3 * PER) as usize);
    let err = match source_expert_bank(&store, &table(&offsets), 1, 4, PER) {
        Err(e) => e,
        Ok(_) => panic!("a non-contiguous source must be refused, not addressed"),
    };
    assert!(err.message().contains("not contiguous"), "{err:?}");
}

/// A bank over zero experts addresses nothing and says so, rather than
/// building an empty table whose `min`/`max` would panic.
#[test]
fn a_zero_expert_bank_is_refused() {
    let store = synthetic_store(1024);
    let err = match source_expert_bank(&store, &Table::new(), 1, 0, PER) {
        Err(e) => e,
        Ok(_) => panic!("zero experts must be refused"),
    };
    assert!(err.message().contains("addresses nothing"), "{err:?}");
}

/// A tensor the segment does not hold is named, for each projection —
/// `w1` decides the base, and `w2`/`w3` are what the contiguity check
/// reads.
#[test]
fn a_missing_projection_is_named() {
    let store = synthetic_store((4 * 3 * PER) as usize);
    for missing in ["w1", "w2", "w3"] {
        let mut offsets = shuffled_offsets(4, PER);
        offsets.remove(&format!("1.block_sparse_moe.experts.2.{missing}.weight"));
        let err = match source_expert_bank(&store, &table(&offsets), 1, 4, PER) {
            Err(e) => e,
            Ok(_) => panic!("a missing projection must be refused"),
        };
        let text = err.message().to_string();
        assert!(text.contains(missing) && text.contains("has no"), "{text}");
    }
}

/// A segment too short for the layer's own block is refused by name
/// rather than handing out a view past the mapping.
#[test]
fn a_segment_too_short_for_the_layer_is_refused() {
    // Offsets describe four experts, the store holds one expert's worth.
    let offsets = shuffled_offsets(4, PER);
    let store = synthetic_store(PER as usize);
    let err = match source_expert_bank(&store, &table(&offsets), 1, 4, PER) {
        Err(e) => e,
        Ok(_) => panic!("a short segment must be refused"),
    };
    assert!(err.message().contains("too short"), "{err:?}");
}

/// The layer's extent is reported, and it is the block the table is
/// relative to — the span a caller registers with a backend.
#[test]
fn the_layer_extent_covers_exactly_the_experts_block() {
    let experts = 8u32;
    let offsets = shuffled_offsets(experts, PER);
    let store = synthetic_store((u64::from(experts) * 3 * PER) as usize);
    let bank = source_expert_bank(&store, &table(&offsets), 1, experts, PER).expect("addresses");
    assert_eq!(bank.layer_base, 0, "this fixture places layer 1 at zero");
    assert_eq!(bank.layer_len, u64::from(experts) * 3 * PER);
    assert_eq!(bank.binding.gate.region.region.len(), bank.layer_len);
    assert_eq!(bank.binding.down.region.region.len(), bank.layer_len - PER);
    assert_eq!(
        bank.binding.up.region.region.len(),
        bank.layer_len - 2 * PER
    );
    assert!(bank.binding.shared.is_none(), "routed-only by construction");
    assert_eq!(bank.binding.gate.extent, ExtentPolicy::ContainingView);
    assert_eq!(
        bank.binding.gate.addressing.experts() as usize,
        experts as usize
    );
}

/// **A layer whose experts span more than 32 bits is refused**, not
/// silently truncated.
///
/// Rebasing to the layer's own block is what keeps the table 32-bit on
/// a 94 GB segment, but it only works while ONE layer's experts fit in
/// that range. A source that spread a single layer wider would wrap the
/// table and serve a different expert's bytes, so it is named instead.
#[test]
fn a_layer_wider_than_a_32_bit_table_is_refused() {
    let per: u64 = 64;
    // Two experts, the second placed past the 32-bit horizon FROM THE
    // FIRST — so the block itself, not the segment, is too wide.
    let far = u64::from(u32::MAX) + 8192;
    let mut offsets = BTreeMap::new();
    for (e, base) in [(0u32, 0u64), (1, far)] {
        for (i, proj) in ["w1", "w2", "w3"].iter().enumerate() {
            offsets.insert(
                format!("1.block_sparse_moe.experts.{e}.{proj}.weight"),
                base + i as u64 * per,
            );
        }
    }
    let store = synthetic_store(1024);
    let err = match source_expert_bank(&store, &table(&offsets), 1, 2, per) {
        Err(e) => e,
        Ok(_) => panic!("a layer wider than a 32-bit table must be refused"),
    };
    let text = err.message().to_string();
    assert!(
        text.contains("32-bit") && text.contains("past the layer's own base"),
        "{text}"
    );
}

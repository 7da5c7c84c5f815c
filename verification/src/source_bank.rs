//! Addressing an arbitrarily ordered source expert bank.
//!
//! A source container stores what the checkpoint gave it: expert tensors
//! stand in no order that an expert's id could predict. What holds is that
//! one expert's three projections are contiguous, `w1` then `w2` then `w3`,
//! so the bank is three shifted views of one mapping plus one table of
//! per-expert bases, relative to the layer's own block.
use crate::binding::{
    EncodedRegion, ExpertBankBinding, ExpertEncoding, ExtentPolicy, ProjectionAddressing,
    RoutedProjection,
};
use crate::error::VindexError;
use crate::physical::PhysicalStore;
use crate::table::{lookup, Table};
use crate::text::{decimal, push_decimal, push_wide_decimal};
use std::sync::Arc;
use vstd::prelude::*;
use vstd::string::*;

verus! {

/// A layer's experts, addressed inside a source segment.
pub struct SourceExpertBank {
    pub binding: ExpertBankBinding,
    /// Byte offset of each expert's block, relative to each view's own start.
    pub bases: Vec<u32>,
    /// Payload offset where this layer's expert block begins.
    pub layer_base: u64,
    /// Bytes from `layer_base` to the end of the layer's last expert.
    pub layer_len: u64,
}

/// The segment's name for one projection of one expert.
pub open spec fn expert_tensor(layer: int, expert: int, proj: Seq<char>) -> Seq<char> {
    decimal(layer as nat) + ".block_sparse_moe.experts."@ + decimal(expert as nat) + "."@ + proj
        + ".weight"@
}

fn expert_tensor_name(layer: u32, expert: u32, proj: &str) -> (r: String)
    ensures
        r@ == expert_tensor(layer as int, expert as int, proj@),
{
    let mut s: String = String::new();
    push_decimal(&mut s, layer as u64);
    assert(s@ =~= decimal(layer as nat));
    s.append(".block_sparse_moe.experts.");
    push_decimal(&mut s, expert as u64);
    s.append(".");
    s.append(proj);
    s.append(".weight");
    s
}

/// The refusal of a bank over no experts.
pub open spec fn no_experts_text(layer: int) -> Seq<char> {
    "layer "@ + decimal(layer as nat)
        + ": a source expert bank over zero experts addresses nothing"@
}

/// The refusal of a tensor the segment does not hold.
pub open spec fn absent_text(tensor: Seq<char>) -> Seq<char> {
    "source segment has no `"@ + tensor + "`"@
}

/// The refusal of projections that are not contiguous.
pub open spec fn scattered_text(
    layer: int,
    expert: int,
    proj: Seq<char>,
    got: int,
    want: int,
) -> Seq<char> {
    "layer "@ + decimal(layer as nat) + " expert "@ + decimal(expert as nat) + ": `"@ + proj
        + "` is at "@ + decimal(got as nat) + ", not "@ + decimal(want as nat)
        + " — this source's projections are not contiguous within an expert, so one base table cannot address all three"@
}

/// The refusal of a layer wider than its table can address.
pub open spec fn too_wide_text(layer: int, expert: int, past: int) -> Seq<char> {
    "layer "@ + decimal(layer as nat) + " expert "@ + decimal(expert as nat) + " sits "@ + decimal(
        past as nat,
    )
        + " bytes past the layer's own base — beyond what a 32-bit offset table can address, so this layer's experts are not the contiguous block the rebasing assumes"@
}

/// The refusal of a segment that ends before the layer does.
pub open spec fn too_short_text(layer: int, shift: int) -> Seq<char> {
    "segment is too short for layer "@ + decimal(layer as nat) + "'s +"@ + decimal(shift as nat)
        + " view"@
}

/// The offset of one projection, which must stand `shift` past `w1`.
pub open spec fn projection_at(
    offsets: Seq<(Seq<char>, u64)>,
    layer: int,
    expert: int,
    proj: Seq<char>,
    w1: int,
    shift: int,
) -> Result<(), Seq<char>> {
    match lookup(offsets, expert_tensor(layer, expert, proj)) {
        None => Err(absent_text(expert_tensor(layer, expert, proj))),
        Some(got) => if got != w1 + shift {
            Err(scattered_text(layer, expert, proj, got as int, w1 + shift))
        } else {
            Ok(())
        },
    }
}

/// Where one expert's block starts, if its projections are contiguous.
pub open spec fn expert_block(
    offsets: Seq<(Seq<char>, u64)>,
    layer: int,
    expert: int,
    per: int,
) -> Result<u64, Seq<char>> {
    match lookup(offsets, expert_tensor(layer, expert, "w1"@)) {
        None => Err(absent_text(expert_tensor(layer, expert, "w1"@))),
        Some(w1) => match projection_at(offsets, layer, expert, "w2"@, w1 as int, per) {
            Err(e) => Err(e),
            Ok(_) => match projection_at(offsets, layer, expert, "w3"@, w1 as int, 2 * per) {
                Err(e) => Err(e),
                Ok(_) => Ok(w1),
            },
        },
    }
}

/// Where the blocks of the first `count` experts start, or the refusal of the
/// first expert that cannot be addressed.
pub open spec fn expert_blocks(
    offsets: Seq<(Seq<char>, u64)>,
    layer: int,
    count: int,
    per: int,
) -> Result<Seq<u64>, Seq<char>>
    decreases count,
{
    if count <= 0 {
        Ok(Seq::empty())
    } else {
        match expert_blocks(offsets, layer, count - 1, per) {
            Err(e) => Err(e),
            Ok(blocks) => match expert_block(offsets, layer, count - 1, per) {
                Err(e) => Err(e),
                Ok(w1) => Ok(blocks.push(w1)),
            },
        }
    }
}

/// The smallest of a list of offsets.
pub open spec fn least(blocks: Seq<u64>) -> int
    decreases blocks.len(),
{
    if blocks.len() <= 1 {
        blocks[0] as int
    } else {
        let rest = least(blocks.drop_last());
        if blocks.last() < rest {
            blocks.last() as int
        } else {
            rest
        }
    }
}

/// The largest of a list of offsets.
pub open spec fn greatest(blocks: Seq<u64>) -> int
    decreases blocks.len(),
{
    if blocks.len() <= 1 {
        blocks[0] as int
    } else {
        let rest = greatest(blocks.drop_last());
        if blocks.last() > rest {
            blocks.last() as int
        } else {
            rest
        }
    }
}

proof fn lemma_least_greatest(blocks: Seq<u64>)
    requires
        blocks.len() > 0,
    ensures
        forall|i: int|
            0 <= i < blocks.len() ==> least(blocks) <= #[trigger] blocks[i] && blocks[i]
                <= greatest(blocks),
        exists|i: int| 0 <= i < blocks.len() && blocks[i] == least(blocks),
        exists|i: int| 0 <= i < blocks.len() && blocks[i] == greatest(blocks),
    decreases blocks.len(),
{
    if blocks.len() > 1 {
        let init = blocks.drop_last();
        lemma_least_greatest(init);
        assert forall|i: int| 0 <= i < blocks.len() implies least(blocks) <= #[trigger] blocks[i]
            && blocks[i] <= greatest(blocks) by {
            if i < blocks.len() - 1 {
                assert(init[i] == blocks[i]);
            }
        }
        let a = choose|i: int| 0 <= i < init.len() && init[i] == least(init);
        let b = choose|i: int| 0 <= i < init.len() && init[i] == greatest(init);
        assert(blocks[a] == init[a] && blocks[b] == init[b]);
        assert(blocks[blocks.len() - 1] == blocks.last());
    } else {
        assert(blocks[0] == least(blocks));
        assert(blocks[0] == greatest(blocks));
    }
}

/// The first expert from `from` on whose block a 32-bit table cannot address.
pub open spec fn first_too_far(blocks: Seq<u64>, base: int, from: int) -> int
    decreases blocks.len() - from,
{
    if from >= blocks.len() || blocks[from] - base > u32::MAX {
        from
    } else {
        first_too_far(blocks, base, from + 1)
    }
}

/// What `source_expert_bank` refuses, if anything.
pub open spec fn bank_refusal(
    store: PhysicalStore,
    offsets: Seq<(Seq<char>, u64)>,
    layer: int,
    experts: int,
    per: int,
) -> Option<Seq<char>> {
    if experts == 0 {
        Some(no_experts_text(layer))
    } else {
        match expert_blocks(offsets, layer, experts, per) {
            Err(e) => Some(e),
            Ok(blocks) => {
                let base = least(blocks);
                let len = greatest(blocks) + 3 * per - base;
                let far = first_too_far(blocks, base, 0);
                if far < blocks.len() {
                    Some(too_wide_text(layer, far, blocks[far] - base))
                } else if !store.has_span(base, len) {
                    Some(too_short_text(layer, 0))
                } else {
                    None
                }
            },
        }
    }
}

/// One view of the layer's block: `shift` past its start, up to its end,
/// addressed by the bases.
pub open spec fn is_view(
    p: RoutedProjection,
    store: PhysicalStore,
    base: int,
    len: int,
    shift: int,
    bases: Seq<u32>,
) -> bool {
    &&& p.region.region.is_span(store, base + shift, len - shift)
    &&& p.region.encoding == ExpertEncoding::Bf16
    &&& p.extent == ExtentPolicy::ContainingView
    &&& p.addressing matches ProjectionAddressing::Table(t) && t@ == bases
}

/// `bank` addresses the layer's experts inside `store`: bases relative to
/// the least block, and one view of the layer's block per projection.
pub open spec fn is_bank(
    bank: SourceExpertBank,
    store: PhysicalStore,
    blocks: Seq<u64>,
    per: int,
) -> bool {
    let base = least(blocks);
    let len = greatest(blocks) + 3 * per - base;
    &&& bank.layer_base == base
    &&& bank.layer_len == len
    &&& bank.bases@.len() == blocks.len()
    &&& forall|e: int| 0 <= e < blocks.len() ==> #[trigger] bank.bases@[e] == blocks[e] - base
    &&& is_view(bank.binding.gate, store, base, len, 0, bank.bases@)
    &&& is_view(bank.binding.down, store, base, len, per, bank.bases@)
    &&& is_view(bank.binding.up, store, base, len, 2 * per, bank.bases@)
    &&& bank.binding.shared is None
}

proof fn lemma_blocks_prefix(
    offsets: Seq<(Seq<char>, u64)>,
    layer: int,
    k: int,
    count: int,
    per: int,
)
    requires
        0 <= k <= count,
        expert_blocks(offsets, layer, k, per) is Err,
    ensures
        expert_blocks(offsets, layer, count, per) == expert_blocks(offsets, layer, k, per),
    decreases count - k,
{
    if k < count {
        lemma_blocks_prefix(offsets, layer, k, count - 1, per);
    }
}

fn check_projection(
    offsets: &Table<String, u64>,
    layer: u32,
    expert: u32,
    proj: &str,
    w1: u64,
    shift: u128,
) -> (r: Result<(), VindexError>)
    requires
        shift <= 2 * u64::MAX,
    ensures
        match r {
            Ok(_) => projection_at(
                offsets.rows(),
                layer as int,
                expert as int,
                proj@,
                w1 as int,
                shift as int,
            ) == Ok::<(), Seq<char>>(()),
            Err(e) => projection_at(
                offsets.rows(),
                layer as int,
                expert as int,
                proj@,
                w1 as int,
                shift as int,
            ) == Err::<(), Seq<char>>(e.text()),
        },
{
    let name: String = expert_tensor_name(layer, expert, proj);
    match offsets.get(&name) {
        None => {
            let mut m: String = "source segment has no `".to_owned();
            m.append(name.as_str());
            m.append("`");
            Err(VindexError::Parse(m))
        },
        Some(got) => {
            let want: u128 = w1 as u128 + shift;
            if *got as u128 != want {
                let mut m: String = "layer ".to_owned();
                push_decimal(&mut m, layer as u64);
                m.append(" expert ");
                push_decimal(&mut m, expert as u64);
                m.append(": `");
                m.append(proj);
                m.append("` is at ");
                push_decimal(&mut m, *got);
                m.append(", not ");
                push_wide_decimal(&mut m, want);
                m.append(
                    " — this source's projections are not contiguous within an expert, so one base table cannot address all three",
                );
                Err(VindexError::Parse(m))
            } else {
                Ok(())
            }
        },
    }
}

fn block_of(offsets: &Table<String, u64>, layer: u32, expert: u32, per: u64) -> (r: Result<
    u64,
    VindexError,
>)
    ensures
        match r {
            Ok(w1) => expert_block(offsets.rows(), layer as int, expert as int, per as int) == Ok::<
                u64,
                Seq<char>,
            >(w1),
            Err(e) => expert_block(offsets.rows(), layer as int, expert as int, per as int)
                == Err::<u64, Seq<char>>(e.text()),
        },
{
    let name: String = expert_tensor_name(layer, expert, "w1");
    let w1: u64 = match offsets.get(&name) {
        None => {
            let mut m: String = "source segment has no `".to_owned();
            m.append(name.as_str());
            m.append("`");
            return Err(VindexError::Parse(m));
        },
        Some(w1) => *w1,
    };
    if let Err(e) = check_projection(offsets, layer, expert, "w2", w1, per as u128) {
        return Err(e);
    }
    if let Err(e) = check_projection(offsets, layer, expert, "w3", w1, 2 * (per as u128)) {
        return Err(e);
    }
    Ok(w1)
}

fn view_of(
    store: &Arc<PhysicalStore>,
    layer: u32,
    base: u64,
    len: u128,
    shift: u128,
    bases: &Vec<u32>,
) -> (r: Result<RoutedProjection, VindexError>)
    requires
        shift <= len,
        base + shift <= 4 * u64::MAX,
        len <= 4 * u64::MAX,
        shift <= 2 * u64::MAX,
    ensures
        match r {
            Ok(p) => store.has_span(base as int, len as int) && is_view(
                p,
                **store,
                base as int,
                len as int,
                shift as int,
                bases@,
            ),
            Err(e) => !store.has_span(base as int, len as int) && e.text() == too_short_text(
                layer as int,
                shift as int,
            ),
        },
{
    let start: u128 = base as u128 + shift;
    let size: u128 = len - shift;
    let all: u64 = store.payload_len();
    let found = if start <= 0xffff_ffff_ffff_ffff && size <= 0xffff_ffff_ffff_ffff {
        store.span(start as u64, size as u64)
    } else {
        None
    };
    match found {
        Some(region) => {
            let table: Vec<u32> = bases.clone();
            assert(table@ =~= bases@);
            Ok(
                RoutedProjection {
                    region: EncodedRegion { region, encoding: ExpertEncoding::Bf16 },
                    addressing: ProjectionAddressing::Table(table),
                    extent: ExtentPolicy::ContainingView,
                },
            )
        },
        None => {
            let mut m: String = "segment is too short for layer ".to_owned();
            push_decimal(&mut m, layer as u64);
            m.append("'s +");
            push_wide_decimal(&mut m, shift);
            m.append(" view");
            Err(VindexError::Parse(m))
        },
    }
}

/// Build the addressing for one layer from the segment's own tensor table.
///
/// `offsets` maps tensor name to payload-relative byte offset, exactly as the
/// segment header records it. Nothing is computed from an expert id.
pub fn source_expert_bank(
    store: &Arc<PhysicalStore>,
    offsets: &Table<String, u64>,
    layer: u32,
    experts: u32,
    per_projection_bytes: u64,
) -> (r: Result<SourceExpertBank, VindexError>)
    ensures
        match r {
            Ok(bank) => {
                &&& bank_refusal(
                    **store,
                    offsets.rows(),
                    layer as int,
                    experts as int,
                    per_projection_bytes as int,
                ) is None
                &&& is_bank(
                    bank,
                    **store,
                    expert_blocks(
                        offsets.rows(),
                        layer as int,
                        experts as int,
                        per_projection_bytes as int,
                    )->Ok_0,
                    per_projection_bytes as int,
                )
            },
            Err(e) => bank_refusal(
                **store,
                offsets.rows(),
                layer as int,
                experts as int,
                per_projection_bytes as int,
            ) == Some(e.text()),
        },
{
    if experts == 0 {
        let mut m: String = "layer ".to_owned();
        push_decimal(&mut m, layer as u64);
        m.append(": a source expert bank over zero experts addresses nothing");
        return Err(VindexError::Parse(m));
    }
    let per: u64 = per_projection_bytes;
    let ghost rows = offsets.rows();
    let mut absolute: Vec<u64> = Vec::new();
    let mut layer_base: u64 = u64::MAX;
    let mut last: u64 = 0;
    let mut e: u32 = 0;
    while e < experts
        invariant
            rows == offsets.rows(),
            0 < experts,
            per == per_projection_bytes,
            e <= experts,
            absolute@.len() == e,
            expert_blocks(rows, layer as int, e as int, per as int) == Ok::<Seq<u64>, Seq<char>>(
                absolute@,
            ),
            e == 0 ==> layer_base == u64::MAX && last == 0,
            e > 0 ==> layer_base == least(absolute@) && last == greatest(absolute@),
        decreases experts - e,
    {
        match block_of(offsets, layer, e, per) {
            Err(err) => {
                proof {
                    assert(expert_blocks(rows, layer as int, e as int + 1, per as int) == Err::<
                        Seq<u64>,
                        Seq<char>,
                    >(err.text()));
                    lemma_blocks_prefix(
                        rows,
                        layer as int,
                        e as int + 1,
                        experts as int,
                        per as int,
                    );
                }
                return Err(err);
            },
            Ok(w1) => {
                let ghost before = absolute@;
                absolute.push(w1);
                assert(absolute@.drop_last() =~= before);
                if w1 < layer_base || e == 0 {
                    layer_base = w1;
                }
                if w1 > last || e == 0 {
                    last = w1;
                }
            },
        }
        e = e + 1;
    }
    proof {
        lemma_least_greatest(absolute@);
    }
    let layer_len: u128 = last as u128 + 3 * (per as u128) - layer_base as u128;
    let mut bases: Vec<u32> = Vec::new();
    let mut i: usize = 0;
    while i < absolute.len()
        invariant
            rows == offsets.rows(),
            0 < experts,
            per == per_projection_bytes,
            expert_blocks(rows, layer as int, experts as int, per as int) == Ok::<
                Seq<u64>,
                Seq<char>,
            >(absolute@),
            absolute@.len() == experts,
            layer_base == least(absolute@),
            forall|j: int| 0 <= j < absolute@.len() ==> layer_base <= #[trigger] absolute@[j],
            i <= absolute@.len(),
            bases@.len() == i,
            forall|j: int| 0 <= j < i ==> #[trigger] bases@[j] == absolute@[j] - layer_base,
            first_too_far(absolute@, layer_base as int, 0) == first_too_far(
                absolute@,
                layer_base as int,
                i as int,
            ),
        decreases absolute@.len() - i,
    {
        let past: u64 = absolute[i] - layer_base;
        if past > u32::MAX as u64 {
            let mut m: String = "layer ".to_owned();
            push_decimal(&mut m, layer as u64);
            m.append(" expert ");
            push_decimal(&mut m, i as u64);
            m.append(" sits ");
            push_decimal(&mut m, past);
            m.append(
                " bytes past the layer's own base — beyond what a 32-bit offset table can address, so this layer's experts are not the contiguous block the rebasing assumes",
            );
            return Err(VindexError::Parse(m));
        }
        bases.push(past as u32);
        i = i + 1;
    }
    assert(first_too_far(absolute@, layer_base as int, 0) == absolute@.len());
    // Three views of one mapping, each starting at its own projection within
    // this layer's block; one table of rebased offsets addresses all three.
    let gate = match view_of(store, layer, layer_base, layer_len, 0, &bases) {
        Ok(p) => p,
        Err(err) => return Err(err),
    };
    let down = match view_of(store, layer, layer_base, layer_len, per as u128, &bases) {
        Ok(p) => p,
        Err(err) => return Err(err),
    };
    let up = match view_of(store, layer, layer_base, layer_len, 2 * (per as u128), &bases) {
        Ok(p) => p,
        Err(err) => return Err(err),
    };
    let len: u64 = gate.region.region.len();
    Ok(
        SourceExpertBank {
            binding: ExpertBankBinding { gate, up, down, shared: None },
            bases,
            layer_base,
            layer_len: len,
        },
    )
}

/// **A source bank's table is the segment's own.** What a bank reads for an
/// expert's gate, down and up projections is where the segment put that
/// expert's `w1`, `w2` and `w3`.
pub proof fn law_source_bank_reads_the_segments_offsets(
    bank: SourceExpertBank,
    store: PhysicalStore,
    offsets: Seq<(Seq<char>, u64)>,
    layer: int,
    experts: int,
    per: int,
    expert: int,
)
    requires
        0 <= expert < experts,
        per >= 0,
        bank_refusal(store, offsets, layer, experts, per) is None,
        is_bank(bank, store, expert_blocks(offsets, layer, experts, per)->Ok_0, per),
        bank.bases@[expert] != crate::physical::NOT_ADDRESSABLE,
    ensures
        bank.binding.gate.addressing.address(expert) matches Some(o) && lookup(
            offsets,
            expert_tensor(layer, expert, "w1"@),
        ) matches Some(w) && bank.binding.gate.region.region.at() + o == store.start() + w,
        bank.binding.down.addressing.address(expert) matches Some(o) && lookup(
            offsets,
            expert_tensor(layer, expert, "w2"@),
        ) matches Some(w) && bank.binding.down.region.region.at() + o == store.start() + w,
        bank.binding.up.addressing.address(expert) matches Some(o) && lookup(
            offsets,
            expert_tensor(layer, expert, "w3"@),
        ) matches Some(w) && bank.binding.up.region.region.at() + o == store.start() + w,
{
    let blocks = expert_blocks(offsets, layer, experts, per)->Ok_0;
    lemma_blocks_are_found(offsets, layer, experts, per, expert);
    assert(bank.bases@[expert] == blocks[expert] - least(blocks));
}

proof fn lemma_blocks_are_found(
    offsets: Seq<(Seq<char>, u64)>,
    layer: int,
    count: int,
    per: int,
    expert: int,
)
    requires
        0 <= expert < count,
        expert_blocks(offsets, layer, count, per) is Ok,
    ensures
        expert_blocks(offsets, layer, count, per)->Ok_0.len() == count,
        expert_block(offsets, layer, expert, per) == Ok::<u64, Seq<char>>(
            expert_blocks(offsets, layer, count, per)->Ok_0[expert],
        ),
    decreases count,
{
    if count > 1 {
        if expert < count - 1 {
            lemma_blocks_are_found(offsets, layer, count - 1, per, expert);
        } else {
            lemma_blocks_are_found(offsets, layer, count - 1, per, 0);
        }
    }
    assert(expert_blocks(offsets, layer, count - 1, per) is Ok);
    if count == 1 {
        assert(expert_blocks(offsets, layer, 0, per)->Ok_0 =~= Seq::<u64>::empty());
    }
}

/// Where a segment puts one projection of one expert.
pub open spec fn put_at(
    offsets: Seq<(Seq<char>, u64)>,
    layer: int,
    expert: int,
    proj: Seq<char>,
) -> Option<u64> {
    lookup(offsets, expert_tensor(layer, expert, proj))
}

/// **When a source bank is addressed.** There is an expert; every expert's
/// `w2` stands one projection past its `w1` and its `w3` two past; no two
/// experts stand further apart than a 32-bit offset reaches; and the store
/// holds every expert to its end.
pub proof fn law_when_a_source_bank_is_addressed(
    store: PhysicalStore,
    offsets: Seq<(Seq<char>, u64)>,
    layer: int,
    experts: int,
    per: int,
)
    requires
        experts >= 0,
        per >= 0,
    ensures
        bank_refusal(store, offsets, layer, experts, per) is None <==> {
            &&& experts > 0
            &&& forall|e: int|
                0 <= e < experts ==> {
                    &&& #[trigger] put_at(offsets, layer, e, "w1"@) is Some
                    &&& put_at(offsets, layer, e, "w2"@) is Some
                    &&& put_at(offsets, layer, e, "w3"@) is Some
                    &&& put_at(offsets, layer, e, "w2"@)->0 == put_at(offsets, layer, e, "w1"@)->0
                        + per
                    &&& put_at(offsets, layer, e, "w3"@)->0 == put_at(offsets, layer, e, "w1"@)->0
                        + 2 * per
                    &&& store.start() + put_at(offsets, layer, e, "w1"@)->0 + 3 * per
                        <= store.content().len()
                }
            &&& forall|e: int, f: int|
                0 <= e < experts && 0 <= f < experts ==> (#[trigger] put_at(
                    offsets,
                    layer,
                    e,
                    "w1"@,
                ))->0 - (#[trigger] put_at(offsets, layer, f, "w1"@))->0 <= 0xffff_ffff
        },
{
    if experts > 0 {
        lemma_blocks_stand(offsets, layer, experts, per);
        match expert_blocks(offsets, layer, experts, per) {
            Ok(blocks) => {
                lemma_blocks_are_found(offsets, layer, experts, per, 0);
                lemma_least_greatest(blocks);
                let base = least(blocks);
                lemma_first_too_far(blocks, base, 0);
                assert forall|e: int| 0 <= e < experts implies #[trigger] put_at(
                    offsets,
                    layer,
                    e,
                    "w1"@,
                ) == Some(blocks[e]) && expert_block(offsets, layer, e, per) == Ok::<
                    u64,
                    Seq<char>,
                >(blocks[e]) by {
                    lemma_blocks_are_found(offsets, layer, experts, per, e);
                }
                let a = choose|i: int| 0 <= i < blocks.len() && blocks[i] == least(blocks);
                let b = choose|i: int| 0 <= i < blocks.len() && blocks[i] == greatest(blocks);
                assert(put_at(offsets, layer, a, "w1"@) == Some(blocks[a]));
                assert(put_at(offsets, layer, b, "w1"@) == Some(blocks[b]));
                let far = first_too_far(blocks, base, 0);
                if far < blocks.len() {
                    assert(put_at(offsets, layer, far, "w1"@) == Some(blocks[far]));
                    assert(blocks[far] - blocks[a] > 0xffff_ffff);
                } else {
                    assert forall|e: int, f: int| 0 <= e < experts && 0 <= f < experts implies (
                    #[trigger] put_at(offsets, layer, e, "w1"@))->0 - (#[trigger] put_at(
                        offsets,
                        layer,
                        f,
                        "w1"@,
                    ))->0 <= 0xffff_ffff by {
                        assert(!(blocks[e] - base > u32::MAX));
                    }
                }
            },
            Err(_) => {},
        }
    }
}

proof fn lemma_blocks_stand(
    offsets: Seq<(Seq<char>, u64)>,
    layer: int,
    count: int,
    per: int,
)
    requires
        count >= 0,
    ensures
        expert_blocks(offsets, layer, count, per) is Ok <==> forall|e: int|
            0 <= e < count ==> {
                &&& #[trigger] put_at(offsets, layer, e, "w1"@) is Some
                &&& put_at(offsets, layer, e, "w2"@) is Some
                &&& put_at(offsets, layer, e, "w3"@) is Some
                &&& put_at(offsets, layer, e, "w2"@)->0 == put_at(offsets, layer, e, "w1"@)->0 + per
                &&& put_at(offsets, layer, e, "w3"@)->0 == put_at(offsets, layer, e, "w1"@)->0 + 2
                    * per
            },
    decreases count,
{
    if count > 0 {
        lemma_blocks_stand(offsets, layer, count - 1, per);
        let e = count - 1;
        let stands = {
            &&& put_at(offsets, layer, e, "w1"@) is Some
            &&& put_at(offsets, layer, e, "w2"@) is Some
            &&& put_at(offsets, layer, e, "w3"@) is Some
            &&& put_at(offsets, layer, e, "w2"@)->0 == put_at(offsets, layer, e, "w1"@)->0 + per
            &&& put_at(offsets, layer, e, "w3"@)->0 == put_at(offsets, layer, e, "w1"@)->0 + 2
                * per
        };
        assert(expert_block(offsets, layer, e, per) is Ok <==> stands);
    }
}

proof fn lemma_first_too_far(blocks: Seq<u64>, base: int, from: int)
    requires
        0 <= from <= blocks.len(),
    ensures
        from <= first_too_far(blocks, base, from) <= blocks.len(),
        first_too_far(blocks, base, from) < blocks.len() ==> blocks[first_too_far(
            blocks,
            base,
            from,
        )] - base > u32::MAX,
        forall|k: int|
            from <= k < first_too_far(blocks, base, from) ==> !(#[trigger] blocks[k] - base
                > u32::MAX),
    decreases blocks.len() - from,
{
    if from < blocks.len() && !(blocks[from] - base > u32::MAX) {
        lemma_first_too_far(blocks, base, from + 1);
    }
}

/// **A bank covers its layer and no more.** It begins at the expert that
/// stands first and ends where the last one does, three projections past its
/// start.
pub proof fn law_a_bank_covers_its_layer(
    bank: SourceExpertBank,
    store: PhysicalStore,
    blocks: Seq<u64>,
    per: int,
)
    requires
        blocks.len() > 0,
        is_bank(bank, store, blocks, per),
    ensures
        forall|e: int|
            0 <= e < blocks.len() ==> bank.layer_base <= #[trigger] blocks[e] && blocks[e] + 3 * per
                <= bank.layer_base + bank.layer_len,
        blocks.contains(bank.layer_base),
        exists|e: int|
            0 <= e < blocks.len() && #[trigger] blocks[e] + 3 * per == bank.layer_base
                + bank.layer_len,
        bank.binding.gate.region.region.at() == store.start() + bank.layer_base,
        bank.binding.down.region.region.at() == store.start() + bank.layer_base + per,
        bank.binding.up.region.region.at() == store.start() + bank.layer_base + 2 * per,
        bank.binding.gate.region.region.size() == bank.layer_len,
        bank.binding.down.region.region.size() == bank.layer_len - per,
        bank.binding.up.region.region.size() == bank.layer_len - 2 * per,
        bank.binding.shared is None,
{
    lemma_least_greatest(blocks);
    let a = choose|i: int| 0 <= i < blocks.len() && blocks[i] == least(blocks);
    assert(blocks[a] == bank.layer_base);
    let b = choose|i: int| 0 <= i < blocks.len() && blocks[i] == greatest(blocks);
    assert(blocks[b] + 3 * per == bank.layer_base + bank.layer_len);
}

} // verus!

//! Expert banks: encodings, addressing, and binding a layer's projections.
//!
//! Three facts travel together for each projection — its bytes, how they are
//! addressed, and whether the region is the bank or a window onto a larger
//! one — because they are one fact: where the bytes came from.
use crate::codec::BlockCodec;
use crate::error::VindexError;
use crate::physical::{WeightRegion, NOT_ADDRESSABLE, WEIGHT_BINDING_ALIGN};
use crate::text::{decimal, push_decimal, push_wide_decimal, same};
use vstd::prelude::*;
use vstd::string::*;

verus! {

/// How an expert's semantic id maps to its physical slot in a bank.
#[derive(Debug, Clone, PartialEq, Eq)]
pub enum ExpertLayout {
    /// A full bank: every expert at the slot of its own id.
    Identity { experts: u32 },
    /// A packed subset: physical slot `i` holds expert `ids[i]`.
    Mapped { ids: Vec<u32> },
}

/// `i` is where `expert` first stands in `ids`.
pub open spec fn first_at(ids: Seq<u32>, expert: u32, i: int) -> bool {
    &&& 0 <= i < ids.len()
    &&& ids[i] == expert
    &&& forall|j: int| 0 <= j < i ==> ids[j] != expert
}

impl ExpertLayout {
    /// The physical slot holding `expert`, or `None` if this bank does not
    /// hold it.
    pub fn slot_of(&self, expert: u32) -> (r: Option<u32>)
        ensures
            match *self {
                ExpertLayout::Identity { experts } => r == (if expert < experts {
                    Some(expert)
                } else {
                    None
                }),
                ExpertLayout::Mapped { ids } => match r {
                    Some(slot) => exists|i: int|
                        #[trigger] first_at(ids@, expert, i) && slot == i as u32,
                    None => !ids@.contains(expert),
                },
            },
    {
        match self {
            ExpertLayout::Identity { experts } => {
                if expert < *experts {
                    Some(expert)
                } else {
                    None
                }
            },
            ExpertLayout::Mapped { ids } => {
                let mut i: usize = 0;
                while i < ids.len()
                    invariant
                        *self == (ExpertLayout::Mapped { ids: *ids }),
                        i <= ids@.len(),
                        forall|j: int| 0 <= j < i ==> ids@[j] != expert,
                    decreases ids@.len() - i,
                {
                    if ids[i] == expert {
                        let slot: u32 = i as u32;
                        assert(first_at(self->ids@, expert, i as int) && slot == (i as int) as u32);
                        return Some(slot);
                    }
                    i = i + 1;
                }
                None
            },
        }
    }

    /// How many slots the bank has.
    pub fn slots(&self) -> (r: usize)
        ensures
            match *self {
                ExpertLayout::Identity { experts } => r == experts,
                ExpertLayout::Mapped { ids } => r == ids@.len(),
            },
    {
        match self {
            ExpertLayout::Identity { experts } => *experts as usize,
            ExpertLayout::Mapped { ids } => ids.len(),
        }
    }
}

/// What a bank-pricing refusal names as its operand: a bank is priced per
/// projection, not per named tensor.
pub const EXPERT_BANK_OPERAND: &'static str = "expert-bank";

/// A physical representation a grouped kernel can execute.
#[derive(Debug, Clone, Copy, PartialEq, Eq, Structural)]
pub enum ExpertEncoding {
    Bf16,
    /// 34-byte blocks of 32: an f16 scale and 32 int8.
    Q80,
    Q6K,
    Q4K,
}

impl ExpertEncoding {
    /// The name precision maps use.
    pub open spec fn title(self) -> Seq<char> {
        match self {
            ExpertEncoding::Bf16 => "BF16"@,
            ExpertEncoding::Q80 => "Q8_0"@,
            ExpertEncoding::Q6K => "Q6_K"@,
            ExpertEncoding::Q4K => "Q4_K"@,
        }
    }

    /// Elements per block.
    pub open spec fn block(self) -> int {
        match self {
            ExpertEncoding::Bf16 => 1,
            ExpertEncoding::Q80 => 32,
            ExpertEncoding::Q6K => 256,
            ExpertEncoding::Q4K => 256,
        }
    }

    /// Stored bytes per block.
    pub open spec fn block_bytes(self) -> int {
        match self {
            ExpertEncoding::Bf16 => 2,
            ExpertEncoding::Q80 => 34,
            ExpertEncoding::Q6K => 210,
            ExpertEncoding::Q4K => 144,
        }
    }

    /// The codec is this encoding's.
    pub open spec fn is_codec(self, codec: BlockCodec) -> bool {
        &&& codec.label@ == self.title()
        &&& codec.block == self.block()
        &&& codec.block_bytes == self.block_bytes()
    }

    /// Bytes of an `[n, k]` matrix, or the refusal of one that is not whole
    /// blocks.
    pub open spec fn priced(self, n: int, k: int) -> Result<u64, Seq<char>> {
        let bytes = n * (k / self.block()) * self.block_bytes();
        if k % self.block() != 0 {
            Err(
                crate::codec::ragged_text(
                    EXPERT_BANK_OPERAND@,
                    self.title(),
                    k,
                    self.block(),
                ),
            )
        } else if bytes > u64::MAX {
            Err(crate::codec::oversize_text(EXPERT_BANK_OPERAND@, self.title()))
        } else {
            Ok(bytes as u64)
        }
    }

    /// The name precision maps use.
    pub fn name(self) -> (r: &'static str)
        ensures
            r@ == self.title(),
    {
        match self {
            ExpertEncoding::Bf16 => "BF16",
            ExpertEncoding::Q80 => "Q8_0",
            ExpertEncoding::Q6K => "Q6_K",
            ExpertEncoding::Q4K => "Q4_K",
        }
    }

    /// The encoding a precision map named, or `None` if no grouped kernel
    /// reads it.
    pub fn parse(s: &str) -> (r: Option<Self>)
        ensures
            r matches Some(e) ==> e.title() == s@,
            r is None ==> forall|e: ExpertEncoding| (#[trigger] e.title()) != s@,
    {
        if same(s, "BF16") {
            Some(ExpertEncoding::Bf16)
        } else if same(s, "Q8_0") {
            Some(ExpertEncoding::Q80)
        } else if same(s, "Q6_K") {
            Some(ExpertEncoding::Q6K)
        } else if same(s, "Q4_K") {
            Some(ExpertEncoding::Q4K)
        } else {
            None
        }
    }

    /// The codec this encoding is.
    pub fn codec(self) -> (r: BlockCodec)
        ensures
            self.is_codec(r),
    {
        match self {
            ExpertEncoding::Bf16 => BlockCodec { label: "BF16", block: 1, block_bytes: 2 },
            ExpertEncoding::Q80 => BlockCodec { label: "Q8_0", block: 32, block_bytes: 34 },
            ExpertEncoding::Q6K => BlockCodec { label: "Q6_K", block: 256, block_bytes: 210 },
            ExpertEncoding::Q4K => BlockCodec { label: "Q4_K", block: 256, block_bytes: 144 },
        }
    }

    /// Bytes an `[n, k]` matrix occupies in this encoding.
    pub fn matrix_bytes(self, n: usize, k: usize) -> (r: Result<u64, VindexError>)
        ensures
            match r {
                Ok(b) => self.priced(n as int, k as int) == Ok::<u64, Seq<char>>(b),
                Err(e) => self.priced(n as int, k as int) == Err::<u64, Seq<char>>(e.text()),
            },
    {
        self.codec().stored_bytes(n, k, EXPERT_BANK_OPERAND)
    }
}

/// **Encodings have different names, so a name parses to the encoding it is
/// the name of.**
pub proof fn law_encoding_names_are_distinct(a: ExpertEncoding, b: ExpertEncoding)
    requires
        a.title() == b.title(),
    ensures
        a == b,
{
    reveal_strlit("BF16");
    reveal_strlit("Q8_0");
    reveal_strlit("Q6_K");
    reveal_strlit("Q4_K");
    assert("BF16"@[0] == 'B');
    assert("Q8_0"@[0] == 'Q');
    assert("Q6_K"@[0] == 'Q');
    assert("Q4_K"@[0] == 'Q');
    assert("Q8_0"@[1] == '8');
    assert("Q6_K"@[1] == '6');
    assert("Q4_K"@[1] == '4');
}

/// A region together with what its bytes are.
#[derive(Clone)]
pub struct EncodedRegion {
    pub region: WeightRegion,
    pub encoding: ExpertEncoding,
}

/// The refusal of a region too small for what it claims to hold.
pub open spec fn no_room_text(r: EncodedRegion, need: int, n: int, k: int) -> Seq<char> {
    "a "@ + r.encoding.title() + " bank of ["@ + decimal(n as nat) + ", "@ + decimal(k as nat)
        + "] needs "@ + decimal(need as nat)
        + " bytes to reach its last expert, but the                  bound region ("@
        + r.region.label() + ") is "@ + decimal(r.region.size() as nat)
        + " — the bytes are not what this encoding claims"@
}

impl EncodedRegion {
    /// Whether an `[n, k]` matrix at `top` fits, or why not.
    pub open spec fn room(self, top: int, n: int, k: int) -> Result<(), Seq<char>> {
        match self.encoding.priced(n, k) {
            Err(e) => Err(e),
            Ok(bytes) => if top + bytes > self.region.size() {
                Err(no_room_text(self, top + bytes, n, k))
            } else {
                Ok(())
            },
        }
    }

    /// What the bytes are, and where: never the bytes.
    pub open spec fn label(&self) -> Seq<char> {
        self.region.label() + " as "@ + self.encoding.title()
    }

    /// What the bytes are, and where: never the bytes.
    pub fn describe(&self) -> (r: String)
        ensures
            r@ == self.label(),
    {
        let mut s: String = self.region.describe();
        s.append(" as ");
        s.append(self.encoding.name());
        s
    }

    /// Which physical store these bytes are in.
    pub fn store_id(&self) -> (r: &str)
        ensures
            r@ == self.region.owner().title(),
    {
        self.region.store_id()
    }

    /// Refuse a region too small to hold what it claims to be.
    pub fn check_room(&self, top_offset: u64, n: usize, k: usize) -> (r: Result<(), VindexError>)
        ensures
            match r {
                Ok(_) => self.room(top_offset as int, n as int, k as int) == Ok::<
                    (),
                    Seq<char>,
                >(()),
                Err(e) => self.room(top_offset as int, n as int, k as int) == Err::<
                    (),
                    Seq<char>,
                >(e.text()),
            },
    {
        let bytes: u64 = match self.encoding.matrix_bytes(n, k) {
            Ok(b) => b,
            Err(e) => return Err(e),
        };
        let need: u128 = top_offset as u128 + bytes as u128;
        if need > self.region.len() as u128 {
            let mut m: String = "a ".to_owned();
            m.append(self.encoding.name());
            m.append(" bank of [");
            push_decimal(&mut m, n as u64);
            m.append(", ");
            push_decimal(&mut m, k as u64);
            m.append("] needs ");
            push_wide_decimal(&mut m, need);
            m.append(" bytes to reach its last expert, but the                  bound region (");
            m.append(self.region.describe().as_str());
            m.append(") is ");
            push_decimal(&mut m, self.region.len());
            m.append(" — the bytes are not what this encoding claims");
            return Err(VindexError::Parse(m));
        }
        Ok(())
    }
}

/// The shared expert's three projections, each its own region under its own
/// encoding.
#[derive(Clone)]
pub struct SharedExpertBinding {
    pub gate: EncodedRegion,
    pub up: EncodedRegion,
    pub down: EncodedRegion,
}

/// Logical expert id to byte coordinate, for one projection.
#[derive(Debug, Clone, PartialEq, Eq)]
pub enum ProjectionAddressing {
    /// `offset = expert_id * stride`.
    Identity { experts: u32, stride: u32 },
    /// Byte offset per expert, indexed by logical expert id.
    Table(Vec<u32>),
}

/// The largest address in a table, or `None` if it addresses nothing.
pub open spec fn table_top(t: Seq<u32>) -> Option<int>
    decreases t.len(),
{
    if t.len() == 0 {
        None
    } else {
        let rest = table_top(t.drop_last());
        let last = t.last() as int;
        if last == NOT_ADDRESSABLE {
            rest
        } else {
            match rest {
                Some(m) => Some(
                    if m < last {
                        last
                    } else {
                        m
                    },
                ),
                None => Some(last),
            }
        }
    }
}

proof fn lemma_table_top(t: Seq<u32>)
    ensures
        forall|i: int|
            0 <= i < t.len() && t[i] != NOT_ADDRESSABLE ==> (table_top(t) matches Some(m) && t[i]
                <= m),
        table_top(t) matches Some(m) ==> exists|i: int|
            0 <= i < t.len() && t[i] != NOT_ADDRESSABLE && t[i] == m,
    decreases t.len(),
{
    if t.len() > 0 {
        let init = t.drop_last();
        lemma_table_top(init);
        assert forall|i: int| 0 <= i < t.len() && t[i] != NOT_ADDRESSABLE implies (table_top(
            t,
        ) matches Some(m) && t[i] <= m) by {
            if i < t.len() - 1 {
                assert(init[i] == t[i]);
            }
        }
        if table_top(t) is Some {
            let m = table_top(t)->0;
            if t.last() != NOT_ADDRESSABLE && t.last() == m {
                assert(t[t.len() - 1] == m);
            } else {
                let i = choose|i: int|
                    0 <= i < init.len() && init[i] != NOT_ADDRESSABLE && init[i] == m;
                assert(t[i] == m);
            }
        }
    }
}

impl ProjectionAddressing {
    /// The byte offset of `expert`, or `None` when it has none.
    pub open spec fn address(&self, expert: int) -> Option<int> {
        match *self {
            ProjectionAddressing::Identity { experts, stride } => if expert < experts {
                Some(expert * stride)
            } else {
                None
            },
            ProjectionAddressing::Table(t) => if expert < t@.len() && t@[expert]
                != NOT_ADDRESSABLE {
                Some(t@[expert] as int)
            } else {
                None
            },
        }
    }

    /// The highest byte offset the projection can be asked to read from.
    pub open spec fn top(&self) -> Option<int> {
        match *self {
            ProjectionAddressing::Identity { experts, stride } => if experts > 0 {
                Some((experts - 1) * stride)
            } else {
                None
            },
            ProjectionAddressing::Table(t) => table_top(t@),
        }
    }

    /// How many experts this projection can be asked about.
    pub fn experts(&self) -> (r: u32)
        ensures
            match *self {
                ProjectionAddressing::Identity { experts, .. } => r == experts,
                ProjectionAddressing::Table(t) => r == t@.len() as u32,
            },
    {
        match self {
            ProjectionAddressing::Identity { experts, .. } => *experts,
            ProjectionAddressing::Table(t) => t.len() as u32,
        }
    }

    /// The constant per-expert stride, when this projection has one.
    pub fn identity_stride(&self) -> (r: Option<u32>)
        ensures
            r == (match *self {
                ProjectionAddressing::Identity { stride, .. } => Some(stride),
                ProjectionAddressing::Table(_) => None,
            }),
    {
        match self {
            ProjectionAddressing::Identity { stride, .. } => Some(*stride),
            ProjectionAddressing::Table(_) => None,
        }
    }

    /// The highest byte offset this projection can be asked to read from, or
    /// `None` if it addresses nothing. Derived from the offsets and not from
    /// the entry count: a table has an entry per scored expert while the bank
    /// behind it holds only the addressable subset.
    pub fn max_offset(&self) -> (r: Option<u64>)
        ensures
            match r {
                Some(m) => self.top() == Some(m as int),
                None => self.top() is None,
            },
    {
        match self {
            ProjectionAddressing::Identity { experts, stride } => {
                let (n, step): (u32, u32) = (*experts, *stride);
                if n > 0 {
                    assert((n - 1) * step <= 0xffff_ffff * 0xffff_ffff) by (nonlinear_arith)
                        requires
                            0 <= n - 1 <= 0xffff_ffff,
                            0 <= step <= 0xffff_ffff,
                    ;
                    Some((n - 1) as u64 * step as u64)
                } else {
                    None
                }
            },
            ProjectionAddressing::Table(t) => {
                let mut top: Option<u64> = None;
                let mut i: usize = 0;
                assert(t@.take(0) =~= Seq::<u32>::empty());
                while i < t.len()
                    invariant
                        i <= t@.len(),
                        match top {
                            Some(m) => table_top(t@.take(i as int)) == Some(m as int),
                            None => table_top(t@.take(i as int)) is None,
                        },
                    decreases t@.len() - i,
                {
                    assert(t@.take(i as int + 1).drop_last() =~= t@.take(i as int));
                    let o: u64 = t[i] as u64;
                    if t[i] != NOT_ADDRESSABLE {
                        top = match top {
                            Some(m) => Some(
                                if m < o {
                                    o
                                } else {
                                    m
                                },
                            ),
                            None => Some(o),
                        };
                    }
                    i = i + 1;
                }
                assert(t@.take(t@.len() as int) =~= t@);
                top
            },
        }
    }

    /// Byte offset of `expert`'s payload, or `None` when this projection
    /// cannot address it.
    pub fn offset_of(&self, expert: u32) -> (r: Option<u64>)
        ensures
            match r {
                Some(o) => self.address(expert as int) == Some(o as int),
                None => self.address(expert as int) is None,
            },
    {
        match self {
            ProjectionAddressing::Identity { experts, stride } => {
                let step: u32 = *stride;
                if expert < *experts {
                    assert(expert * step <= 0xffff_ffff * 0xffff_ffff) by (nonlinear_arith)
                        requires
                            0 <= expert <= 0xffff_ffff,
                            0 <= step <= 0xffff_ffff,
                    ;
                    Some(expert as u64 * step as u64)
                } else {
                    None
                }
            },
            ProjectionAddressing::Table(t) => {
                if (expert as usize) < t.len() && t[expert as usize] != NOT_ADDRESSABLE {
                    Some(t[expert as usize] as u64)
                } else {
                    None
                }
            },
        }
    }
}

/// **No address lies past the projection's extent, and the extent is one of
/// its addresses.**
pub proof fn law_extent_bounds_every_address(a: ProjectionAddressing, expert: int)
    requires
        expert >= 0,
        a.address(expert) is Some,
    ensures
        a.top() is Some,
        a.address(expert)->0 <= a.top()->0,
        exists|e: int| e >= 0 && #[trigger] a.address(e) == a.top(),
{
    match a {
        ProjectionAddressing::Identity { experts, stride } => {
            assert(expert * stride <= (experts - 1) * stride) by (nonlinear_arith)
                requires
                    expert <= experts - 1,
                    stride >= 0,
            ;
            assert(a.address(experts - 1) == a.top());
        },
        ProjectionAddressing::Table(t) => {
            lemma_table_top(t@);
            let m = a.top()->0;
            let e = choose|i: int|
                0 <= i < t@.len() && t@[i] != NOT_ADDRESSABLE && t@[i] == m;
            assert(a.address(e) == a.top());
        },
    }
}

/// Why a region may be larger than the bank it addresses.
#[derive(Debug, Clone, Copy, PartialEq, Eq, Structural)]
pub enum ExtentPolicy {
    /// The regions are exactly this bank. Surplus bytes are a defect.
    Exact,
    /// The regions are windows onto a larger backing. Surplus bytes say
    /// nothing about the encoding.
    ContainingView,
}

/// One projection of a routed bank.
#[derive(Clone)]
pub struct RoutedProjection {
    pub region: EncodedRegion,
    pub addressing: ProjectionAddressing,
    pub extent: ExtentPolicy,
}

/// The refusal of a region larger or smaller than its bank.
pub open spec fn not_exact_text(
    what: Seq<char>,
    r: EncodedRegion,
    top: int,
    want: int,
    n: int,
    k: int,
) -> Seq<char> {
    what + ": a "@ + r.encoding.title() + " bank reaching offset "@ + decimal(top as nat) + " at ["@
        + decimal(n as nat) + ", "@ + decimal(k as nat) + "] is "@ + decimal(want as nat)
        + " bytes,                          but the bound region ("@ + r.region.label() + ") is "@
        + decimal(r.region.size() as nat) + " — the bytes are not this encoding"@
}

impl RoutedProjection {
    /// Whether the projection has room for every addressable expert of shape
    /// `[n, k]`, and nothing besides where its extent is exact.
    pub open spec fn fits(&self, what: Seq<char>, n: int, k: int) -> Result<(), Seq<char>> {
        let top = match self.addressing.top() {
            Some(m) => m,
            None => 0,
        };
        match self.region.room(top, n, k) {
            Err(e) => Err(e),
            Ok(_) => {
                let want = top + self.region.encoding.priced(n, k)->Ok_0;
                if self.extent == ExtentPolicy::Exact && self.region.region.size() != want {
                    Err(not_exact_text(what, self.region, top, want, n, k))
                } else {
                    Ok(())
                }
            },
        }
    }

    /// Which physical store these bytes are in.
    pub fn store_id(&self) -> (r: &str)
        ensures
            r@ == self.region.region.owner().title(),
    {
        self.region.store_id()
    }

    /// What these bytes are.
    pub fn encoding(&self) -> (r: ExpertEncoding)
        ensures
            r == self.region.encoding,
    {
        self.region.encoding
    }

    fn check(&self, what: &str, n: usize, k: usize) -> (r: Result<(), VindexError>)
        ensures
            match r {
                Ok(_) => self.fits(what@, n as int, k as int) == Ok::<(), Seq<char>>(()),
                Err(e) => self.fits(what@, n as int, k as int) == Err::<(), Seq<char>>(e.text()),
            },
    {
        let top: u64 = match self.addressing.max_offset() {
            Some(m) => m,
            None => 0,
        };
        let enc: &EncodedRegion = &self.region;
        let per: u64 = match enc.encoding.matrix_bytes(n, k) {
            Ok(b) => b,
            Err(e) => return Err(e),
        };
        if let Err(e) = enc.check_room(top, n, k) {
            return Err(e);
        }
        if self.extent == ExtentPolicy::Exact {
            let want: u128 = top as u128 + per as u128;
            if enc.region.len() as u128 != want {
                let mut m: String = what.to_owned();
                m.append(": a ");
                m.append(enc.encoding.name());
                m.append(" bank reaching offset ");
                push_decimal(&mut m, top);
                m.append(" at [");
                push_decimal(&mut m, n as u64);
                m.append(", ");
                push_decimal(&mut m, k as u64);
                m.append("] is ");
                push_wide_decimal(&mut m, want);
                m.append(" bytes,                          but the bound region (");
                m.append(enc.region.describe().as_str());
                m.append(") is ");
                push_decimal(&mut m, enc.region.len());
                m.append(" — the bytes are not this encoding");
                return Err(VindexError::Parse(m));
            }
        }
        Ok(())
    }
}

/// One layer's expert bank: three independently bound routed projections and,
/// independently again, the shared expert's binding.
#[derive(Clone)]
pub struct ExpertBankBinding {
    pub gate: RoutedProjection,
    pub up: RoutedProjection,
    pub down: RoutedProjection,
    /// `None` claims that the model has no shared branch.
    pub shared: Option<SharedExpertBinding>,
}

/// The refusal of a region no backend can bind without copying.
pub open spec fn unbindable_text(what: Seq<char>, region: WeightRegion) -> Seq<char> {
    what + " sits at byte "@ + decimal(region.at() as nat) + " of "@ + region.label()
        + ", which is not a multiple of                      "@ + decimal(
        WEIGHT_BINDING_ALIGN as nat,
    )
        + " — a backend cannot bind it zero-copy, and the                      usual cause is a segment whose payload does not start on an aligned                      boundary. Re-write the container's segments with an aligned payload                      (`encode::segment::SEGMENT_PAYLOAD_ALIGN`); the payload bytes and their                      hash do not change."@
}

/// Whether a region sits where a backend can bind it, or why not.
pub open spec fn bindable(what: Seq<char>, region: WeightRegion) -> Result<(), Seq<char>> {
    if region.at() % WEIGHT_BINDING_ALIGN as int == 0 {
        Ok(())
    } else {
        Err(unbindable_text(what, region))
    }
}

/// The first refusal of two checks.
pub open spec fn both(
    a: Result<(), Seq<char>>,
    b: Result<(), Seq<char>>,
) -> Result<(), Seq<char>> {
    match a {
        Ok(_) => b,
        Err(e) => Err(e),
    }
}

fn check_binding(what: &str, r: &EncodedRegion) -> (res: Result<(), VindexError>)
    ensures
        match res {
            Ok(_) => bindable(what@, r.region) == Ok::<(), Seq<char>>(()),
            Err(e) => bindable(what@, r.region) == Err::<(), Seq<char>>(e.text()),
        },
{
    if r.region.is_bindable_at(WEIGHT_BINDING_ALIGN) {
        return Ok(());
    }
    let mut m: String = what.to_owned();
    m.append(" sits at byte ");
    push_decimal(&mut m, r.region.store_offset());
    m.append(" of ");
    m.append(r.region.describe().as_str());
    m.append(", which is not a multiple of                      ");
    push_decimal(&mut m, WEIGHT_BINDING_ALIGN);
    m.append(
        " — a backend cannot bind it zero-copy, and the                      usual cause is a segment whose payload does not start on an aligned                      boundary. Re-write the container's segments with an aligned payload                      (`encode::segment::SEGMENT_PAYLOAD_ALIGN`); the payload bytes and their                      hash do not change.",
    );
    Err(VindexError::Parse(m))
}

impl ExpertBankBinding {
    /// Every region sits at an offset a backend can bind without copying.
    pub open spec fn is_bindable(&self) -> Result<(), Seq<char>> {
        let routed = both(
            both(
                bindable("routed gate"@, self.gate.region.region),
                bindable("routed up"@, self.up.region.region),
            ),
            bindable("routed down"@, self.down.region.region),
        );
        match self.shared {
            None => routed,
            Some(s) => both(
                routed,
                both(
                    both(
                        bindable("shared gate"@, s.gate.region),
                        bindable("shared up"@, s.up.region),
                    ),
                    bindable("shared down"@, s.down.region),
                ),
            ),
        }
    }

    /// What `validate` answers: the routed projections' extents, then the
    /// shared expert's room, then every region's alignment.
    pub open spec fn validity(&self, hidden: int, inter: int) -> Result<(), Seq<char>> {
        let routed = both(
            both(
                self.gate.fits("routed gate"@, inter, hidden),
                self.up.fits("routed up"@, inter, hidden),
            ),
            self.down.fits("routed down"@, hidden, inter),
        );
        let shared = match self.shared {
            None => Ok(()),
            Some(s) => both(
                both(s.gate.room(0, inter, hidden), s.up.room(0, inter, hidden)),
                s.down.room(0, hidden, inter),
            ),
        };
        both(both(routed, shared), self.is_bindable())
    }

    /// Byte offset of `expert`'s payload within its gate bank, by that bank's
    /// own addressing.
    pub fn gate_offset(&self, expert: u32) -> (r: Option<u64>)
        ensures
            match r {
                Some(o) => self.gate.addressing.address(expert as int) == Some(o as int),
                None => self.gate.addressing.address(expert as int) is None,
            },
    {
        self.gate.addressing.offset_of(expert)
    }

    /// Byte offset of `expert`'s payload within the up bank.
    pub fn up_offset(&self, expert: u32) -> (r: Option<u64>)
        ensures
            match r {
                Some(o) => self.up.addressing.address(expert as int) == Some(o as int),
                None => self.up.addressing.address(expert as int) is None,
            },
    {
        self.up.addressing.offset_of(expert)
    }

    /// Byte offset of `expert`'s payload within the down bank.
    pub fn down_offset(&self, expert: u32) -> (r: Option<u64>)
        ensures
            match r {
                Some(o) => self.down.addressing.address(expert as int) == Some(o as int),
                None => self.down.addressing.address(expert as int) is None,
            },
    {
        self.down.addressing.offset_of(expert)
    }

    /// Which physical store backs its gate projection.
    pub fn store_id(&self) -> (r: &str)
        ensures
            r@ == self.gate.region.region.owner().title(),
    {
        self.gate.region.region.store_id()
    }

    /// Whether all three projections are backed by the same store. False is
    /// legitimate: a candidate may compile one projection and leave the other
    /// two source-backed.
    pub fn stores_agree(&self) -> (r: bool)
        ensures
            r == (self.gate.region.region.owner().title()
                == self.up.region.region.owner().title()
                && self.gate.region.region.owner().title()
                == self.down.region.region.owner().title()),
    {
        let g: &str = self.gate.region.region.store_id();
        same(g, self.up.region.region.store_id()) && same(g, self.down.region.region.store_id())
    }

    /// Every projection has room for every addressable expert at the encoding
    /// it claims; an exact extent additionally refuses surplus bytes; every
    /// region can be bound.
    pub fn validate(&self, hidden: usize, inter: usize) -> (r: Result<(), VindexError>)
        ensures
            match r {
                Ok(_) => self.validity(hidden as int, inter as int) == Ok::<(), Seq<char>>(()),
                Err(e) => self.validity(hidden as int, inter as int) == Err::<(), Seq<char>>(
                    e.text(),
                ),
            },
    {
        if let Err(e) = self.gate.check("routed gate", inter, hidden) {
            return Err(e);
        }
        if let Err(e) = self.up.check("routed up", inter, hidden) {
            return Err(e);
        }
        if let Err(e) = self.down.check("routed down", hidden, inter) {
            return Err(e);
        }
        if let Some(shared) = &self.shared {
            if let Err(e) = shared.gate.check_room(0, inter, hidden) {
                return Err(e);
            }
            if let Err(e) = shared.up.check_room(0, inter, hidden) {
                return Err(e);
            }
            if let Err(e) = shared.down.check_room(0, hidden, inter) {
                return Err(e);
            }
        }
        self.check_bindable()
    }

    /// Every region sits at an offset a backend can bind without copying.
    pub fn check_bindable(&self) -> (r: Result<(), VindexError>)
        ensures
            match r {
                Ok(_) => self.is_bindable() == Ok::<(), Seq<char>>(()),
                Err(e) => self.is_bindable() == Err::<(), Seq<char>>(e.text()),
            },
    {
        if let Err(e) = check_binding("routed gate", &self.gate.region) {
            return Err(e);
        }
        if let Err(e) = check_binding("routed up", &self.up.region) {
            return Err(e);
        }
        if let Err(e) = check_binding("routed down", &self.down.region) {
            return Err(e);
        }
        if let Some(s) = &self.shared {
            if let Err(e) = check_binding("shared gate", &s.gate) {
                return Err(e);
            }
            if let Err(e) = check_binding("shared up", &s.up) {
                return Err(e);
            }
            if let Err(e) = check_binding("shared down", &s.down) {
                return Err(e);
            }
        }
        Ok(())
    }
}

/// **A valid binding addresses only bytes its regions hold.** Every expert a
/// projection can address has its whole matrix inside the bound region.
pub proof fn law_valid_binding_stays_inside(
    b: ExpertBankBinding,
    hidden: int,
    inter: int,
    expert: int,
)
    requires
        expert >= 0,
        b.validity(hidden, inter) == Ok::<(), Seq<char>>(()),
    ensures
        b.gate.addressing.address(expert) matches Some(o) ==> (b.gate.region.encoding.priced(
            inter,
            hidden,
        ) matches Ok(bytes) && o + bytes <= b.gate.region.region.size()),
        b.up.addressing.address(expert) matches Some(o) ==> (b.up.region.encoding.priced(
            inter,
            hidden,
        ) matches Ok(bytes) && o + bytes <= b.up.region.region.size()),
        b.down.addressing.address(expert) matches Some(o) ==> (b.down.region.encoding.priced(
            hidden,
            inter,
        ) matches Ok(bytes) && o + bytes <= b.down.region.region.size()),
{
    if b.gate.addressing.address(expert) is Some {
        law_extent_bounds_every_address(b.gate.addressing, expert);
    }
    if b.up.addressing.address(expert) is Some {
        law_extent_bounds_every_address(b.up.addressing, expert);
    }
    if b.down.addressing.address(expert) is Some {
        law_extent_bounds_every_address(b.down.addressing, expert);
    }
}

/// **What each encoding spends.** A matrix has a price exactly where its rows
/// are whole blocks of 1, 32, 256 and 256 elements and the price can be
/// counted: two bytes an element, 34 for every 32, 210 for every 256 and 144
/// for every 256.
pub proof fn law_what_each_encoding_spends(e: ExpertEncoding, n: int, k: int)
    requires
        0 <= n,
        0 <= k,
    ensures
        match e {
            ExpertEncoding::Bf16 => match e.priced(n, k) {
                Ok(b) => b == 2 * (n * k),
                Err(_) => 2 * (n * k) > u64::MAX,
            },
            ExpertEncoding::Q80 => match e.priced(n, k) {
                Ok(b) => k % 32 == 0 && 32 * b == 34 * (n * k),
                Err(_) => k % 32 != 0 || 34 * (n * k) > 32 * u64::MAX,
            },
            ExpertEncoding::Q6K => match e.priced(n, k) {
                Ok(b) => k % 256 == 0 && 256 * b == 210 * (n * k),
                Err(_) => k % 256 != 0 || 210 * (n * k) > 256 * u64::MAX,
            },
            ExpertEncoding::Q4K => match e.priced(n, k) {
                Ok(b) => k % 256 == 0 && 256 * b == 144 * (n * k),
                Err(_) => k % 256 != 0 || 144 * (n * k) > 256 * u64::MAX,
            },
        },
{
    let block = e.block();
    let spent = e.block_bytes();
    let blocks = k / block;
    let bytes = n * blocks * spent;
    if k % block == 0 {
        vstd::arithmetic::div_mod::lemma_fundamental_div_mod(k, block);
        assert(bytes * block == (n * k) * spent) by (nonlinear_arith)
            requires
                k == block * blocks,
                bytes == n * blocks * spent,
        ;
        assert(0 <= bytes) by (nonlinear_arith)
            requires
                bytes == n * blocks * spent,
                0 <= n,
                0 <= blocks,
                0 <= spent,
        ;
    }
}

/// **Where an expert is.** With a stride the first expert stands at 0 and each
/// next one a stride further, as many as there are; with a table an expert
/// stands where its own entry says, and nowhere where the entry is the mark
/// of an expert that is not there.
pub proof fn law_where_an_expert_is(a: ProjectionAddressing, expert: int)
    requires
        0 <= expert,
    ensures
        match a {
            ProjectionAddressing::Identity { experts, stride } => {
                &&& a.address(expert) is Some <==> expert < experts
                &&& experts > 0 ==> a.address(0) == Some(0int)
                &&& expert + 1 < experts ==> a.address(expert + 1)->0 == a.address(expert)->0
                    + stride
                &&& a.top() is Some <==> experts > 0
                &&& experts > 0 ==> a.top() == a.address(experts - 1)
            },
            ProjectionAddressing::Table(t) => {
                &&& a.address(expert) is Some <==> expert < t@.len() && t@[expert] != u32::MAX
                &&& a.address(expert) matches Some(o) ==> o == t@[expert]
            },
        },
{
    if let ProjectionAddressing::Identity { experts, stride } = a {
        assert((expert + 1) * stride == expert * stride + stride) by (nonlinear_arith);
    }
}

/// **What a valid binding takes.** A bank is valid exactly where each routed
/// projection's last matrix ends inside its region, at its very end where the
/// extent is exact, where each shared projection's matrix fits its region, and
/// where every region starts at a multiple of four; gate and up are
/// `[inter, hidden]` matrices and down is `[hidden, inter]`.
pub proof fn law_what_a_valid_binding_takes(b: ExpertBankBinding, hidden: int, inter: int)
    ensures
        b.validity(hidden, inter) is Ok <==> {
            &&& projection_stands(b.gate, inter, hidden)
            &&& projection_stands(b.up, inter, hidden)
            &&& projection_stands(b.down, hidden, inter)
            &&& b.shared matches Some(s) ==> {
                &&& region_stands(s.gate, inter, hidden)
                &&& region_stands(s.up, inter, hidden)
                &&& region_stands(s.down, hidden, inter)
            }
        },
{
}

/// A region starts at a multiple of four and holds an `[n, k]` matrix.
pub open spec fn region_stands(r: EncodedRegion, n: int, k: int) -> bool {
    &&& r.region.at() % 4 == 0
    &&& r.encoding.priced(n, k) matches Ok(bytes) && bytes <= r.region.size()
}

/// A projection's region starts at a multiple of four and holds an `[n, k]`
/// matrix at the highest address, ending with it where the extent is exact.
pub open spec fn projection_stands(p: RoutedProjection, n: int, k: int) -> bool {
    &&& p.region.region.at() % 4 == 0
    &&& p.region.encoding.priced(n, k) matches Ok(bytes) && {
        let top = if p.addressing.top() is Some {
            p.addressing.top()->0
        } else {
            0
        };
        &&& top + bytes <= p.region.region.size()
        &&& p.extent is Exact ==> top + bytes == p.region.region.size()
    }
}

} // verus!

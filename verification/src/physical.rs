//! Physical regions, and composing a model from several of them.
//!
//! Execution holds a reference to a physical region; it never owns the
//! bytes. A region carries the identity of the store it came from, so a
//! caller can assert which physical thing an operand is bound to rather than
//! infer it from the numbers coming out.
//!
//! A model is composed from a candidate overlay over a source container: the
//! precision map decides which of the two answers for an operand, and an
//! operand the map compiled but the overlay lacks is refused, never served
//! from source bytes under a compiled name.
use crate::table::{lookup, names, Table};
use crate::text::{decimal, push_decimal};
use std::sync::Arc;
use vstd::prelude::*;
use vstd::string::*;

verus! {

/// The table entry meaning "this projection has no address for that expert".
pub const NOT_ADDRESSABLE: u32 = 0xffff_ffff;

/// The alignment a region's offset must have for a backend to bind it
/// without copying.
pub const WEIGHT_BINDING_ALIGN: u64 = 4;

/// A read-only memory map of a file.
#[verifier::external_type_specification]
#[verifier::external_body]
pub struct ExMmap(memmap2::Mmap);

/// The bytes of a memory map.
pub uninterp spec fn mapped_bytes(map: memmap2::Mmap) -> Seq<u8>;

/// `<memmap2::Mmap as Deref>::deref`: the mapped bytes. A `Mmap` may only be
/// made over a file that nothing modifies while it is mapped, so one map
/// always shows the same bytes.
#[verifier::external_body]
fn map_as_slice(map: &memmap2::Mmap) -> (r: &[u8])
    ensures
        r@ == mapped_bytes(*map),
{
    &map[..]
}

/// `std::sync::Arc::clone`: another handle on the same value.
#[verifier::external_body]
fn share<T>(value: &Arc<T>) -> (r: Arc<T>)
    ensures
        r == *value,
{
    Arc::clone(value)
}

enum Backing {
    Mapped(memmap2::Mmap),
    Owned(Vec<u8>),
}

impl Backing {
    spec fn content(&self) -> Seq<u8> {
        match self {
            Backing::Mapped(m) => mapped_bytes(*m),
            Backing::Owned(v) => v@,
        }
    }

    fn all(&self) -> (r: &[u8])
        ensures
            r@ == self.content(),
    {
        match self {
            Backing::Mapped(m) => map_as_slice(m),
            Backing::Owned(v) => v.as_slice(),
        }
    }
}

/// A physical store of operand bytes, named so regions can be attributed to
/// it.
pub struct PhysicalStore {
    id: String,
    backing: Backing,
    tensors: Table<String, (u64, u64)>,
    payload_start: u64,
}

impl PhysicalStore {
    /// The name regions are attributed to.
    pub closed spec fn title(&self) -> Seq<char> {
        self.id@
    }

    /// The whole backing allocation, header included.
    pub closed spec fn content(&self) -> Seq<u8> {
        self.backing.content()
    }

    /// Tensor name to offset from the payload start and length.
    pub closed spec fn directory(&self) -> Seq<(Seq<char>, (u64, u64))> {
        self.tensors.rows()
    }

    /// Where the payload starts inside the backing allocation.
    pub closed spec fn start(&self) -> int {
        self.payload_start as int
    }

    /// Whether the payload holds `len` bytes from `offset`.
    pub open spec fn has_span(&self, offset: int, len: int) -> bool {
        self.start() + offset + len <= self.content().len()
    }

    #[verifier::type_invariant]
    spec fn payload_inside(self) -> bool {
        self.payload_start <= self.backing.content().len()
    }
}

/// A bound reference to physical bytes.
pub struct WeightRegion {
    store: Arc<PhysicalStore>,
    offset: u64,
    len: u64,
}

impl WeightRegion {
    /// The store the bytes are in.
    pub closed spec fn owner(&self) -> PhysicalStore {
        *self.store
    }

    /// Where the bytes start in the store's backing allocation.
    pub closed spec fn at(&self) -> int {
        self.offset as int
    }

    /// How many bytes there are.
    pub closed spec fn size(&self) -> int {
        self.len as int
    }

    /// The bytes.
    pub open spec fn content(&self) -> Seq<u8> {
        self.owner().content().subrange(self.at(), self.at() + self.size())
    }

    /// The region and its store, as a refusal names them.
    pub open spec fn label(&self) -> Seq<char> {
        "WeightRegion("@ + self.owner().title() + " @ "@ + decimal(self.at() as nat) + "+"@
            + decimal(self.size() as nat) + ")"@
    }

    /// This is the region of `len` bytes from `offset` of `store`'s payload.
    pub open spec fn is_span(&self, store: PhysicalStore, offset: int, len: int) -> bool {
        &&& self.owner() == store
        &&& self.at() == store.start() + offset
        &&& self.size() == len
    }

    #[verifier::type_invariant]
    spec fn inside(self) -> bool {
        self.offset + self.len <= self.store.backing.content().len()
    }
}

impl PhysicalStore {
    /// A store over bytes already in memory, laid out by an explicit table.
    pub fn owned(id: String, bytes: Vec<u8>, tensors: Table<String, (u64, u64)>) -> (r: Self)
        ensures
            r.title() == id@,
            r.content() == bytes@,
            r.directory() == tensors.rows(),
            r.start() == 0,
    {
        PhysicalStore { id, backing: Backing::Owned(bytes), tensors, payload_start: 0 }
    }

    /// A store over a mapped file whose payload starts at `payload_start`.
    /// `None` where the file ends before that.
    pub fn mapped(
        id: String,
        map: memmap2::Mmap,
        tensors: Table<String, (u64, u64)>,
        payload_start: u64,
    ) -> (r: Option<Self>)
        ensures
            r is Some <==> payload_start <= mapped_bytes(map).len(),
            r matches Some(s) ==> {
                &&& s.title() == id@
                &&& s.content() == mapped_bytes(map)
                &&& s.directory() == tensors.rows()
                &&& s.start() == payload_start
            },
    {
        let backing = Backing::Mapped(map);
        if payload_start <= backing.all().len() as u64 {
            Some(PhysicalStore { id, backing, tensors, payload_start })
        } else {
            None
        }
    }

    /// The name regions are attributed to.
    pub fn id(&self) -> (r: &str)
        ensures
            r@ == self.title(),
    {
        self.id.as_str()
    }

    /// Whether the store's table names `tensor`.
    pub fn holds(&self, tensor: &str) -> (r: bool)
        ensures
            r == names(self.directory(), tensor@),
    {
        self.tensors.contains(&tensor.to_owned())
    }

    /// Bytes of payload after the header.
    pub fn payload_len(&self) -> (r: u64)
        ensures
            r == self.content().len() - self.start(),
    {
        proof {
            use_type_invariant(self);
        }
        self.backing.all().len() as u64 - self.payload_start
    }

    /// Where the payload starts inside the backing allocation.
    pub fn payload_start(&self) -> (r: u64)
        ensures
            r == self.start(),
    {
        self.payload_start
    }

    /// The whole backing allocation, header included, for registering the
    /// store with a backend. Regions stay the only view of operands.
    pub fn backing_bytes(&self) -> (r: &[u8])
        ensures
            r@ == self.content(),
    {
        self.backing.all()
    }

    /// A region over one whole tensor of this store: `None` where the store
    /// has no such tensor, or its extent runs past the backing.
    pub fn whole(self: &Arc<Self>, tensor: &str) -> (r: Option<WeightRegion>)
        ensures
            r is Some <==> (lookup(self.directory(), tensor@) matches Some(e) && self.has_span(
                e.0 as int,
                e.1 as int,
            )),
            r matches Some(w) ==> lookup(self.directory(), tensor@) matches Some(e) && w.is_span(
                **self,
                e.0 as int,
                e.1 as int,
            ),
    {
        match self.tensors.get(&tensor.to_owned()) {
            Some(e) => self.span(e.0, e.1),
            None => None,
        }
    }

    /// A region over an arbitrary span of this store's payload. A span past
    /// the end is refused rather than clamped.
    pub fn span(self: &Arc<Self>, offset: u64, len: u64) -> (r: Option<WeightRegion>)
        ensures
            r is Some <==> self.has_span(offset as int, len as int),
            r matches Some(w) ==> w.is_span(**self, offset as int, len as int),
    {
        let available: u64 = self.backing.all().len() as u64;
        if let Some(start) = self.payload_start.checked_add(offset) {
            if let Some(end) = start.checked_add(len) {
                if end <= available {
                    return Some(WeightRegion { store: share(self), offset: start, len });
                }
            }
        }
        None
    }
}

impl WeightRegion {
    /// The bytes.
    pub fn bytes(&self) -> (r: &[u8])
        ensures
            r@ == self.content(),
    {
        proof {
            use_type_invariant(self);
        }
        let all: &[u8] = self.store.backing.all();
        let available: usize = all.len();
        assert(self.offset + self.len <= available);
        vstd::slice::slice_subrange(all, self.offset as usize, (self.offset + self.len) as usize)
    }

    /// Which physical store these bytes are in.
    pub fn store_id(&self) -> (r: &str)
        ensures
            r@ == self.owner().title(),
    {
        self.store.id()
    }

    /// How many bytes there are.
    pub fn len(&self) -> (r: u64)
        ensures
            r == self.size(),
    {
        self.len
    }

    /// Whether the region holds no bytes.
    pub fn is_empty(&self) -> (r: bool)
        ensures
            r == (self.size() == 0),
    {
        self.len == 0
    }

    /// Byte offset of these bytes within their store's backing allocation:
    /// the number a zero-copy binding resolves to.
    pub fn store_offset(&self) -> (r: u64)
        ensures
            r == self.at(),
    {
        self.offset
    }

    /// Whether a backend that requires `align`-byte offsets can bind this
    /// region without copying.
    pub fn is_bindable_at(&self, align: u64) -> (r: bool)
        ensures
            r == (if align == 0 {
                self.at() == 0
            } else {
                self.at() % align as int == 0
            }),
    {
        if align == 0 {
            self.offset == 0
        } else {
            self.offset % align == 0
        }
    }

    /// The region and its store, never its bytes.
    pub fn describe(&self) -> (r: String)
        ensures
            r@ == self.label(),
    {
        let mut s: String = "WeightRegion(".to_owned();
        s.append(self.store.id());
        s.append(" @ ");
        push_decimal(&mut s, self.offset);
        s.append("+");
        push_decimal(&mut s, self.len);
        s.append(")");
        s
    }
}

impl Clone for WeightRegion {
    fn clone(&self) -> (r: Self)
        ensures
            r == *self,
    {
        proof {
            use_type_invariant(self);
        }
        WeightRegion { store: share(&self.store), offset: self.offset, len: self.len }
    }
}

/// The pages a span of memory touches.
#[derive(Debug, Clone, Copy, PartialEq, Eq)]
pub struct PageWindow {
    /// Address of the first page.
    pub first: usize,
    /// How many pages there are.
    pub pages: usize,
}

impl PageWindow {
    /// The pages of size `page` that `len` bytes from address `start` touch:
    /// from the page `start` is on, up to the page boundary at or after the
    /// end.
    pub fn over(start: usize, len: usize, page: usize) -> (r: PageWindow)
        requires
            page > 0,
            start + len <= usize::MAX,
        ensures
            r.first == page * (start as int / page as int),
            r.pages == (start + len + page - 1) / page as int - start as int / page as int,
    {
        let end: usize = start + len;
        proof {
            lemma_page_window(start as int, end as int, page as int);
        }
        let first: usize = start - start % page;
        let mut last: usize = end / page;
        if end % page != 0 {
            last = last + 1;
        }
        PageWindow { first, pages: last - start / page }
    }
}

proof fn lemma_page_window(start: int, end: int, page: int)
    by (nonlinear_arith)
    requires
        page > 0,
        0 <= start <= end,
    ensures
        0 <= start % page <= start,
        start - start % page == page * (start / page),
        0 <= start / page <= end / page <= end,
        end % page != 0 ==> end / page + 1 <= end,
        (end + page - 1) / page == (if end % page == 0 {
            end / page
        } else {
            end / page + 1
        }),
{
    let q = end / page;
    let r = end % page;
    assert(end == page * q + r && 0 <= r < page);
    assert(start == page * (start / page) + start % page);
    if r == 0 {
        assert(end + page - 1 == page * q + (page - 1));
        assert((end + page - 1) / page == q);
    } else {
        assert(end + page - 1 == page * (q + 1) + (r - 1));
        assert((end + page - 1) / page == q + 1);
    }
    if r != 0 {
        assert(q + 1 <= page * q + r);
    }
}

/// Bytes of a region that are resident: the pages whose flag has its low bit
/// set, and never more than the region holds.
pub open spec fn resident_pages(flags: Seq<u8>) -> nat
    decreases flags.len(),
{
    if flags.len() == 0 {
        0
    } else {
        resident_pages(flags.drop_last()) + (if flags.last() % 2 == 1 {
            1nat
        } else {
            0nat
        })
    }
}

/// Resident bytes of a region of `len` bytes, from one flag byte per page of
/// its window.
pub fn resident_within(flags: &[u8], page: usize, len: usize) -> (r: u64)
    requires
        flags@.len() * page <= usize::MAX,
    ensures
        r == (if resident_pages(flags@) * page <= len {
            resident_pages(flags@) * page
        } else {
            len as int
        }),
{
    let mut resident: usize = 0;
    let mut i: usize = 0;
    assert(flags@.take(0) =~= Seq::<u8>::empty());
    while i < flags.len()
        invariant
            i <= flags@.len(),
            resident == resident_pages(flags@.take(i as int)),
            resident <= i,
        decreases flags@.len() - i,
    {
        assert(flags@.take(i as int + 1).drop_last() =~= flags@.take(i as int));
        if flags[i] % 2 == 1 {
            resident = resident + 1;
        }
        i = i + 1;
    }
    assert(flags@.take(flags@.len() as int) =~= flags@);
    assert(resident * page <= flags@.len() * page) by (nonlinear_arith)
        requires
            resident <= flags@.len(),
    ;
    let bytes: usize = resident * page;
    if bytes <= len {
        bytes as u64
    } else {
        len as u64
    }
}

/// **A region is its bytes in the store**, counted from where the payload
/// starts, as many as it was asked for.
pub proof fn law_a_region_is_its_bytes(
    region: WeightRegion,
    store: PhysicalStore,
    offset: int,
    len: int,
    i: int,
)
    requires
        region.is_span(store, offset, len),
        0 <= store.start(),
        0 <= offset,
        0 <= i < len,
        store.start() + offset + len <= store.content().len(),
    ensures
        region.content().len() == len,
        region.content()[i] == store.content()[store.start() + offset + i],
{
}

/// **A store has the spans that end inside it.**
pub proof fn law_a_span_ends_inside(store: PhysicalStore, offset: int, len: int)
    ensures
        store.has_span(offset, len) <==> store.content().len() - store.start() - offset - len >= 0,
{
}

/// **A page is resident where its flag's lowest bit is set.** Each counts one,
/// and the count over two runs of flags is the sum of their counts.
pub proof fn law_resident_pages_are_counted(a: Seq<u8>, b: Seq<u8>, flag: u8)
    ensures
        resident_pages(seq![flag]) == flag % 2,
        resident_pages(a + b) == resident_pages(a) + resident_pages(b),
        resident_pages(a) <= a.len(),
    decreases a.len(), b.len(),
{
    let none = Seq::<u8>::empty();
    assert(seq![flag].drop_last() =~= none);
    assert(seq![flag].last() == flag);
    assert(resident_pages(none) == 0);
    if a.len() > 0 {
        law_resident_pages_are_counted(a.drop_last(), none, flag);
    }
    if b.len() == 0 {
        assert(a + b =~= a);
        assert(b =~= none);
    } else {
        law_resident_pages_are_counted(a, b.drop_last(), flag);
        assert((a + b).drop_last() =~= a + b.drop_last());
        assert((a + b).last() == b.last());
    }
}

} // verus!

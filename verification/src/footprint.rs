//! What a bound surface costs under one representation state.
//!
//! A table is built over every bound tensor and every encoding a search may
//! select, so that a state of that surface always has a price. A tensor its
//! layout refuses presents source bytes and needs no compiled price.
use crate::accounting::{SourceStorageFact, Stored, PHYSICAL_ACCOUNTING_PROCEDURE};
use crate::bind::{
    lemma_prices_follow_the_surface, missing_from, prices_of, BoundPhysicalAccounting,
};
use crate::canon::{short, short_of, texts};
use crate::error::VindexError;
use crate::identity::{presented, Presented, RepresentationState};
use crate::nvfp4_pack::{
    law_a_pack_holds_whole_groups, law_every_element_is_stored, packable, packed_bytes, PackLayout,
    DTYPE_NVFP4,
};
use crate::policy::Role;
use crate::realization::LogicalBytes;
use crate::resolved::{
    decided, outcome, resolution, Decided, Decision, LayoutAdmission, ResolvedDecision,
    SOURCE_PRECISION,
};
use crate::source_identity::Source;
use crate::surface::{
    ordered, path_of, surface_id, Enumerated, SurfaceTensor, TensorIdentity, TensorSurface,
};
use crate::table::{
    lemma_seen_lookup, lemma_seen_with_row, lemma_with_row_lookup, lookup, names, seen, with_row,
    Key, Table,
};
use crate::text::same;
use vstd::prelude::*;
use vstd::string::*;

verus! {

/// What a state's logical footprint is. Supplied, never derived from a map.
pub trait Footprint {
    /// Whether the state has a price.
    spec fn prices(&self, state: Presented) -> bool;

    /// The price, where the state has one.
    spec fn price(&self, state: Presented) -> u64;

    /// The price of a state that has one.
    fn logical_bytes(&self, state: &RepresentationState) -> (r: LogicalBytes)
        requires
            self.prices(state@),
        ensures
            r@ == self.price(state@),
    ;
}

/// What a tensor occupies once compiled.
pub trait CompiledBytes {
    /// The bytes stored, or `None` where the encoding has no rule here.
    spec fn stores(&self, encoding: Seq<char>, shape: Seq<usize>) -> Option<u64>;

    /// The bytes stored, or `None` where the encoding has no rule here.
    fn compiled_bytes(&self, encoding: &str, shape: &Vec<usize>) -> (r: Option<LogicalBytes>)
        ensures
            match self.stores(encoding@, shape@) {
                Some(n) => r matches Some(b) && b@ == n,
                None => r is None,
            },
    ;
}

/// The pack layouts this library derives.
#[derive(Debug, Clone, Copy, PartialEq, Eq, Structural)]
pub struct PackCompiledBytes;

impl Default for PackCompiledBytes {
    fn default() -> (r: Self)
        ensures
            r == PackCompiledBytes,
    {
        PackCompiledBytes
    }
}

impl CompiledBytes for PackCompiledBytes {
    open spec fn stores(&self, encoding: Seq<char>, shape: Seq<usize>) -> Option<u64> {
        if encoding == DTYPE_NVFP4@ && packable(shape) {
            Some(packed_bytes(shape[0] as int, shape[1] as int) as u64)
        } else {
            None
        }
    }

    fn compiled_bytes(&self, encoding: &str, shape: &Vec<usize>) -> (r: Option<LogicalBytes>) {
        if !same(encoding, DTYPE_NVFP4) {
            return None;
        }
        match PackLayout::derive(shape.as_slice(), encoding) {
            Ok(layout) => Some(LogicalBytes::new(layout.total_len as u64)),
            Err(_) => None,
        }
    }
}

/// The refusal of an unknown accounting procedure.
pub open spec fn unknown_procedure_text(procedure: Seq<char>) -> Seq<char> {
    "the record counts bytes under `"@ + procedure
        + "`, which this build does not implement — pricing its states under another procedure would compare figures nothing produced together"@
}

/// The oracle of the procedure a record names. An unknown name is refused.
pub fn compiled_bytes(procedure: &str) -> (r: Result<PackCompiledBytes, VindexError>)
    ensures
        r is Ok <==> procedure@ == PHYSICAL_ACCOUNTING_PROCEDURE@,
        r matches Err(e) ==> e.text() == unknown_procedure_text(procedure@),
{
    if same(procedure, PHYSICAL_ACCOUNTING_PROCEDURE) {
        return Ok(PackCompiledBytes);
    }
    let mut s: String = "the record counts bytes under `".to_owned();
    s.append(procedure);
    s.append(
        "`, which this build does not implement — pricing its states under another procedure would compare figures nothing produced together",
    );
    Err(VindexError::Parse(s))
}

/// Why a surface could not be priced.
#[derive(Debug, Clone, PartialEq, Eq)]
pub enum FootprintError {
    /// The layout admits the tensor and nothing prices it.
    Unpriceable { tensor: TensorIdentity, encoding: String },
    /// A state or an accounting of another surface.
    ForeignSurface { priced: String, asked: String },
}

/// Why a surface could not be priced, by its texts.
pub enum Unpriced {
    Unpriceable { tensor: (Seq<char>, Seq<char>), encoding: Seq<char> },
    ForeignSurface { priced: Seq<char>, asked: Seq<char> },
}

impl View for FootprintError {
    type V = Unpriced;

    open spec fn view(&self) -> Unpriced {
        match self {
            FootprintError::Unpriceable { tensor, encoding } => Unpriced::Unpriceable {
                tensor: tensor@,
                encoding: encoding@,
            },
            FootprintError::ForeignSurface { priced, asked } => Unpriced::ForeignSurface {
                priced: priced@,
                asked: asked@,
            },
        }
    }
}

impl Unpriced {
    /// The reason, in words.
    pub open spec fn text(self) -> Seq<char> {
        match self {
            Unpriced::Unpriceable { tensor, encoding } => "no oracle prices `"@ + path_of(tensor)
                + "` at `"@ + encoding
                + "`, and the layout admits it — a state selecting that encoding would have no footprint at all"@,
            Unpriced::ForeignSurface { priced, asked } => "this footprint prices surface "@
                + short_of(priced) + " and was asked about a state resolved against "@ + short_of(
                asked,
            ),
        }
    }
}

impl FootprintError {
    /// The reason, in words.
    pub fn describe(&self) -> (r: String)
        ensures
            r@ == self@.text(),
    {
        match self {
            FootprintError::Unpriceable { tensor, encoding } => {
                let mut s: String = "no oracle prices `".to_owned();
                s.append(tensor.path().as_str());
                s.append("` at `");
                s.append(encoding.as_str());
                s.append(
                    "`, and the layout admits it — a state selecting that encoding would have no footprint at all",
                );
                s
            },
            FootprintError::ForeignSurface { priced, asked } => {
                let mut s: String = "this footprint prices surface ".to_owned();
                s.append(short(priced.as_str()));
                s.append(" and was asked about a state resolved against ");
                s.append(short(asked.as_str()));
                s
            },
        }
    }
}

/// Every price one tensor can present.
#[derive(Debug, Clone, PartialEq, Eq)]
pub struct TensorPrices {
    source: LogicalBytes,
    compiled: Table<String, LogicalBytes>,
}

/// Every price one tensor can present, in bytes.
#[verifier::ext_equal]
pub struct Prices {
    pub source: u64,
    /// Stored bytes under each encoding the layout admits.
    pub compiled: Seq<(Seq<char>, u64)>,
}

/// How a byte count is read.
pub open spec fn as_count() -> spec_fn(LogicalBytes) -> u64 {
    |b: LogicalBytes| b@
}

/// How prices are read.
pub open spec fn as_prices() -> spec_fn(TensorPrices) -> Prices {
    |p: TensorPrices| p@
}

impl View for TensorPrices {
    type V = Prices;

    closed spec fn view(&self) -> Prices {
        Prices { source: self.source@, compiled: seen(self.compiled.rows(), as_count()) }
    }
}

/// The compiled prices under the first `n` encodings, or why one is refused.
pub open spec fn compiled_prices<L: LayoutAdmission, C: CompiledBytes>(
    tensor: Enumerated,
    layout: &L,
    compiled: &C,
    encodings: Seq<Seq<char>>,
    n: int,
) -> Result<Seq<(Seq<char>, u64)>, Unpriced>
    decreases n,
{
    if n <= 0 {
        Ok(Seq::empty())
    } else {
        match compiled_prices(tensor, layout, compiled, encodings, n - 1) {
            Err(e) => Err(e),
            Ok(rows) => {
                let encoding = encodings[n - 1];
                if !layout.takes(encoding, tensor) {
                    Ok(rows)
                } else {
                    match compiled.stores(encoding, tensor.shape) {
                        None => Err(
                            Unpriced::Unpriceable { tensor: tensor.pair(), encoding },
                        ),
                        Some(bytes) => Ok(with_row::<String, u64>(rows, encoding, bytes)),
                    }
                }
            },
        }
    }
}

/// The price rows of the first `n` tensors, or why one is refused.
pub open spec fn price_rows<L: LayoutAdmission, C: CompiledBytes>(
    surface: Seq<Enumerated>,
    source: Seq<((Seq<char>, Seq<char>), Stored)>,
    layout: &L,
    compiled: &C,
    encodings: Seq<Seq<char>>,
    n: int,
) -> Result<Seq<((Seq<char>, Seq<char>), Prices)>, Unpriced>
    decreases n,
{
    if n <= 0 {
        Ok(Seq::empty())
    } else {
        match price_rows(surface, source, layout, compiled, encodings, n - 1) {
            Err(e) => Err(e),
            Ok(rows) => match compiled_prices(
                surface[n - 1],
                layout,
                compiled,
                encodings,
                encodings.len() as int,
            ) {
                Err(e) => Err(e),
                Ok(per) => Ok(
                    with_row::<TensorIdentity, Prices>(
                        rows,
                        surface[n - 1].pair(),
                        Prices { source: source[n - 1].1.bytes, compiled: per },
                    ),
                ),
            },
        }
    }
}

/// How many of a surface's tensors a bound accounting prices.
pub open spec fn priced_tensors(
    surface: Seq<Enumerated>,
    source: Seq<((Seq<char>, Seq<char>), Stored)>,
) -> int {
    if surface.len() <= source.len() {
        surface.len() as int
    } else {
        source.len() as int
    }
}

proof fn lemma_first_encoding_refusal<L: LayoutAdmission, C: CompiledBytes>(
    tensor: Enumerated,
    layout: &L,
    compiled: &C,
    encodings: Seq<Seq<char>>,
    i: int,
    n: int,
)
    requires
        0 <= i <= n,
        compiled_prices(tensor, layout, compiled, encodings, i) is Err,
    ensures
        compiled_prices(tensor, layout, compiled, encodings, n) == compiled_prices(
            tensor,
            layout,
            compiled,
            encodings,
            i,
        ),
    decreases n,
{
    if i < n {
        lemma_first_encoding_refusal(tensor, layout, compiled, encodings, i, n - 1);
    }
}

proof fn lemma_first_price_refusal<L: LayoutAdmission, C: CompiledBytes>(
    surface: Seq<Enumerated>,
    source: Seq<((Seq<char>, Seq<char>), Stored)>,
    layout: &L,
    compiled: &C,
    encodings: Seq<Seq<char>>,
    i: int,
    n: int,
)
    requires
        0 <= i <= n,
        price_rows(surface, source, layout, compiled, encodings, i) is Err,
    ensures
        price_rows(surface, source, layout, compiled, encodings, n) == price_rows(
            surface,
            source,
            layout,
            compiled,
            encodings,
            i,
        ),
    decreases n,
{
    if i < n {
        lemma_first_price_refusal(surface, source, layout, compiled, encodings, i, n - 1);
    }
}

/// **A total price table for one bound surface.**
#[derive(Debug, Clone, PartialEq, Eq)]
pub struct SurfaceFootprint {
    surface: String,
    prices: Table<TensorIdentity, TensorPrices>,
}

/// A price table, by its texts.
#[verifier::ext_equal]
pub struct PriceTable {
    pub surface: Seq<char>,
    pub prices: Seq<((Seq<char>, Seq<char>), Prices)>,
}

impl View for SurfaceFootprint {
    type V = PriceTable;

    closed spec fn view(&self) -> PriceTable {
        PriceTable {
            surface: self.surface@,
            prices: seen(self.prices.rows(), as_prices()),
        }
    }
}

/// What a tensor's decision costs, where it has a price.
pub open spec fn decision_price(
    prices: Seq<((Seq<char>, Seq<char>), Prices)>,
    decision: Decision,
) -> Option<u64> {
    match lookup(prices, decision.pair()) {
        None => None,
        Some(p) => if decision.encoding.effective() == SOURCE_PRECISION@ {
            Some(p.source)
        } else {
            lookup(p.compiled, decision.encoding.effective())
        },
    }
}

/// Every decision has a price.
pub open spec fn covered(
    prices: Seq<((Seq<char>, Seq<char>), Prices)>,
    decisions: Seq<Decision>,
) -> bool {
    forall|i: int|
        0 <= i < decisions.len() ==> decision_price(prices, #[trigger] decisions[i]) is Some
}

/// What the decisions cost together.
pub open spec fn total_price(
    prices: Seq<((Seq<char>, Seq<char>), Prices)>,
    decisions: Seq<Decision>,
) -> nat
    decreases decisions.len(),
{
    if decisions.len() == 0 {
        0
    } else {
        total_price(prices, decisions.drop_last()) + (decision_price(
            prices,
            decisions.last(),
        )->0) as nat
    }
}

proof fn lemma_total_price_grows(
    prices: Seq<((Seq<char>, Seq<char>), Prices)>,
    decisions: Seq<Decision>,
    n: int,
)
    requires
        0 <= n <= decisions.len(),
    ensures
        total_price(prices, decisions.take(n)) <= total_price(prices, decisions),
    decreases decisions.len(),
{
    if n == decisions.len() {
        assert(decisions.take(n) =~= decisions);
    } else {
        lemma_total_price_grows(prices, decisions.drop_last(), n);
        assert(decisions.drop_last().take(n) =~= decisions.take(n));
    }
}

impl PriceTable {
    /// Whether a state has a price here: it is a state of this surface, every
    /// decision is priced, and the sum can be held.
    pub open spec fn covers(self, state: Presented) -> bool {
        state.surface == self.surface && covered(self.prices, state.decisions) && total_price(
            self.prices,
            state.decisions,
        ) <= u64::MAX
    }
}

fn price_compiled<L: LayoutAdmission, C: CompiledBytes>(
    tensor: &SurfaceTensor,
    layout: &L,
    compiled: &C,
    encodings: &Vec<String>,
) -> (r: Result<Table<String, LogicalBytes>, FootprintError>)
    ensures
        match compiled_prices(
            tensor@,
            layout,
            compiled,
            texts(encodings@),
            encodings@.len() as int,
        ) {
            Ok(rows) => r matches Ok(t) && seen(t.rows(), as_count()) == rows,
            Err(e) => r matches Err(f) && f@ == e,
        },
{
    let mut table: Table<String, LogicalBytes> = Table::new();
    let ghost names = texts(encodings@);
    let mut i: usize = 0;
    assert(seen(table.rows(), as_count()) =~= Seq::<(Seq<char>, u64)>::empty());
    while i < encodings.len()
        invariant
            i <= encodings@.len(),
            names == texts(encodings@),
            compiled_prices(tensor@, layout, compiled, names, i as int) == Ok::<
                Seq<(Seq<char>, u64)>,
                Unpriced,
            >(seen(table.rows(), as_count())),
        decreases encodings@.len() - i,
    {
        let encoding: &String = &encodings[i];
        assert(names[i as int] == encoding@);
        if layout.admits(encoding.as_str(), tensor) {
            match compiled.compiled_bytes(encoding.as_str(), &tensor.shape) {
                Some(bytes) => {
                    proof {
                        lemma_seen_with_row::<String, LogicalBytes, u64>(
                            table.rows(),
                            as_count(),
                            encoding@,
                            bytes,
                        );
                    }
                    table.insert(encoding.clone(), bytes);
                },
                None => {
                    proof {
                        lemma_first_encoding_refusal(
                            tensor@,
                            layout,
                            compiled,
                            names,
                            i as int + 1,
                            encodings@.len() as int,
                        );
                    }
                    return Err(
                        FootprintError::Unpriceable {
                            tensor: TensorIdentity::new(
                                tensor.object.as_str(),
                                tensor.tensor.as_str(),
                            ),
                            encoding: encoding.clone(),
                        },
                    );
                },
            }
        }
        i = i + 1;
    }
    Ok(table)
}

impl SurfaceFootprint {
    /// Price every bound tensor at source and at every encoding a search may
    /// select, or refuse at the first pair nothing prices.
    pub fn new<L: LayoutAdmission, C: CompiledBytes>(
        bound: &BoundPhysicalAccounting,
        surface: &TensorSurface,
        layout: &L,
        compiled: &C,
        encodings: &Vec<String>,
    ) -> (r: Result<SurfaceFootprint, FootprintError>)
        ensures
            ({
                let n = priced_tensors(surface@, bound@.priced);
                if surface_id(surface@) != bound@.surface {
                    r matches Err(e) && e@ == (Unpriced::ForeignSurface {
                        priced: bound@.surface,
                        asked: surface_id(surface@),
                    })
                } else {
                    match price_rows(
                        surface@,
                        bound@.priced,
                        layout,
                        compiled,
                        texts(encodings@),
                        n,
                    ) {
                        Ok(rows) => r matches Ok(f) && f@ == (PriceTable {
                            surface: surface_id(surface@),
                            prices: rows,
                        }),
                        Err(e) => r matches Err(f) && f@ == e,
                    }
                }
            }),
    {
        let pairs: Vec<(&SurfaceTensor, &SourceStorageFact)> = match bound.prices_for(surface) {
            Ok(v) => v,
            Err(_) => {
                return Err(
                    FootprintError::ForeignSurface {
                        priced: bound.surface_identity().to_owned(),
                        asked: surface.identity(),
                    },
                );
            },
        };
        let ghost names = texts(encodings@);
        let mut prices: Table<TensorIdentity, TensorPrices> = Table::new();
        let mut i: usize = 0;
        assert(seen(prices.rows(), as_prices()) =~= Seq::<
            ((Seq<char>, Seq<char>), Prices),
        >::empty());
        while i < pairs.len()
            invariant
                i <= pairs@.len(),
                names == texts(encodings@),
                surface_id(surface@) == bound@.surface,
                pairs@.len() == priced_tensors(surface@, bound@.priced),
                forall|k: int|
                    0 <= k < pairs@.len() ==> (#[trigger] pairs@[k]).0@ == surface@[k]
                        && pairs@[k].1@ == bound@.priced[k].1,
                price_rows(surface@, bound@.priced, layout, compiled, names, i as int) == Ok::<
                    Seq<((Seq<char>, Seq<char>), Prices)>,
                    Unpriced,
                >(seen(prices.rows(), as_prices())),
            decreases pairs@.len() - i,
        {
            let tensor: &SurfaceTensor = pairs[i].0;
            let fact: &SourceStorageFact = pairs[i].1;
            assert(pairs@[i as int].0@ == surface@[i as int]);
            let per: Table<String, LogicalBytes> = match price_compiled(
                tensor,
                layout,
                compiled,
                encodings,
            ) {
                Ok(t) => t,
                Err(e) => {
                    proof {
                        lemma_first_price_refusal(
                            surface@,
                            bound@.priced,
                            layout,
                            compiled,
                            names,
                            i as int + 1,
                            pairs@.len() as int,
                        );
                    }
                    return Err(e);
                },
            };
            let id = TensorIdentity::new(tensor.object.as_str(), tensor.tensor.as_str());
            let row = TensorPrices { source: fact.logical_bytes, compiled: per };
            proof {
                lemma_seen_with_row::<TensorIdentity, TensorPrices, Prices>(
                    prices.rows(),
                    as_prices(),
                    id@,
                    row,
                );
            }
            prices.insert(id, row);
            i = i + 1;
        }
        Ok(SurfaceFootprint { surface: surface.identity(), prices })
    }

    /// The surface this table prices.
    pub fn surface_identity(&self) -> (r: &str)
        ensures
            r@ == self@.surface,
    {
        self.surface.as_str()
    }

    fn price_of(&self, decision: &ResolvedDecision) -> (r: Option<u64>)
        ensures
            r == decision_price(self@.prices, decision@),
    {
        let id = TensorIdentity::new(decision.object.as_str(), decision.tensor.as_str());
        proof {
            lemma_seen_lookup(self.prices.rows(), as_prices(), id@);
        }
        match self.prices.get(&id) {
            None => None,
            Some(prices) => {
                let effective: &str = decision.encoding.effective();
                if same(effective, SOURCE_PRECISION) {
                    Some(prices.source.get())
                } else {
                    proof {
                        lemma_seen_lookup(prices.compiled.rows(), as_count(), effective@);
                    }
                    match prices.compiled.get(&effective.to_owned()) {
                        Some(b) => Some(b.get()),
                        None => None,
                    }
                }
            },
        }
    }

    /// Whether a state has a price here.
    pub fn covers(&self, state: &RepresentationState) -> (r: bool)
        ensures
            r == self@.covers(state@),
    {
        if !same(state.surface_identity(), self.surface.as_str()) {
            return false;
        }
        let decisions: &Vec<ResolvedDecision> = state.decisions().decisions();
        let ghost all = state@.decisions;
        let ghost prices = self@.prices;
        let mut total: u64 = 0;
        let mut i: usize = 0;
        assert(all.take(0) =~= Seq::<Decision>::empty());
        while i < decisions.len()
            invariant
                i <= decisions@.len(),
                decided(decisions@) == all,
                all == state@.decisions,
                prices == self@.prices,
                forall|k: int| 0 <= k < i ==> decision_price(prices, #[trigger] all[k]) is Some,
                total == total_price(prices, all.take(i as int)),
            decreases decisions@.len() - i,
        {
            let ghost next = all.take(i as int + 1);
            proof {
                assert(all[i as int] == decisions@[i as int]@);
                assert(next.drop_last() =~= all.take(i as int));
                assert(next.last() == all[i as int]);
            }
            match self.price_of(&decisions[i]) {
                None => {
                    assert(decision_price(prices, all[i as int]) is None);
                    return false;
                },
                Some(bytes) => match total.checked_add(bytes) {
                    Some(sum) => {
                        total = sum;
                    },
                    None => {
                        proof {
                            lemma_total_price_grows(prices, all, i as int + 1);
                        }
                        return false;
                    },
                },
            }
            i = i + 1;
        }
        assert(all.take(all.len() as int) =~= all);
        true
    }

    /// **What a state's tensors present, together.** A state of another
    /// surface is refused.
    pub fn try_logical_bytes(&self, state: &RepresentationState) -> (r: Result<
        LogicalBytes,
        FootprintError,
    >)
        requires
            state@.surface == self@.surface ==> self@.covers(state@),
        ensures
            if state@.surface == self@.surface {
                r matches Ok(b) && b@ == total_price(self@.prices, state@.decisions)
            } else {
                r matches Err(e) && e@ == (Unpriced::ForeignSurface {
                    priced: self@.surface,
                    asked: state@.surface,
                })
            },
    {
        if !same(state.surface_identity(), self.surface.as_str()) {
            return Err(
                FootprintError::ForeignSurface {
                    priced: self.surface.clone(),
                    asked: state.surface_identity().to_owned(),
                },
            );
        }
        let decisions: &Vec<ResolvedDecision> = state.decisions().decisions();
        let ghost all = state@.decisions;
        let ghost prices = self@.prices;
        let mut total: u64 = 0;
        let mut i: usize = 0;
        assert(all.take(0) =~= Seq::<Decision>::empty());
        while i < decisions.len()
            invariant
                i <= decisions@.len(),
                decided(decisions@) == all,
                prices == self@.prices,
                covered(prices, all),
                total_price(prices, all) <= u64::MAX,
                total == total_price(prices, all.take(i as int)),
            decreases decisions@.len() - i,
        {
            let ghost next = all.take(i as int + 1);
            proof {
                assert(all[i as int] == decisions@[i as int]@);
                assert(next.drop_last() =~= all.take(i as int));
                assert(next.last() == all[i as int]);
                lemma_total_price_grows(prices, all, i as int + 1);
            }
            match self.price_of(&decisions[i]) {
                Some(bytes) => {
                    total = total + bytes;
                },
                None => {
                    assert(decision_price(prices, all[i as int]) is Some);
                },
            }
            i = i + 1;
        }
        assert(all.take(all.len() as int) =~= all);
        Ok(LogicalBytes::new(total))
    }
}

impl Footprint for SurfaceFootprint {
    open spec fn prices(&self, state: Presented) -> bool {
        self@.covers(state)
    }

    open spec fn price(&self, state: Presented) -> u64 {
        total_price(self@.prices, state.decisions) as u64
    }

    fn logical_bytes(&self, state: &RepresentationState) -> (r: LogicalBytes) {
        match self.try_logical_bytes(state) {
            Ok(b) => b,
            Err(_) => LogicalBytes::new(0),
        }
    }
}

proof fn lemma_compiled_prices_hold<L: LayoutAdmission, C: CompiledBytes>(
    tensor: Enumerated,
    layout: &L,
    compiled: &C,
    encodings: Seq<Seq<char>>,
    n: int,
    k: int,
)
    requires
        0 <= k < n <= encodings.len(),
        compiled_prices(tensor, layout, compiled, encodings, n) is Ok,
        layout.takes(encodings[k], tensor),
    ensures
        compiled.stores(encodings[k], tensor.shape) is Some,
        lookup(compiled_prices(tensor, layout, compiled, encodings, n)->Ok_0, encodings[k])
            == compiled.stores(encodings[k], tensor.shape),
    decreases n,
{
    let rows = compiled_prices(tensor, layout, compiled, encodings, n - 1)->Ok_0;
    if k < n - 1 {
        lemma_compiled_prices_hold(tensor, layout, compiled, encodings, n - 1, k);
    }
    if layout.takes(encodings[n - 1], tensor) {
        let bytes = compiled.stores(encodings[n - 1], tensor.shape)->0;
        lemma_with_row_lookup::<String, u64>(rows, encodings[n - 1], bytes, encodings[k]);
    }
}

proof fn lemma_price_rows_hold<L: LayoutAdmission, C: CompiledBytes>(
    surface: Seq<Enumerated>,
    source: Seq<((Seq<char>, Seq<char>), Stored)>,
    layout: &L,
    compiled: &C,
    encodings: Seq<Seq<char>>,
    n: int,
    k: int,
)
    requires
        ordered(surface),
        0 <= k < n <= surface.len(),
        price_rows(surface, source, layout, compiled, encodings, n) is Ok,
    ensures
        compiled_prices(surface[k], layout, compiled, encodings, encodings.len() as int) is Ok,
        lookup(
            price_rows(surface, source, layout, compiled, encodings, n)->Ok_0,
            surface[k].pair(),
        ) == Some(
            Prices {
                source: source[k].1.bytes,
                compiled: compiled_prices(
                    surface[k],
                    layout,
                    compiled,
                    encodings,
                    encodings.len() as int,
                )->Ok_0,
            },
        ),
    decreases n,
{
    let rows = price_rows(surface, source, layout, compiled, encodings, n - 1)->Ok_0;
    let per = compiled_prices(
        surface[n - 1],
        layout,
        compiled,
        encodings,
        encodings.len() as int,
    )->Ok_0;
    let value = Prices { source: source[n - 1].1.bytes, compiled: per };
    lemma_with_row_lookup::<TensorIdentity, Prices>(
        rows,
        surface[n - 1].pair(),
        value,
        surface[k].pair(),
    );
    if k < n - 1 {
        lemma_price_rows_hold(surface, source, layout, compiled, encodings, n - 1, k);
        assert(crate::surface::pair_before(surface[k].pair(), surface[n - 1].pair()));
        TensorIdentity::strict(surface[k].pair(), surface[n - 1].pair());
    }
}

/// **A price table is total over its surface.** Whatever rule a search
/// resolves over the surface, as long as it wants only encodings the table was
/// built for, every decision it makes has a price: the layout that prices and
/// the layout that resolves are one.
pub proof fn law_a_price_table_is_total<L: LayoutAdmission, C: CompiledBytes>(
    surface: Seq<Enumerated>,
    source: Seq<((Seq<char>, Seq<char>), Stored)>,
    layout: &L,
    compiled: &C,
    encodings: Seq<Seq<char>>,
    rule: spec_fn(Role, Seq<char>) -> Option<Seq<char>>,
)
    requires
        ordered(surface),
        source.len() == surface.len(),
        price_rows(surface, source, layout, compiled, encodings, surface.len() as int) is Ok,
        forall|role: Role, tensor: Seq<char>|
            (#[trigger] rule(role, tensor)) matches Some(e) ==> encodings.contains(e),
    ensures
        covered(
            price_rows(
                surface,
                source,
                layout,
                compiled,
                encodings,
                surface.len() as int,
            )->Ok_0,
            resolution(rule, surface, layout),
        ),
{
    let rows = price_rows(
        surface,
        source,
        layout,
        compiled,
        encodings,
        surface.len() as int,
    )->Ok_0;
    let decisions = resolution(rule, surface, layout);
    assert forall|i: int| 0 <= i < decisions.len() implies decision_price(
        rows,
        #[trigger] decisions[i],
    ) is Some by {
        let t = surface[i];
        lemma_price_rows_hold(
            surface,
            source,
            layout,
            compiled,
            encodings,
            surface.len() as int,
            i,
        );
        assert(decisions[i].pair() == t.pair());
        assert(decisions[i].encoding == outcome(layout, rule(t.role, t.tensor), t));
        if let Decided::Compiled(e) = decisions[i].encoding {
            assert(rule(t.role, t.tensor) == Some(e));
            assert(encodings.contains(e));
            let k = encodings.index_of(e);
            lemma_compiled_prices_hold(
                t,
                layout,
                compiled,
                encodings,
                encodings.len() as int,
                k,
            );
        }
    }
}

/// What the first `n` tensors of a surface present under these decisions: the
/// bytes the container stores where a tensor presents source precision, held
/// back by its map or by its layout alike, and the bytes its encoding stores
/// otherwise.
pub open spec fn presented_bytes<C: CompiledBytes>(
    surface: Seq<Enumerated>,
    storage: Seq<((Seq<char>, Seq<char>), Stored)>,
    compiled: &C,
    decisions: Seq<Decision>,
    n: int,
) -> nat
    decreases n,
{
    if n <= 0 {
        0
    } else {
        let t = surface[n - 1];
        let effective = decisions[n - 1].encoding.effective();
        presented_bytes(surface, storage, compiled, decisions, n - 1) + (if effective
            == SOURCE_PRECISION@ {
            (lookup(storage, t.pair())->0).bytes as nat
        } else {
            (compiled.stores(effective, t.shape)->0) as nat
        })
    }
}

proof fn lemma_price_is_what_is_presented<L: LayoutAdmission, C: CompiledBytes>(
    surface: Seq<Enumerated>,
    storage: Seq<((Seq<char>, Seq<char>), Stored)>,
    layout: &L,
    compiled: &C,
    encodings: Seq<Seq<char>>,
    rule: spec_fn(Role, Seq<char>) -> Option<Seq<char>>,
    n: int,
)
    requires
        ordered(surface),
        missing_from(surface, storage).len() == 0,
        price_rows(
            surface,
            prices_of(surface, storage),
            layout,
            compiled,
            encodings,
            surface.len() as int,
        ) is Ok,
        forall|role: Role, tensor: Seq<char>|
            (#[trigger] rule(role, tensor)) matches Some(e) ==> encodings.contains(e),
        0 <= n <= surface.len(),
    ensures
        total_price(
            price_rows(
                surface,
                prices_of(surface, storage),
                layout,
                compiled,
                encodings,
                surface.len() as int,
            )->Ok_0,
            resolution(rule, surface, layout).take(n),
        ) == presented_bytes(surface, storage, compiled, resolution(rule, surface, layout), n),
    decreases n,
{
    let source = prices_of(surface, storage);
    let rows = price_rows(
        surface,
        source,
        layout,
        compiled,
        encodings,
        surface.len() as int,
    )->Ok_0;
    let decisions = resolution(rule, surface, layout);
    if n == 0 {
        assert(decisions.take(0) =~= Seq::<Decision>::empty());
    } else {
        let i = n - 1;
        let t = surface[i];
        lemma_price_is_what_is_presented(
            surface,
            storage,
            layout,
            compiled,
            encodings,
            rule,
            i,
        );
        assert(decisions.take(n).drop_last() =~= decisions.take(i));
        assert(decisions.take(n).last() == decisions[i]);
        lemma_prices_follow_the_surface(surface, storage);
        lemma_price_rows_hold(
            surface,
            source,
            layout,
            compiled,
            encodings,
            surface.len() as int,
            i,
        );
        assert(decisions[i].pair() == t.pair());
        assert(lookup(storage, surface[i].pair()) == Some(source[i].1));
        if let Decided::Compiled(e) = decisions[i].encoding {
            assert(rule(t.role, t.tensor) == Some(e));
            let k = encodings.index_of(e);
            lemma_compiled_prices_hold(
                t,
                layout,
                compiled,
                encodings,
                encodings.len() as int,
                k,
            );
        }
    }
}

/// **A footprint prices its surface.** A table built over a bound surface
/// prices every state that a rule resolves there, as long as the rule wants
/// only encodings the table was built for: the price is what the tensors
/// present together, and the table covers the state exactly where that sum
/// can be held.
pub proof fn law_a_footprint_prices_its_surface<L: LayoutAdmission, C: CompiledBytes>(
    surface: Seq<Enumerated>,
    storage: Seq<((Seq<char>, Seq<char>), Stored)>,
    layout: &L,
    compiled: &C,
    encodings: Seq<Seq<char>>,
    table: PriceTable,
    model: Source,
    rule: spec_fn(Role, Seq<char>) -> Option<Seq<char>>,
)
    requires
        ordered(surface),
        missing_from(surface, storage).len() == 0,
        table.surface == surface_id(surface),
        price_rows(
            surface,
            prices_of(surface, storage),
            layout,
            compiled,
            encodings,
            priced_tensors(surface, prices_of(surface, storage)),
        ) == Ok::<Seq<((Seq<char>, Seq<char>), Prices)>, Unpriced>(table.prices),
        forall|role: Role, tensor: Seq<char>|
            (#[trigger] rule(role, tensor)) matches Some(e) ==> encodings.contains(e),
    ensures
        ({
            let state = presented(model, surface, resolution(rule, surface, layout));
            let bytes = presented_bytes(
                surface,
                storage,
                compiled,
                state.decisions,
                surface.len() as int,
            );
            &&& covered(table.prices, state.decisions)
            &&& total_price(table.prices, state.decisions) == bytes
            &&& table.covers(state) <==> bytes <= u64::MAX
        }),
{
    let source = prices_of(surface, storage);
    let decisions = resolution(rule, surface, layout);
    lemma_prices_follow_the_surface(surface, storage);
    law_a_price_table_is_total(surface, source, layout, compiled, encodings, rule);
    lemma_price_is_what_is_presented(
        surface,
        storage,
        layout,
        compiled,
        encodings,
        rule,
        surface.len() as int,
    );
    assert(decisions.take(decisions.len() as int) =~= decisions);
}

/// The most a tensor can cost at source or under one of the first `n`
/// encodings, where each the layout admits has a price.
pub open spec fn dearest<L: LayoutAdmission>(
    prices: Seq<((Seq<char>, Seq<char>), Prices)>,
    tensor: Enumerated,
    layout: &L,
    encodings: Seq<Seq<char>>,
    n: int,
) -> Option<u64>
    decreases n,
{
    match lookup(prices, tensor.pair()) {
        None => None,
        Some(p) => if n <= 0 {
            Some(p.source)
        } else {
            let e = encodings[n - 1];
            match dearest(prices, tensor, layout, encodings, n - 1) {
                None => None,
                Some(most) => if e == SOURCE_PRECISION@ || !layout.takes(e, tensor) {
                    Some(most)
                } else {
                    match lookup(p.compiled, e) {
                        None => None,
                        Some(b) => Some(
                            if b > most {
                                b
                            } else {
                                most
                            },
                        ),
                    }
                },
            }
        },
    }
}

/// The most the first `n` tensors of a surface can cost together, where every
/// one has every price a search may ask of it.
pub open spec fn ceiling<L: LayoutAdmission>(
    prices: Seq<((Seq<char>, Seq<char>), Prices)>,
    surface: Seq<Enumerated>,
    layout: &L,
    encodings: Seq<Seq<char>>,
    n: int,
) -> Option<nat>
    decreases n,
{
    if n <= 0 {
        Some(0)
    } else {
        match (
            ceiling(prices, surface, layout, encodings, n - 1),
            dearest(prices, surface[n - 1], layout, encodings, encodings.len() as int),
        ) {
            (Some(sum), Some(most)) => Some(sum + most as nat),
            _ => None,
        }
    }
}

proof fn lemma_dearest<L: LayoutAdmission>(
    prices: Seq<((Seq<char>, Seq<char>), Prices)>,
    tensor: Enumerated,
    layout: &L,
    encodings: Seq<Seq<char>>,
    n: int,
    k: int,
)
    requires
        0 <= n <= encodings.len(),
        dearest(prices, tensor, layout, encodings, n) is Some,
    ensures
        lookup(prices, tensor.pair()) is Some,
        (lookup(prices, tensor.pair())->0).source <= dearest(
            prices,
            tensor,
            layout,
            encodings,
            n,
        )->0,
        0 <= k < n && encodings[k] != SOURCE_PRECISION@ && layout.takes(encodings[k], tensor) ==> {
            &&& lookup((lookup(prices, tensor.pair())->0).compiled, encodings[k]) is Some
            &&& lookup((lookup(prices, tensor.pair())->0).compiled, encodings[k])->0 <= dearest(
                prices,
                tensor,
                layout,
                encodings,
                n,
            )->0
        },
    decreases n,
{
    if n > 0 {
        lemma_dearest(prices, tensor, layout, encodings, n - 1, k);
    }
}

proof fn lemma_no_ceiling<L: LayoutAdmission>(
    prices: Seq<((Seq<char>, Seq<char>), Prices)>,
    surface: Seq<Enumerated>,
    layout: &L,
    encodings: Seq<Seq<char>>,
    i: int,
    n: int,
)
    requires
        0 <= i <= n,
        ceiling(prices, surface, layout, encodings, i) is None,
    ensures
        ceiling(prices, surface, layout, encodings, n) is None,
    decreases n,
{
    if i < n {
        lemma_no_ceiling(prices, surface, layout, encodings, i, n - 1);
    }
}

proof fn lemma_no_dearest<L: LayoutAdmission>(
    prices: Seq<((Seq<char>, Seq<char>), Prices)>,
    tensor: Enumerated,
    layout: &L,
    encodings: Seq<Seq<char>>,
    i: int,
    n: int,
)
    requires
        0 <= i <= n,
        dearest(prices, tensor, layout, encodings, i) is None,
    ensures
        dearest(prices, tensor, layout, encodings, n) is None,
    decreases n,
{
    if i < n {
        lemma_no_dearest(prices, tensor, layout, encodings, i, n - 1);
    }
}

/// **No state costs more than the ceiling.** Where a surface has a ceiling
/// under some encodings, every decision a rule that wants only those makes
/// there has a price, and together they cost no more than the ceiling.
pub proof fn law_no_state_passes_the_ceiling<L: LayoutAdmission>(
    prices: Seq<((Seq<char>, Seq<char>), Prices)>,
    surface: Seq<Enumerated>,
    layout: &L,
    encodings: Seq<Seq<char>>,
    rule: spec_fn(Role, Seq<char>) -> Option<Seq<char>>,
    n: int,
)
    requires
        0 <= n <= surface.len(),
        ceiling(prices, surface, layout, encodings, n) is Some,
        forall|role: Role, tensor: Seq<char>|
            (#[trigger] rule(role, tensor)) matches Some(e) ==> encodings.contains(e),
    ensures
        covered(prices, resolution(rule, surface, layout).take(n)),
        total_price(prices, resolution(rule, surface, layout).take(n)) <= ceiling(
            prices,
            surface,
            layout,
            encodings,
            n,
        )->0,
    decreases n,
{
    let decisions = resolution(rule, surface, layout);
    let now = decisions.take(n);
    if n == 0 {
        assert(now =~= Seq::<Decision>::empty());
    } else {
        let i = n - 1;
        let t = surface[i];
        law_no_state_passes_the_ceiling(prices, surface, layout, encodings, rule, i);
        let before = decisions.take(i);
        assert(now.drop_last() =~= before);
        assert(now.last() == decisions[i]);
        let wanted = rule(t.role, t.tensor);
        let k = if wanted is Some {
            encodings.index_of(wanted->0)
        } else {
            0
        };
        if wanted is Some {
            assert(encodings.contains(wanted->0));
        }
        lemma_dearest(prices, t, layout, encodings, encodings.len() as int, k);
        assert(decisions[i].pair() == t.pair());
        assert(decision_price(prices, decisions[i]) is Some);
        assert forall|j: int| 0 <= j < now.len() implies decision_price(
            prices,
            #[trigger] now[j],
        ) is Some by {
            if j < i {
                assert(now[j] == before[j]);
            }
        }
    }
}

impl SurfaceFootprint {
    fn dearest_price<L: LayoutAdmission>(
        &self,
        tensor: &SurfaceTensor,
        layout: &L,
        encodings: &Vec<String>,
    ) -> (r: Option<u64>)
        ensures
            r == dearest(
                self@.prices,
                tensor@,
                layout,
                texts(encodings@),
                encodings@.len() as int,
            ),
    {
        let ghost names = texts(encodings@);
        let id = TensorIdentity::new(tensor.object.as_str(), tensor.tensor.as_str());
        proof {
            lemma_seen_lookup(self.prices.rows(), as_prices(), id@);
        }
        let held: &TensorPrices = match self.prices.get(&id) {
            None => {
                return None;
            },
            Some(held) => held,
        };
        let mut most: u64 = held.source.get();
        let mut i: usize = 0;
        while i < encodings.len()
            invariant
                i <= encodings@.len(),
                names == texts(encodings@),
                lookup(self@.prices, tensor@.pair()) == Some(held@),
                dearest(self@.prices, tensor@, layout, names, i as int) == Some(most),
            decreases encodings@.len() - i,
        {
            let encoding: &String = &encodings[i];
            assert(names[i as int] == encoding@);
            if !same(encoding.as_str(), SOURCE_PRECISION) && layout.admits(
                encoding.as_str(),
                tensor,
            ) {
                proof {
                    lemma_seen_lookup(held.compiled.rows(), as_count(), encoding@);
                }
                match held.compiled.get(encoding) {
                    Some(b) => {
                        if b.get() > most {
                            most = b.get();
                        }
                    },
                    None => {
                        proof {
                            lemma_no_dearest(
                                self@.prices,
                                tensor@,
                                layout,
                                names,
                                i as int + 1,
                                encodings@.len() as int,
                            );
                        }
                        return None;
                    },
                }
            }
            i = i + 1;
        }
        Some(most)
    }

    /// The most a state of `surface` can cost under `encodings`, or `None`
    /// where some tensor lacks a price one of them may ask for.
    pub fn ceiling<L: LayoutAdmission>(
        &self,
        surface: &TensorSurface,
        layout: &L,
        encodings: &Vec<String>,
    ) -> (r: Option<u128>)
        ensures
            match ceiling(
                self@.prices,
                surface@,
                layout,
                texts(encodings@),
                surface@.len() as int,
            ) {
                Some(n) => r matches Some(m) && m == n,
                None => r is None,
            },
    {
        let entries: &Vec<SurfaceTensor> = surface.entries();
        let ghost names = texts(encodings@);
        let mut total: u128 = 0;
        let mut i: usize = 0;
        while i < entries.len()
            invariant
                i <= entries@.len(),
                names == texts(encodings@),
                crate::surface::stated(entries@) == surface@,
                ceiling(self@.prices, surface@, layout, names, i as int) == Some(total as nat),
                total <= i * u64::MAX,
            decreases entries@.len() - i,
        {
            assert(surface@[i as int] == entries@[i as int]@);
            match self.dearest_price(&entries[i], layout, encodings) {
                Some(most) => {
                    total = total + most as u128;
                },
                None => {
                    proof {
                        lemma_no_ceiling(
                            self@.prices,
                            surface@,
                            layout,
                            names,
                            i as int + 1,
                            surface@.len() as int,
                        );
                    }
                    return None;
                },
            }
            i = i + 1;
        }
        Some(total)
    }
}

/// A built row has every price the encodings ask for.
proof fn lemma_built_row_is_dear<L: LayoutAdmission, C: CompiledBytes>(
    surface: Seq<Enumerated>,
    source: Seq<((Seq<char>, Seq<char>), Stored)>,
    layout: &L,
    compiled: &C,
    encodings: Seq<Seq<char>>,
    asked: Seq<Seq<char>>,
    i: int,
    n: int,
)
    requires
        ordered(surface),
        price_rows(surface, source, layout, compiled, encodings, surface.len() as int) is Ok,
        forall|k: int| 0 <= k < asked.len() ==> encodings.contains(#[trigger] asked[k]),
        0 <= i < surface.len(),
        0 <= n <= asked.len(),
    ensures
        dearest(
            price_rows(
                surface,
                source,
                layout,
                compiled,
                encodings,
                surface.len() as int,
            )->Ok_0,
            surface[i],
            layout,
            asked,
            n,
        ) is Some,
    decreases n,
{
    let t = surface[i];
    lemma_price_rows_hold(surface, source, layout, compiled, encodings, surface.len() as int, i);
    if n > 0 {
        lemma_built_row_is_dear(
            surface,
            source,
            layout,
            compiled,
            encodings,
            asked,
            i,
            n - 1,
        );
        let e = asked[n - 1];
        assert(encodings.contains(e));
        if layout.takes(e, t) {
            lemma_compiled_prices_hold(
                t,
                layout,
                compiled,
                encodings,
                encodings.len() as int,
                encodings.index_of(e),
            );
        }
    }
}

/// **A built table has a ceiling.** A table built over a bound surface for
/// some encodings has every price a search that selects only those may ask
/// for.
pub proof fn law_a_built_table_has_a_ceiling<L: LayoutAdmission, C: CompiledBytes>(
    surface: Seq<Enumerated>,
    source: Seq<((Seq<char>, Seq<char>), Stored)>,
    layout: &L,
    compiled: &C,
    encodings: Seq<Seq<char>>,
    asked: Seq<Seq<char>>,
    n: int,
)
    requires
        ordered(surface),
        source.len() == surface.len(),
        price_rows(surface, source, layout, compiled, encodings, surface.len() as int) is Ok,
        forall|k: int| 0 <= k < asked.len() ==> encodings.contains(#[trigger] asked[k]),
        0 <= n <= surface.len(),
    ensures
        ceiling(
            price_rows(
                surface,
                source,
                layout,
                compiled,
                encodings,
                surface.len() as int,
            )->Ok_0,
            surface,
            layout,
            asked,
            n,
        ) is Some,
    decreases n,
{
    if n > 0 {
        law_a_built_table_has_a_ceiling(
            surface,
            source,
            layout,
            compiled,
            encodings,
            asked,
            n - 1,
        );
        lemma_built_row_is_dear(
            surface,
            source,
            layout,
            compiled,
            encodings,
            asked,
            n - 1,
            asked.len() as int,
        );
    }
}

/// **What a tensor adds to a footprint.** In a table built over a bound
/// surface, a tensor held back or refused costs what the source stores for
/// it, and a compiled one what the oracle says its shape stores under its
/// encoding.
pub proof fn law_what_a_tensor_adds<L: LayoutAdmission, C: CompiledBytes>(
    surface: Seq<Enumerated>,
    storage: Seq<((Seq<char>, Seq<char>), Stored)>,
    layout: &L,
    compiled: &C,
    encodings: Seq<Seq<char>>,
    i: int,
    e: Seq<char>,
)
    requires
        ordered(surface),
        missing_from(surface, storage).len() == 0,
        price_rows(
            surface,
            prices_of(surface, storage),
            layout,
            compiled,
            encodings,
            surface.len() as int,
        ) is Ok,
        0 <= i < surface.len(),
    ensures
        ({
            let t = surface[i];
            let prices = price_rows(
                surface,
                prices_of(surface, storage),
                layout,
                compiled,
                encodings,
                surface.len() as int,
            )->Ok_0;
            let at = |encoding: Decided|
                decision_price(prices, Decision { object: t.object, tensor: t.tensor, encoding });
            &&& lookup(storage, (t.object, t.tensor)) is Some
            &&& at(Decided::Source) == Some(lookup(storage, (t.object, t.tensor))->0.bytes)
            &&& at(Decided::LayoutRefused(e)) == at(Decided::Source)
            &&& encodings.contains(e) && e != "source"@ && layout.takes(e, t) ==> at(
                Decided::Compiled(e),
            ) == compiled.stores(e, t.shape) && compiled.stores(e, t.shape) is Some
        }),
{
    let t = surface[i];
    let source = prices_of(surface, storage);
    lemma_prices_follow_the_surface(surface, storage);
    lemma_price_rows_hold(surface, source, layout, compiled, encodings, surface.len() as int, i);
    assert(lookup(storage, surface[i].pair()) == Some(source[i].1));
    if encodings.contains(e) && e != "source"@ && layout.takes(e, t) {
        let k = encodings.index_of(e);
        lemma_compiled_prices_hold(t, layout, compiled, encodings, encodings.len() as int, k);
    }
}

/// **A footprint is the sum of its decisions**: nothing costs nothing, and
/// every decision adds its own price, whatever stands before or behind it.
pub proof fn law_a_footprint_is_a_sum(
    prices: Seq<((Seq<char>, Seq<char>), Prices)>,
    a: Seq<Decision>,
    b: Seq<Decision>,
    d: Decision,
)
    requires
        decision_price(prices, d) is Some,
    ensures
        total_price(prices, Seq::empty()) == 0,
        total_price(prices, seq![d]) == decision_price(prices, d)->0,
        total_price(prices, a + b) == total_price(prices, a) + total_price(prices, b),
    decreases b.len(),
{
    assert(seq![d].drop_last() =~= Seq::<Decision>::empty());
    assert(total_price(prices, Seq::<Decision>::empty()) == 0);
    assert(seq![d].last() == d);
    assert(total_price(prices, seq![d]) == total_price(prices, seq![d].drop_last()) + decision_price(
        prices,
        d,
    )->0);
    if b.len() == 0 {
        assert(a + b =~= a);
    } else {
        law_a_footprint_is_a_sum(prices, a, b.drop_last(), d);
        assert((a + b).drop_last() =~= a + b.drop_last());
    }
}

/// **What a pack stores is what a compiled tensor costs**: of an NVFP4 matrix
/// of whole groups nine bytes for every sixteen elements and four for the
/// tensor; of anything else no pack says a price.
pub proof fn law_a_compiled_tensor_costs_its_pack(encoding: Seq<char>, shape: Seq<usize>)
    ensures
        PackCompiledBytes.stores(encoding, shape) matches Some(b) ==> encoding == "NVFP4"@
            && shape.len() == 2 && shape[1] % 16 == 0 && 16 * (b - 4) == 9 * (shape[0] * shape[1]),
        shape.len() == 2 && shape[1] % 16 == 0 && 9 * (shape[0] * shape[1]) + 64 <= 16 * usize::MAX
            ==> PackCompiledBytes.stores("NVFP4"@, shape) is Some,
{
    law_a_pack_holds_whole_groups(shape);
    if shape.len() == 2 && shape[1] % 16 == 0 {
        law_every_element_is_stored(shape[0] as int, shape[1] as int);
        assert(0 <= shape[0] * shape[1]) by (nonlinear_arith);
    }
}

/// **When a surface is priced.** Every encoding a layout admits for a tensor
/// has a rule for the tensor's shape; one that has none leaves the surface
/// without a price table.
pub proof fn law_when_a_surface_is_priced<L: LayoutAdmission, C: CompiledBytes>(
    surface: Seq<Enumerated>,
    source: Seq<((Seq<char>, Seq<char>), Stored)>,
    layout: &L,
    compiled: &C,
    encodings: Seq<Seq<char>>,
    n: int,
)
    requires
        0 <= n,
    ensures
        price_rows(surface, source, layout, compiled, encodings, n) is Ok <==> forall|i: int, k: int|
            0 <= i < n && 0 <= k < encodings.len() && layout.takes(
                #[trigger] encodings[k],
                #[trigger] surface[i],
            ) ==> compiled.stores(encodings[k], surface[i].shape) is Some,
    decreases n,
{
    if n > 0 {
        law_when_a_surface_is_priced(surface, source, layout, compiled, encodings, n - 1);
        let t = surface[n - 1];
        lemma_when_compiled(t, layout, compiled, encodings, encodings.len() as int);
        if price_rows(surface, source, layout, compiled, encodings, n) is Ok {
            assert forall|i: int, k: int|
                0 <= i < n && 0 <= k < encodings.len() && layout.takes(
                    #[trigger] encodings[k],
                    #[trigger] surface[i],
                ) implies compiled.stores(encodings[k], surface[i].shape) is Some by {
                if i == n - 1 {
                    assert(layout.takes(encodings[k], t));
                }
            }
        } else if price_rows(surface, source, layout, compiled, encodings, n - 1) is Ok {
            let k = choose|k: int|
                0 <= k < encodings.len() && layout.takes(#[trigger] encodings[k], t)
                    && compiled.stores(encodings[k], t.shape) is None;
            assert(layout.takes(encodings[k], surface[n - 1]));
        }
    }
}

proof fn lemma_when_compiled<L: LayoutAdmission, C: CompiledBytes>(
    tensor: Enumerated,
    layout: &L,
    compiled: &C,
    encodings: Seq<Seq<char>>,
    n: int,
)
    requires
        0 <= n <= encodings.len(),
    ensures
        compiled_prices(tensor, layout, compiled, encodings, n) is Ok <==> forall|k: int|
            0 <= k < n && layout.takes(#[trigger] encodings[k], tensor) ==> compiled.stores(
                encodings[k],
                tensor.shape,
            ) is Some,
    decreases n,
{
    if n > 0 {
        lemma_when_compiled(tensor, layout, compiled, encodings, n - 1);
        assert(encodings[n - 1] == encodings[n - 1]);
    }
}

} // verus!

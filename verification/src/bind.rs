//! Can this surface be priced at all?
//!
//! The container states what it stores, and the surface what was enumerated.
//! A surface is bound where every tensor on it has one source price; a stored
//! tensor no surface names is not the surface's business.
use crate::accounting::{PhysicalAccountingFacts, SourceStorageFact, Stored};
use crate::canon::{short, short_of};
use crate::source_identity::SourceIdentity;
use crate::surface::{
    ordered, path_of, stated, surface_id, Enumerated, SurfaceTensor, TensorIdentity, TensorSurface,
};
use crate::table::{lookup, Key};
use crate::text::{decimal, push_decimal, same};
use vstd::prelude::*;
use vstd::string::*;

verus! {

/// The surface tensors the container stores no price for, all of them, in
/// order.
#[derive(Debug, Clone, PartialEq, Eq)]
pub struct AccountingIncomplete {
    pub missing: Vec<TensorIdentity>,
}

/// The tensors, by object and name.
pub open spec fn pairs(s: Seq<TensorIdentity>) -> Seq<(Seq<char>, Seq<char>)> {
    s.map_values(|t: TensorIdentity| t@)
}

/// The tensors as a report lists them.
pub open spec fn listed(s: Seq<(Seq<char>, Seq<char>)>) -> Seq<char>
    decreases s.len(),
{
    if s.len() == 0 {
        Seq::empty()
    } else if s.len() == 1 {
        path_of(s[0])
    } else {
        listed(s.drop_last()) + ", "@ + path_of(s.last())
    }
}

/// What an incomplete accounting says.
pub open spec fn incomplete_text(missing: Seq<(Seq<char>, Seq<char>)>) -> Seq<char> {
    "the source container stores no price for "@ + decimal(missing.len())
        + " surface tensor(s): "@ + listed(missing)
}

impl AccountingIncomplete {
    /// What is missing, in words.
    pub fn describe(&self) -> (r: String)
        ensures
            r@ == incomplete_text(pairs(self.missing@)),
    {
        let mut s: String = "the source container stores no price for ".to_owned();
        push_decimal(&mut s, self.missing.len() as u64);
        s.append(" surface tensor(s): ");
        let ghost head = s@;
        let ghost all = pairs(self.missing@);
        let mut i: usize = 0;
        assert(all.take(0) =~= Seq::<(Seq<char>, Seq<char>)>::empty());
        assert(s@ =~= head + listed(all.take(0)));
        while i < self.missing.len()
            invariant
                i <= self.missing@.len(),
                all == pairs(self.missing@),
                s@ == head + listed(all.take(i as int)),
            decreases self.missing@.len() - i,
        {
            let ghost next = all.take(i as int + 1);
            if i > 0 {
                s.append(", ");
            }
            s.append(self.missing[i].path().as_str());
            proof {
                assert(next.drop_last() =~= all.take(i as int));
                assert(next.last() == self.missing@[i as int]@);
                assert(s@ =~= head + listed(next));
            }
            i = i + 1;
        }
        assert(all.take(all.len() as int) =~= all);
        s
    }
}

/// Why a surface could not be bound to a container's storage.
#[derive(Debug, Clone, PartialEq, Eq)]
pub enum AccountingBindError {
    /// The facts were read from another container.
    ForeignSource { facts: String, model: String },
    /// A bound accounting was asked about another surface.
    ForeignSurface { bound: String, asked: String },
    Incomplete(AccountingIncomplete),
}

/// Why a surface could not be bound, by its texts.
pub enum Unbound {
    ForeignSource { facts: Seq<char>, model: Seq<char> },
    ForeignSurface { bound: Seq<char>, asked: Seq<char> },
    Incomplete(Seq<(Seq<char>, Seq<char>)>),
}

impl View for AccountingBindError {
    type V = Unbound;

    open spec fn view(&self) -> Unbound {
        match self {
            AccountingBindError::ForeignSource { facts, model } => Unbound::ForeignSource {
                facts: facts@,
                model: model@,
            },
            AccountingBindError::ForeignSurface { bound, asked } => Unbound::ForeignSurface {
                bound: bound@,
                asked: asked@,
            },
            AccountingBindError::Incomplete(i) => Unbound::Incomplete(pairs(i.missing@)),
        }
    }
}

impl Unbound {
    /// The reason, in words.
    pub open spec fn text(self) -> Seq<char> {
        match self {
            Unbound::ForeignSource { facts, model } => "accounting facts were read from source "@
                + short_of(facts) + " and this model is "@ + short_of(model)
                + " — pricing one model's surface from another's storage"@,
            Unbound::ForeignSurface { bound, asked } => "this accounting was bound to surface "@
                + short_of(bound) + " and was asked about "@ + short_of(asked)
                + " — completeness was proved for one population, not the other"@,
            Unbound::Incomplete(missing) => incomplete_text(missing),
        }
    }
}

impl AccountingBindError {
    /// The reason, in words.
    pub fn describe(&self) -> (r: String)
        ensures
            r@ == self@.text(),
    {
        match self {
            AccountingBindError::ForeignSource { facts, model } => {
                let mut s: String = "accounting facts were read from source ".to_owned();
                s.append(short(facts.as_str()));
                s.append(" and this model is ");
                s.append(short(model.as_str()));
                s.append(" — pricing one model's surface from another's storage");
                s
            },
            AccountingBindError::ForeignSurface { bound, asked } => {
                let mut s: String = "this accounting was bound to surface ".to_owned();
                s.append(short(bound.as_str()));
                s.append(" and was asked about ");
                s.append(short(asked.as_str()));
                s.append(" — completeness was proved for one population, not the other");
                s
            },
            AccountingBindError::Incomplete(i) => i.describe(),
        }
    }
}

/// **Every tensor of one surface, priced from one sealed container.**
#[derive(Debug, Clone, PartialEq, Eq)]
pub struct BoundPhysicalAccounting {
    source: String,
    surface: String,
    priced: Vec<(TensorIdentity, SourceStorageFact)>,
}

/// A bound accounting, by its texts.
#[verifier::ext_equal]
pub struct Bound {
    pub source: Seq<char>,
    pub surface: Seq<char>,
    pub priced: Seq<((Seq<char>, Seq<char>), Stored)>,
}

/// The prices, by their texts.
pub open spec fn priced_as(s: Seq<(TensorIdentity, SourceStorageFact)>) -> Seq<
    ((Seq<char>, Seq<char>), Stored),
> {
    s.map_values(|p: (TensorIdentity, SourceStorageFact)| (p.0@, p.1@))
}

impl View for BoundPhysicalAccounting {
    type V = Bound;

    closed spec fn view(&self) -> Bound {
        Bound {
            source: self.source@,
            surface: self.surface@,
            priced: priced_as(self.priced@),
        }
    }
}

impl BoundPhysicalAccounting {
    /// The digest of the source both sides agreed on.
    pub fn source(&self) -> (r: &str)
        ensures
            r@ == self@.source,
    {
        self.source.as_str()
    }

    /// The identity of the surface this was bound to.
    pub fn surface_identity(&self) -> (r: &str)
        ensures
            r@ == self@.surface,
    {
        self.surface.as_str()
    }

    /// How many tensors are priced.
    pub fn len(&self) -> (r: usize)
        ensures
            r == self@.priced.len(),
    {
        self.priced.len()
    }

    /// Whether no tensor is priced.
    pub fn is_empty(&self) -> (r: bool)
        ensures
            r == (self@.priced.len() == 0),
    {
        self.priced.len() == 0
    }

    /// Every tensor and its price, in surface order.
    pub fn tensors(&self) -> (r: &Vec<(TensorIdentity, SourceStorageFact)>)
        ensures
            priced_as(r@) == self@.priced,
    {
        &self.priced
    }

    /// **Every tensor of `surface` with its source price**, place by place.
    /// Another surface is refused.
    pub fn prices_for<'a>(&'a self, surface: &'a TensorSurface) -> (r: Result<
        Vec<(&'a SurfaceTensor, &'a SourceStorageFact)>,
        AccountingBindError,
    >)
        ensures
            r is Ok <==> surface_id(surface@) == self@.surface,
            r matches Err(e) ==> e@ == (Unbound::ForeignSurface {
                bound: self@.surface,
                asked: surface_id(surface@),
            }),
            r matches Ok(v) ==> {
                &&& v@.len() == (if surface@.len() <= self@.priced.len() {
                    surface@.len()
                } else {
                    self@.priced.len()
                })
                &&& forall|i: int|
                    0 <= i < v@.len() ==> (#[trigger] v@[i]).0@ == surface@[i] && v@[i].1@
                        == self@.priced[i].1
            },
    {
        let asked: String = surface.identity();
        if !same(asked.as_str(), self.surface.as_str()) {
            return Err(
                AccountingBindError::ForeignSurface { bound: self.surface.clone(), asked },
            );
        }
        let entries: &Vec<SurfaceTensor> = surface.entries();
        let mut v: Vec<(&'a SurfaceTensor, &'a SourceStorageFact)> = Vec::new();
        let mut i: usize = 0;
        while i < entries.len() && i < self.priced.len()
            invariant
                i <= entries@.len(),
                i <= self.priced@.len(),
                stated(entries@) == surface@,
                self@.priced == priced_as(self.priced@),
                v@.len() == i,
                forall|k: int|
                    0 <= k < i ==> (#[trigger] v@[k]).0@ == surface@[k] && v@[k].1@
                        == self@.priced[k].1,
            decreases entries@.len() - i,
        {
            assert(surface@[i as int] == entries@[i as int]@);
            assert(self@.priced[i as int] == (
                self.priced@[i as int].0@,
                self.priced@[i as int].1@,
            ));
            v.push((&entries[i], &self.priced[i].1));
            i = i + 1;
        }
        Ok(v)
    }
}

/// The surface's tensors with the price each is stored at.
pub open spec fn prices_of(
    surface: Seq<Enumerated>,
    storage: Seq<((Seq<char>, Seq<char>), Stored)>,
) -> Seq<((Seq<char>, Seq<char>), Stored)>
    decreases surface.len(),
{
    if surface.len() == 0 {
        Seq::empty()
    } else {
        let rest = prices_of(surface.drop_last(), storage);
        match lookup(storage, surface.last().pair()) {
            Some(fact) => rest.push((surface.last().pair(), fact)),
            None => rest,
        }
    }
}

/// The surface's tensors that are stored at no price.
pub open spec fn missing_from(
    surface: Seq<Enumerated>,
    storage: Seq<((Seq<char>, Seq<char>), Stored)>,
) -> Seq<(Seq<char>, Seq<char>)>
    decreases surface.len(),
{
    if surface.len() == 0 {
        Seq::empty()
    } else {
        let rest = missing_from(surface.drop_last(), storage);
        match lookup(storage, surface.last().pair()) {
            Some(fact) => rest,
            None => rest.push(surface.last().pair()),
        }
    }
}

impl PhysicalAccountingFacts {
    /// **Bind a surface to the storage that prices it, or say exactly what is
    /// missing.**
    pub fn bind(&self, model: &SourceIdentity, surface: &TensorSurface) -> (r: Result<
        BoundPhysicalAccounting,
        AccountingBindError,
    >)
        ensures
            ({
                let digest = model@.semantic.digest();
                let missing = missing_from(surface@, self@.storage);
                match r {
                    Ok(bound) => self@.source == digest && missing.len() == 0 && bound@ == (Bound {
                        source: self@.source,
                        surface: surface_id(surface@),
                        priced: prices_of(surface@, self@.storage),
                    }) && bound@.priced.len() == surface@.len(),
                    Err(e) => if self@.source != digest {
                        e@ == (Unbound::ForeignSource { facts: self@.source, model: digest })
                    } else {
                        missing.len() > 0 && e@ == Unbound::Incomplete(missing)
                    },
                }
            }),
    {
        if !self.describe(model) {
            return Err(
                AccountingBindError::ForeignSource {
                    facts: self.source_digest().to_owned(),
                    model: model.semantic_digest(),
                },
            );
        }
        let entries: &Vec<SurfaceTensor> = surface.entries();
        let mut priced: Vec<(TensorIdentity, SourceStorageFact)> = Vec::new();
        let mut missing: Vec<TensorIdentity> = Vec::new();
        let mut i: usize = 0;
        assert(surface@.take(0) =~= Seq::<Enumerated>::empty());
        assert(priced_as(priced@) =~= prices_of(surface@.take(0), self@.storage));
        assert(pairs(missing@) =~= missing_from(surface@.take(0), self@.storage));
        while i < entries.len()
            invariant
                i <= entries@.len(),
                stated(entries@) == surface@,
                priced_as(priced@) == prices_of(surface@.take(i as int), self@.storage),
                pairs(missing@) == missing_from(surface@.take(i as int), self@.storage),
                priced@.len() + missing@.len() == i,
            decreases entries@.len() - i,
        {
            let ghost next = surface@.take(i as int + 1);
            let ghost held = priced@;
            let ghost absent = missing@;
            let id = TensorIdentity::new(entries[i].object.as_str(), entries[i].tensor.as_str());
            proof {
                assert(surface@[i as int] == entries@[i as int]@);
                assert(next.drop_last() =~= surface@.take(i as int));
                assert(next.last().pair() == id@);
            }
            match self.get(&id) {
                Some(fact) => {
                    let entry = (id, fact.clone());
                    priced.push(entry);
                    assert(priced_as(priced@) =~= priced_as(held).push((entry.0@, entry.1@)));
                },
                None => {
                    missing.push(id);
                    assert(pairs(missing@) =~= pairs(absent).push(id@));
                },
            }
            i = i + 1;
        }
        assert(surface@.take(surface@.len() as int) =~= surface@);
        assert(pairs(missing@).len() == missing@.len());
        assert(priced_as(priced@).len() == priced@.len());
        if missing.len() > 0 {
            return Err(AccountingBindError::Incomplete(AccountingIncomplete { missing }));
        }
        Ok(
            BoundPhysicalAccounting {
                source: self.source_digest().to_owned(),
                surface: surface.identity(),
                priced,
            },
        )
    }
}

proof fn lemma_missing(
    surface: Seq<Enumerated>,
    storage: Seq<((Seq<char>, Seq<char>), Stored)>,
)
    requires
        ordered(surface),
    ensures
        ({
            let missing = missing_from(surface, storage);
            &&& forall|k: int|
                0 <= k < missing.len() ==> exists|i: int|
                    0 <= i < surface.len() && (#[trigger] surface[i]).pair() == #[trigger] missing[k]
            &&& forall|i: int|
                0 <= i < surface.len() ==> (lookup(storage, (#[trigger] surface[i]).pair()) is None
                    <==> missing.contains(surface[i].pair()))
        }),
    decreases surface.len(),
{
    let missing = missing_from(surface, storage);
    if surface.len() > 0 {
        let init = surface.drop_last();
        assert forall|i: int, j: int|
            #![trigger init[i], init[j]]
            0 <= i < j < init.len() implies crate::surface::pair_before(
            init[i].pair(),
            init[j].pair(),
        ) by {
            assert(init[i] == surface[i] && init[j] == surface[j]);
        }
        lemma_missing(init, storage);
        let rest = missing_from(init, storage);
        let last = surface.last();
        assert forall|k: int| 0 <= k < missing.len() implies exists|i: int|
            0 <= i < surface.len() && (#[trigger] surface[i]).pair() == #[trigger] missing[k] by {
            if k < rest.len() {
                assert(missing[k] == rest[k]);
                let i = choose|i: int|
                    0 <= i < init.len() && (#[trigger] init[i]).pair() == rest[k];
                assert(surface[i].pair() == missing[k]);
            } else {
                assert(surface[surface.len() - 1].pair() == missing[k]);
            }
        }
        assert forall|i: int| 0 <= i < surface.len() implies (lookup(
            storage,
            (#[trigger] surface[i]).pair(),
        ) is None <==> missing.contains(surface[i].pair())) by {
            let p = surface[i].pair();
            if i < init.len() {
                assert(init[i] == surface[i]);
                if rest.contains(p) {
                    let k = rest.index_of(p);
                    assert(missing[k] == p);
                }
                if missing.contains(p) && !rest.contains(p) {
                    let k = missing.index_of(p);
                    if k < rest.len() {
                        assert(rest[k] == p);
                    } else {
                        assert(p == last.pair());
                        assert(surface[surface.len() - 1] == last);
                        TensorIdentity::strict(p, last.pair());
                    }
                }
            } else {
                if lookup(storage, p) is None {
                    assert(missing[missing.len() - 1] == p);
                } else if missing.contains(p) {
                    let k = missing.index_of(p);
                    assert(missing[k] == rest[k]);
                    let i2 = choose|i: int|
                        0 <= i < init.len() && (#[trigger] init[i]).pair() == rest[k];
                    assert(surface[i2].pair() == p);
                    TensorIdentity::strict(p, p);
                }
            }
        }
    }
}

/// **A surface binds exactly where every tensor on it is priced.** What is
/// reported missing is every unpriced tensor and nothing else, in surface
/// order.
pub proof fn law_missing_is_what_is_not_stored(
    surface: Seq<Enumerated>,
    storage: Seq<((Seq<char>, Seq<char>), Stored)>,
    i: int,
)
    requires
        ordered(surface),
        0 <= i < surface.len(),
    ensures
        lookup(storage, surface[i].pair()) is None <==> missing_from(surface, storage).contains(
            surface[i].pair(),
        ),
{
    lemma_missing(surface, storage);
}

/// Where nothing is missing, the prices stand in surface order, each as the
/// container stores it.
pub proof fn lemma_prices_follow_the_surface(
    surface: Seq<Enumerated>,
    storage: Seq<((Seq<char>, Seq<char>), Stored)>,
)
    requires
        missing_from(surface, storage).len() == 0,
    ensures
        prices_of(surface, storage).len() == surface.len(),
        forall|i: int|
            0 <= i < surface.len() ==> lookup(storage, (#[trigger] surface[i]).pair()) == Some(
                prices_of(surface, storage)[i].1,
            ),
    decreases surface.len(),
{
    if surface.len() > 0 {
        let init = surface.drop_last();
        assert(missing_from(init, storage).len() == 0);
        lemma_prices_follow_the_surface(init, storage);
        assert forall|i: int| 0 <= i < surface.len() implies lookup(
            storage,
            (#[trigger] surface[i]).pair(),
        ) == Some(prices_of(surface, storage)[i].1) by {
            if i < init.len() {
                assert(init[i] == surface[i]);
            }
        }
    }
}

/// **Each tensor of a surface is priced as it is stored, or it is missing.**
/// The prices and the missing tensors keep the surface's order.
pub proof fn law_a_tensor_is_priced_or_missing(
    a: Seq<Enumerated>,
    b: Seq<Enumerated>,
    one: Enumerated,
    storage: Seq<((Seq<char>, Seq<char>), Stored)>,
)
    ensures
        prices_of(a + b, storage) == prices_of(a, storage) + prices_of(b, storage),
        missing_from(a + b, storage) == missing_from(a, storage) + missing_from(b, storage),
        lookup(storage, one.pair()) matches Some(fact) ==> prices_of(seq![one], storage) == seq![
            (one.pair(), fact),
        ] && missing_from(seq![one], storage).len() == 0,
        lookup(storage, one.pair()) is None ==> missing_from(seq![one], storage) == seq![
            one.pair(),
        ] && prices_of(seq![one], storage).len() == 0,
    decreases b.len(),
{
    let none = Seq::<Enumerated>::empty();
    assert(seq![one].drop_last() =~= none);
    assert(seq![one].last() == one);
    assert(prices_of(none, storage) =~= Seq::<((Seq<char>, Seq<char>), Stored)>::empty());
    assert(missing_from(none, storage) =~= Seq::<(Seq<char>, Seq<char>)>::empty());
    match lookup(storage, one.pair()) {
        Some(fact) => {
            assert(prices_of(seq![one], storage) =~= seq![(one.pair(), fact)]);
        },
        None => {
            assert(missing_from(seq![one], storage) =~= seq![one.pair()]);
        },
    }
    if b.len() == 0 {
        assert(a + b =~= a);
        assert(b =~= none);
        assert(prices_of(a, storage) + prices_of(b, storage) =~= prices_of(a, storage));
        assert(missing_from(a, storage) + missing_from(b, storage) =~= missing_from(a, storage));
    } else {
        law_a_tensor_is_priced_or_missing(a, b.drop_last(), one, storage);
        assert((a + b).drop_last() =~= a + b.drop_last());
        assert((a + b).last() == b.last());
        assert(prices_of(a + b, storage) =~= prices_of(a, storage) + prices_of(b, storage));
        assert(missing_from(a + b, storage) =~= missing_from(a, storage) + missing_from(
            b,
            storage,
        ));
    }
}

} // verus!

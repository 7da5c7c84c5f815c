//! The tensors a search decides over.
//!
//! A surface enumerates tensors by object and name, each once, in that
//! order. Adding, removing, renaming, reclassifying or reshaping a tensor is
//! a different surface: where no name holds a separator, no two surfaces are
//! written alike.
use crate::canon::{
    clear, free_of, joined, lemma_free_of_joined, lemma_joined_identify, lemma_joined_push,
    lemma_joined_records_identify, lemma_joined_tells_one_part, lemma_label,
    lemma_only_nothing_joins_to_nothing, plain, FIELD, RECORD, SECTION,
};
use crate::digest::{digest_of, digest_text, told_apart};
use crate::error::VindexError;
use crate::policy::{lemma_titles, Role};
use crate::ranking::{in_rank, ranked, sort_by_rank, Ranked};
use crate::table::Key;
use crate::text::{
    before, decimal, lemma_decimal_identifies, lemma_decimal_is_digits, lemma_text_before_strict, lemma_text_before_total, lemma_text_before_transitive,
    push_decimal, same, text_before,
};
use vstd::prelude::*;
use vstd::seq_lib::*;
use vstd::string::*;

verus! {

/// The canonical-form version every surface identity is computed under.
pub const SURFACE_ID_VERSION: &'static str = "tensor-surface-id/v1";

/// The order of pairs of texts: the first decides, then the second.
pub open spec fn pair_before(a: (Seq<char>, Seq<char>), b: (Seq<char>, Seq<char>)) -> bool {
    text_before(a.0, b.0) || (a.0 == b.0 && text_before(a.1, b.1))
}

proof fn lemma_pair_before_strict(a: (Seq<char>, Seq<char>), b: (Seq<char>, Seq<char>))
    ensures
        !(pair_before(a, b) && pair_before(b, a)),
        !pair_before(a, a),
{
    lemma_text_before_strict(a.0, b.0);
    lemma_text_before_strict(a.1, b.1);
}

proof fn lemma_pair_before_transitive(
    a: (Seq<char>, Seq<char>),
    b: (Seq<char>, Seq<char>),
    c: (Seq<char>, Seq<char>),
)
    requires
        pair_before(a, b),
        pair_before(b, c),
    ensures
        pair_before(a, c),
{
    if text_before(a.0, b.0) && text_before(b.0, c.0) {
        lemma_text_before_transitive(a.0, b.0, c.0);
    } else if a.0 == b.0 && b.0 == c.0 {
        lemma_text_before_transitive(a.1, b.1, c.1);
    }
}

proof fn lemma_pair_before_total(a: (Seq<char>, Seq<char>), b: (Seq<char>, Seq<char>))
    ensures
        a == b || pair_before(a, b) || pair_before(b, a),
{
    lemma_text_before_total(a.0, b.0);
    lemma_text_before_total(a.1, b.1);
}

/// A tensor, by the object that holds it and its name there.
///
/// Two objects that share one payload are two identities.
#[derive(Debug, PartialEq, Eq, PartialOrd, Ord, Hash)]
pub struct TensorIdentity {
    pub object: String,
    pub tensor: String,
}

impl View for TensorIdentity {
    type V = (Seq<char>, Seq<char>);

    open spec fn view(&self) -> (Seq<char>, Seq<char>) {
        (self.object@, self.tensor@)
    }
}

impl Clone for TensorIdentity {
    fn clone(&self) -> (r: Self)
        ensures
            r == *self,
    {
        TensorIdentity { object: self.object.clone(), tensor: self.tensor.clone() }
    }
}

/// How a tensor is written: `object/tensor`.
pub open spec fn path_of(pair: (Seq<char>, Seq<char>)) -> Seq<char> {
    pair.0 + "/"@ + pair.1
}

impl TensorIdentity {
    /// The tensor `tensor` of `object`.
    pub fn new(object: &str, tensor: &str) -> (r: TensorIdentity)
        ensures
            r@ == (object@, tensor@),
    {
        TensorIdentity { object: object.to_owned(), tensor: tensor.to_owned() }
    }

    /// The identity as `object/tensor`.
    pub fn path(&self) -> (r: String)
        ensures
            r@ == path_of(self@),
    {
        let mut s: String = self.object.clone();
        s.append("/");
        s.append(self.tensor.as_str());
        s
    }
}

impl Key for TensorIdentity {
    type Name = (Seq<char>, Seq<char>);

    open spec fn name(&self) -> (Seq<char>, Seq<char>) {
        self@
    }

    open spec fn precedes(a: (Seq<char>, Seq<char>), b: (Seq<char>, Seq<char>)) -> bool {
        pair_before(a, b)
    }

    proof fn strict(a: (Seq<char>, Seq<char>), b: (Seq<char>, Seq<char>)) {
        lemma_pair_before_strict(a, b);
    }

    proof fn transitive(
        a: (Seq<char>, Seq<char>),
        b: (Seq<char>, Seq<char>),
        c: (Seq<char>, Seq<char>),
    ) {
        lemma_pair_before_transitive(a, b, c);
    }

    proof fn total(a: (Seq<char>, Seq<char>), b: (Seq<char>, Seq<char>)) {
        lemma_pair_before_total(a, b);
    }

    fn same_key(&self, other: &Self) -> (r: bool) {
        same(self.object.as_str(), other.object.as_str()) && same(
            self.tensor.as_str(),
            other.tensor.as_str(),
        )
    }

    fn comes_before(&self, other: &Self) -> (r: bool) {
        before(self.object.as_str(), other.object.as_str()) || (same(
            self.object.as_str(),
            other.object.as_str(),
        ) && before(self.tensor.as_str(), other.tensor.as_str()))
    }
}

/// One enumerated tensor.
#[derive(Debug, PartialEq, Eq)]
pub struct SurfaceTensor {
    pub object: String,
    pub tensor: String,
    pub role: Role,
    pub shape: Vec<usize>,
}

/// One enumerated tensor, by what it states.
pub struct Enumerated {
    pub object: Seq<char>,
    pub tensor: Seq<char>,
    pub role: Role,
    pub shape: Seq<usize>,
}

impl Enumerated {
    /// The object and name it is enumerated under.
    pub open spec fn pair(self) -> (Seq<char>, Seq<char>) {
        (self.object, self.tensor)
    }
}

impl View for SurfaceTensor {
    type V = Enumerated;

    open spec fn view(&self) -> Enumerated {
        Enumerated {
            object: self.object@,
            tensor: self.tensor@,
            role: self.role,
            shape: self.shape@,
        }
    }
}

impl Clone for SurfaceTensor {
    fn clone(&self) -> (r: Self)
        ensures
            r@ == self@,
    {
        let shape: Vec<usize> = self.shape.clone();
        assert(shape@ =~= self.shape@);
        SurfaceTensor {
            object: self.object.clone(),
            tensor: self.tensor.clone(),
            role: self.role,
            shape,
        }
    }
}

impl SurfaceTensor {
    /// One enumerated tensor.
    pub fn new(object: &str, tensor: &str, role: Role, shape: Vec<usize>) -> (r: SurfaceTensor)
        ensures
            r@ == (Enumerated { object: object@, tensor: tensor@, role, shape: shape@ }),
    {
        SurfaceTensor { object: object.to_owned(), tensor: tensor.to_owned(), role, shape }
    }

    /// The object and name it is enumerated under.
    pub fn key(&self) -> (r: (&str, &str))
        ensures
            (r.0@, r.1@) == self@.pair(),
    {
        (self.object.as_str(), self.tensor.as_str())
    }
}

impl Ranked for SurfaceTensor {
    open spec fn ahead(&self, other: &Self) -> bool {
        pair_before(self@.pair(), other@.pair())
    }

    proof fn asymmetric(a: &Self, b: &Self) {
        lemma_pair_before_strict(a@.pair(), b@.pair());
    }

    proof fn splits(a: &Self, b: &Self, c: &Self) {
        if a.ahead(c) && !a.ahead(b) {
            lemma_pair_before_total(a@.pair(), b@.pair());
            if b.ahead(a) {
                lemma_pair_before_transitive(b@.pair(), a@.pair(), c@.pair());
            }
        }
    }

    fn ranks_ahead(&self, other: &Self) -> (r: bool) {
        before(self.object.as_str(), other.object.as_str()) || (same(
            self.object.as_str(),
            other.object.as_str(),
        ) && before(self.tensor.as_str(), other.tensor.as_str()))
    }
}

/// The enumeration stands in order, so no tensor is enumerated twice.
pub open spec fn ordered(s: Seq<Enumerated>) -> bool {
    forall|i: int, j: int|
        #![trigger s[i], s[j]]
        0 <= i < j < s.len() ==> pair_before(s[i].pair(), s[j].pair())
}

/// What some enumerated tensors state.
pub open spec fn stated(s: Seq<SurfaceTensor>) -> Seq<Enumerated> {
    s.map_values(|t: SurfaceTensor| t@)
}

/// Some tensor is enumerated twice.
pub open spec fn repeats(s: Seq<Enumerated>) -> bool {
    exists|i: int, j: int|
        #![trigger s[i], s[j]]
        0 <= i < j < s.len() && s[i].pair() == s[j].pair()
}

/// The refusal of an enumeration that names a tensor twice.
pub open spec fn repeated_text(pair: (Seq<char>, Seq<char>)) -> Seq<char> {
    "tensor `"@ + path_of(pair)
        + "` is enumerated twice — a surface decides each tensor once"@
}

/// A shape as a record writes it.
pub open spec fn shape_text(shape: Seq<usize>) -> Seq<char> {
    joined(shape.map_values(|n: usize| decimal(n as nat)), "x"@)
}

/// One enumerated tensor as the surface identity writes it.
pub open spec fn surface_record(t: Enumerated) -> Seq<char> {
    t.object + FIELD@ + t.tensor + FIELD@ + t.role.title() + FIELD@ + shape_text(t.shape)
}

/// What the surface identity is a digest of.
pub open spec fn surface_text(s: Seq<Enumerated>) -> Seq<char> {
    SURFACE_ID_VERSION@ + SECTION@ + joined(s.map_values(|t: Enumerated| surface_record(t)), RECORD@)
}

/// The identity of a surface.
pub open spec fn surface_id(s: Seq<Enumerated>) -> Seq<char> {
    digest_of(surface_text(s))
}

fn push_shape(s: &mut String, shape: &Vec<usize>)
    ensures
        final(s)@ == old(s)@ + shape_text(shape@),
{
    let mut i: usize = 0;
    let ghost parts = shape@.map_values(|n: usize| decimal(n as nat));
    assert(parts.take(0) =~= Seq::<Seq<char>>::empty());
    assert(s@ =~= old(s)@ + joined(parts.take(0), "x"@));
    while i < shape.len()
        invariant
            i <= shape@.len(),
            parts == shape@.map_values(|n: usize| decimal(n as nat)),
            s@ == old(s)@ + joined(parts.take(i as int), "x"@),
        decreases shape@.len() - i,
    {
        let ghost head = parts.take(i as int);
        if i > 0 {
            s.append("x");
        }
        push_decimal(s, shape[i] as u64);
        proof {
            lemma_joined_push(head, "x"@, parts[i as int]);
            assert(head.push(parts[i as int]) =~= parts.take(i as int + 1));
            assert(s@ =~= old(s)@ + joined(parts.take(i as int + 1), "x"@));
        }
        i = i + 1;
    }
    assert(parts.take(parts.len() as int) =~= parts);
}

fn push_record(s: &mut String, t: &SurfaceTensor)
    ensures
        final(s)@ == old(s)@ + surface_record(t@),
{
    s.append(t.object.as_str());
    s.append(FIELD);
    s.append(t.tensor.as_str());
    s.append(FIELD);
    s.append(t.role.name());
    s.append(FIELD);
    push_shape(s, &t.shape);
    assert(s@ =~= old(s)@ + surface_record(t@));
}

/// **The tensors a search decides over**, each once, in order.
#[derive(Debug, PartialEq, Eq)]
pub struct TensorSurface {
    entries: Vec<SurfaceTensor>,
}

impl Clone for TensorSurface {
    fn clone(&self) -> (r: Self)
        ensures
            r@ == self@,
    {
        proof {
            use_type_invariant(self);
        }
        let mut entries: Vec<SurfaceTensor> = Vec::new();
        let mut i: usize = 0;
        while i < self.entries.len()
            invariant
                i <= self.entries@.len(),
                stated(entries@) == stated(self.entries@).take(i as int),
            decreases self.entries@.len() - i,
        {
            let ghost held = entries@;
            let copy: SurfaceTensor = self.entries[i].clone();
            entries.push(copy);
            assert(stated(entries@) =~= stated(held).push(copy@));
            assert(stated(entries@) =~= stated(self.entries@).take(i as int + 1));
            i = i + 1;
        }
        assert(stated(entries@) =~= stated(self.entries@));
        TensorSurface { entries }
    }
}

impl View for TensorSurface {
    type V = Seq<Enumerated>;

    closed spec fn view(&self) -> Seq<Enumerated> {
        stated(self.entries@)
    }
}

impl TensorSurface {
    #[verifier::type_invariant]
    spec fn valid(&self) -> bool {
        ordered(stated(self.entries@))
    }

    /// Put an enumeration in order, refusing one that names a tensor twice.
    pub fn new(entries: Vec<SurfaceTensor>) -> (r: Result<TensorSurface, VindexError>)
        ensures
            r is Ok <==> !repeats(stated(entries@)),
            r matches Ok(s) ==> s@ == stated(ranked(entries@)) && ordered(s@) && s@.len()
                == entries@.len(),
            r matches Err(e) ==> exists|i: int, j: int|
                #![trigger entries@[i], entries@[j]]
                0 <= i < j < entries@.len() && entries@[i]@.pair() == entries@[j]@.pair() && e.text()
                    == repeated_text(entries@[i]@.pair()),
    {
        let ghost given = entries@;
        let mut sorted: Vec<SurfaceTensor> = entries;
        sort_by_rank(&mut sorted);
        let mut i: usize = 1;
        while i < sorted.len()
            invariant
                1 <= i,
                given == entries@,
                in_rank(sorted@),
                sorted@ == ranked(given),
                sorted@.to_multiset() == given.to_multiset(),
                sorted@.len() == given.len(),
                forall|k: int|
                    #![trigger sorted@[k]]
                    0 < k < i && k < sorted@.len() ==> sorted@[k - 1]@.pair() != sorted@[k]@.pair(),
            decreases sorted@.len() - i,
        {
            if same(sorted[i - 1].object.as_str(), sorted[i].object.as_str()) && same(
                sorted[i - 1].tensor.as_str(),
                sorted[i].tensor.as_str(),
            ) {
                let mut s: String = "tensor `".to_owned();
                s.append(TensorIdentity::new(sorted[i].object.as_str(), sorted[i].tensor.as_str()).path().as_str());
                s.append("` is enumerated twice — a surface decides each tensor once");
                proof {
                    lemma_twice_came_twice(given, sorted@, i - 1, i as int);
                }
                return Err(VindexError::Parse(s));
            }
            i = i + 1;
        }
        proof {
            lemma_neighbours_order(sorted@);
            lemma_ordered_came_once(given, sorted@);
        }
        Ok(TensorSurface { entries: sorted })
    }

    /// The tensors, in order.
    pub fn entries(&self) -> (r: &Vec<SurfaceTensor>)
        ensures
            stated(r@) == self@,
            ordered(self@),
    {
        proof {
            use_type_invariant(self);
        }
        &self.entries
    }

    /// How many tensors are enumerated.
    pub fn len(&self) -> (r: usize)
        ensures
            r == self@.len(),
    {
        self.entries.len()
    }

    /// Whether nothing is enumerated.
    pub fn is_empty(&self) -> (r: bool)
        ensures
            r == (self@.len() == 0),
    {
        self.entries.len() == 0
    }

    /// The identity of this surface.
    pub fn identity(&self) -> (r: String)
        ensures
            r@ == surface_id(self@),
            r@.len() == 64,
    {
        let mut s: String = SURFACE_ID_VERSION.to_owned();
        s.append(SECTION);
        let ghost head = s@;
        let ghost parts = self@.map_values(|t: Enumerated| surface_record(t));
        let mut i: usize = 0;
        assert(parts.take(0) =~= Seq::<Seq<char>>::empty());
        assert(s@ =~= head + joined(parts.take(0), RECORD@));
        while i < self.entries.len()
            invariant
                i <= self.entries@.len(),
                parts == self@.map_values(|t: Enumerated| surface_record(t)),
                parts.len() == self.entries@.len(),
                head == SURFACE_ID_VERSION@ + SECTION@,
                s@ == head + joined(parts.take(i as int), RECORD@),
            decreases self.entries@.len() - i,
        {
            let ghost done = parts.take(i as int);
            if i > 0 {
                s.append(RECORD);
            }
            push_record(&mut s, &self.entries[i]);
            proof {
                assert(parts[i as int] == surface_record(self.entries@[i as int]@));
                lemma_joined_push(done, RECORD@, parts[i as int]);
                assert(done.push(parts[i as int]) =~= parts.take(i as int + 1));
                assert(s@ =~= head + joined(parts.take(i as int + 1), RECORD@));
            }
            i = i + 1;
        }
        assert(parts.take(parts.len() as int) =~= parts);
        digest_text(s.as_str())
    }
}

proof fn lemma_neighbours_order(s: Seq<SurfaceTensor>)
    requires
        in_rank(s),
        forall|k: int|
            #![trigger s[k]]
            0 < k < s.len() ==> s[k - 1]@.pair() != s[k]@.pair(),
    ensures
        ordered(stated(s)),
    decreases s.len(),
{
    if s.len() > 0 {
        let init = s.drop_last();
        assert forall|k: int| #![trigger init[k]] 0 < k < init.len() implies init[k - 1]@.pair()
            != init[k]@.pair() by {
            assert(init[k] == s[k] && init[k - 1] == s[k - 1]);
        }
        lemma_neighbours_order(init);
        let t = stated(s);
        let u = stated(init);
        assert forall|i: int, j: int| #![trigger t[i], t[j]] 0 <= i < j < t.len() implies pair_before(
            t[i].pair(),
            t[j].pair(),
        ) by {
            assert(t[i] == s[i]@ && t[j] == s[j]@);
            if j < t.len() - 1 {
                assert(u[i] == t[i] && u[j] == t[j]);
            } else {
                let p = j - 1;
                assert(s[p + 1] == s[j]);
                lemma_pair_before_total(s[p]@.pair(), s[j]@.pair());
                assert(!s[j].ahead(&s[p]));
                if i < p {
                    assert(u[i] == t[i] && u[p] == s[p]@);
                    lemma_pair_before_transitive(t[i].pair(), s[p]@.pair(), t[j].pair());
                }
            }
        }
    }
}

proof fn lemma_twice_came_twice(
    given: Seq<SurfaceTensor>,
    sorted: Seq<SurfaceTensor>,
    i: int,
    j: int,
)
    requires
        given.to_multiset() == sorted.to_multiset(),
        0 <= i < j < sorted.len(),
        sorted[i]@.pair() == sorted[j]@.pair(),
    ensures
        exists|a: int, b: int|
            #![trigger given[a], given[b]]
            0 <= a < b < given.len() && given[a]@.pair() == given[b]@.pair() && given[a]@.pair()
                == sorted[j]@.pair(),
        repeats(stated(given)),
{
    let (a, b) = lemma_two_places(given, sorted, i, j);
    assert(given[a]@.pair() == given[b]@.pair());
    let t = stated(given);
    assert(t[a] == given[a]@ && t[b] == given[b]@);
}

proof fn lemma_ordered_came_once(given: Seq<SurfaceTensor>, sorted: Seq<SurfaceTensor>)
    requires
        given.to_multiset() == sorted.to_multiset(),
        ordered(stated(sorted)),
    ensures
        !repeats(stated(given)),
{
    let t = stated(given);
    if repeats(t) {
        let (i, j) = choose|i: int, j: int|
            #![trigger t[i], t[j]]
            0 <= i < j < t.len() && t[i].pair() == t[j].pair();
        let (a, b) = lemma_two_places(sorted, given, i, j);
        let u = stated(sorted);
        assert(u[a] == sorted[a]@ && u[b] == sorted[b]@);
        lemma_pair_before_strict(u[a].pair(), u[b].pair());
    }
}

/// Two entries that share a pair stand at two places of any rearrangement.
proof fn lemma_two_places(
    x: Seq<SurfaceTensor>,
    y: Seq<SurfaceTensor>,
    i: int,
    j: int,
) -> (r: (int, int))
    requires
        x.to_multiset() == y.to_multiset(),
        0 <= i < j < y.len(),
        y[i]@.pair() == y[j]@.pair(),
    ensures
        0 <= r.0 < r.1 < x.len(),
        x[r.0]@.pair() == y[j]@.pair(),
        x[r.1]@.pair() == y[j]@.pair(),
{
    broadcast use vstd::multiset::group_multiset_axioms;

    let p = y[i];
    let q = y[j];
    assert(y.contains(p) && y.contains(q));
    to_multiset_contains(y, p);
    to_multiset_contains(y, q);
    to_multiset_contains(x, p);
    to_multiset_contains(x, q);
    if p == q {
        let rest = y.remove(j);
        assert(rest[i] == p);
        assert(rest.contains(p));
        to_multiset_contains(rest, p);
        to_multiset_remove(y, j);
        assert(y.to_multiset().count(p) >= 2);
        assert(x.to_multiset().count(p) >= 2);
        assert(x.contains(p));
        let a = x.index_of(p);
        let less = x.remove(a);
        to_multiset_remove(x, a);
        to_multiset_contains(less, p);
        assert(less.to_multiset() =~= x.to_multiset().remove(p));
        assert(less.to_multiset().count(p) >= 1);
        assert(less.contains(p));
        let b = less.index_of(p);
        let b2 = if b < a {
            b
        } else {
            b + 1
        };
        assert(x[b2] == less[b]);
        if a < b2 {
            (a, b2)
        } else {
            (b2, a)
        }
    } else {
        assert(x.contains(p) && x.contains(q));
        let a = x.index_of(p);
        let b = x.index_of(q);
        if a < b {
            (a, b)
        } else {
            (b, a)
        }
    }
}

/// No separator stands in the names.
pub open spec fn names_are_clear(t: Enumerated) -> bool {
    clear(t.object) && clear(t.tensor)
}

spec fn extents(shape: Seq<usize>) -> Seq<Seq<char>> {
    shape.map_values(|n: usize| decimal(n as nat))
}

proof fn lemma_extents(shape: Seq<usize>)
    ensures
        forall|i: int|
            0 <= i < extents(shape).len() ==> (#[trigger] extents(shape)[i]).len() > 0 && free_of(
                extents(shape)[i],
                'x',
            ) && clear(extents(shape)[i]),
        clear(shape_text(shape)),
        shape.len() > 0 ==> shape_text(shape).len() > 0,
{
    reveal_strlit("x");
    assert("x"@ =~= seq!['x']);
    let parts = extents(shape);
    assert forall|i: int| 0 <= i < parts.len() implies (#[trigger] parts[i]).len() > 0 && free_of(
        parts[i],
        'x',
    ) && clear(parts[i]) by {
        lemma_decimal_is_digits(shape[i] as nat);
    }
    assert forall|i: int| 0 <= i < parts.len() implies free_of(#[trigger] parts[i], '\u{1d}')
        && free_of(parts[i], '\u{1e}') && free_of(parts[i], '\u{1f}') by {
        assert(clear(parts[i]));
    }
    lemma_free_of_joined(parts, "x"@, '\u{1d}');
    lemma_free_of_joined(parts, "x"@, '\u{1e}');
    lemma_free_of_joined(parts, "x"@, '\u{1f}');
    if shape.len() > 0 {
        assert(parts[parts.len() - 1].len() > 0);
        assert(joined(parts, "x"@).len() >= parts.last().len());
    }
}

proof fn lemma_shape_identifies(a: Seq<usize>, b: Seq<usize>)
    requires
        shape_text(a) == shape_text(b),
    ensures
        a == b,
{
    reveal_strlit("x");
    assert("x"@ =~= seq!['x']);
    lemma_extents(a);
    lemma_extents(b);
    let x = extents(a);
    let y = extents(b);
    if a.len() > 0 && b.len() > 0 {
        assert forall|i: int| 0 <= i < x.len() implies free_of(#[trigger] x[i], 'x') by {
            assert(x[i].len() > 0);
        }
        assert forall|i: int| 0 <= i < y.len() implies free_of(#[trigger] y[i], 'x') by {
            assert(y[i].len() > 0);
        }
        lemma_joined_identify(x, y, "x"@, 'x');
        assert forall|i: int| 0 <= i < a.len() implies a[i] == b[i] by {
            assert(x[i] == y[i]);
            if a[i] != b[i] {
                lemma_decimal_identifies(a[i] as nat, b[i] as nat);
            }
        }
    }
    assert(a =~= b);
}

/// The fields of a tensor's record.
spec fn record_fields(t: Enumerated) -> Seq<Seq<char>> {
    seq![t.object].push(t.tensor).push(t.role.title()).push(shape_text(t.shape))
}

proof fn lemma_surface_record(t: Enumerated)
    ensures
        surface_record(t) == joined(record_fields(t), FIELD@),
        surface_record(t).len() > 0,
        names_are_clear(t) ==> plain(surface_record(t)) && forall|i: int|
            0 <= i < record_fields(t).len() ==> clear(#[trigger] record_fields(t)[i]),
{
    reveal_strlit("\u{1f}");
    assert(FIELD@ =~= seq!['\u{1f}']);
    let one = seq![t.object];
    let two = one.push(t.tensor);
    let three = two.push(t.role.title());
    lemma_joined_push(one, FIELD@, t.tensor);
    lemma_joined_push(two, FIELD@, t.role.title());
    lemma_joined_push(three, FIELD@, shape_text(t.shape));
    assert(joined(record_fields(t), FIELD@) =~= surface_record(t));
    if names_are_clear(t) {
        let fields = record_fields(t);
        lemma_titles(t.role, t.role);
        lemma_extents(t.shape);
        assert(fields[0] == t.object && fields[1] == t.tensor && fields[2] == t.role.title()
            && fields[3] == shape_text(t.shape));
        assert forall|i: int| 0 <= i < fields.len() implies clear(#[trigger] fields[i]) by {}
        assert forall|i: int| 0 <= i < fields.len() implies free_of(
            #[trigger] fields[i],
            '\u{1e}',
        ) by {
            assert(clear(fields[i]));
        }
        lemma_free_of_joined(fields, FIELD@, '\u{1e}');
    }
}

proof fn lemma_record_identifies(a: Enumerated, b: Enumerated)
    requires
        names_are_clear(a),
        names_are_clear(b),
        surface_record(a) == surface_record(b),
    ensures
        a == b,
{
    reveal_strlit("\u{1f}");
    assert(FIELD@ =~= seq!['\u{1f}']);
    lemma_surface_record(a);
    lemma_surface_record(b);
    let x = record_fields(a);
    let y = record_fields(b);
    assert forall|i: int| 0 <= i < x.len() implies free_of(#[trigger] x[i], '\u{1f}') by {
        assert(clear(x[i]));
    }
    assert forall|i: int| 0 <= i < y.len() implies free_of(#[trigger] y[i], '\u{1f}') by {
        assert(clear(y[i]));
    }
    lemma_joined_identify(x, y, FIELD@, '\u{1f}');
    assert(x[0] == y[0] && x[1] == y[1] && x[2] == y[2] && x[3] == y[3]);
    lemma_titles(a.role, b.role);
    lemma_shape_identifies(a.shape, b.shape);
}

/// The records of a surface.
spec fn surface_records(s: Seq<Enumerated>) -> Seq<Seq<char>> {
    s.map_values(|t: Enumerated| surface_record(t))
}

/// **Another enumeration is another surface.** Whatever is added, removed,
/// renamed, reclassified or reshaped, surfaces whose names hold no separator
/// are written alike only where they enumerate the same tensors; so they have
/// one identity only there, the digest telling what they write apart.
pub proof fn law_another_enumeration_is_another_surface(a: Seq<Enumerated>, b: Seq<Enumerated>)
    requires
        forall|i: int| 0 <= i < a.len() ==> names_are_clear(#[trigger] a[i]),
        forall|i: int| 0 <= i < b.len() ==> names_are_clear(#[trigger] b[i]),
        a != b,
    ensures
        surface_text(a) != surface_text(b),
        told_apart(surface_text(a), surface_text(b)) ==> surface_id(a) != surface_id(b),
{
    if surface_text(a) == surface_text(b) {
        let u = surface_records(a);
        let v = surface_records(b);
        lemma_label(SURFACE_ID_VERSION@ + SECTION@, joined(u, RECORD@), joined(v, RECORD@));
        assert forall|i: int| 0 <= i < u.len() implies plain(#[trigger] u[i]) && u[i].len() > 0 by {
            assert(names_are_clear(a[i]));
            lemma_surface_record(a[i]);
        }
        assert forall|i: int| 0 <= i < v.len() implies plain(#[trigger] v[i]) && v[i].len() > 0 by {
            assert(names_are_clear(b[i]));
            lemma_surface_record(b[i]);
        }
        if u.len() > 0 && v.len() > 0 {
            lemma_joined_records_identify(u, v);
        } else {
            lemma_only_nothing_joins_to_nothing(u);
            lemma_only_nothing_joins_to_nothing(v);
            if u.len() > 0 {
                assert(u[0].len() > 0);
            }
            if v.len() > 0 {
                assert(v[0].len() > 0);
            }
        }
        assert(u.len() == v.len());
        assert forall|i: int| 0 <= i < a.len() implies a[i] == b[i] by {
            assert(u[i] == v[i]);
            assert(names_are_clear(a[i]));
            assert(names_are_clear(b[i]));
            lemma_record_identifies(a[i], b[i]);
        }
        assert(a =~= b);
    }
}

/// **A changed role or shape is another surface**, whatever the names hold:
/// surfaces that agree but for one tensor's role or shape are not written
/// alike.
pub proof fn law_a_role_and_a_shape_are_surface(
    a: Seq<Enumerated>,
    k: int,
    role: Role,
    shape: Seq<usize>,
)
    requires
        0 <= k < a.len(),
        a[k].role != role || a[k].shape != shape,
    ensures
        ({
            let b = a.update(k, Enumerated { role, shape, ..a[k] });
            &&& surface_text(a) != surface_text(b)
            &&& told_apart(surface_text(a), surface_text(b)) ==> surface_id(a) != surface_id(b)
        }),
{
    reveal_strlit("\u{1f}");
    assert(FIELD@ =~= seq!['\u{1f}']);
    let new = Enumerated { role, shape, ..a[k] };
    let b = a.update(k, new);
    if surface_text(a) == surface_text(b) {
        let u = surface_records(a);
        let v = surface_records(b);
        lemma_label(SURFACE_ID_VERSION@ + SECTION@, joined(u, RECORD@), joined(v, RECORD@));
        lemma_joined_tells_one_part(u, v, RECORD@, k);
        let head = a[k].object + FIELD@ + a[k].tensor + FIELD@;
        let x = seq![a[k].role.title(), shape_text(a[k].shape)];
        let y = seq![role.title(), shape_text(shape)];
        lemma_titles(a[k].role, role);
        lemma_titles(role, role);
        lemma_extents(a[k].shape);
        lemma_extents(shape);
        lemma_joined_push(seq![x[0]], FIELD@, x[1]);
        lemma_joined_push(seq![y[0]], FIELD@, y[1]);
        assert(seq![x[0]].push(x[1]) =~= x);
        assert(seq![y[0]].push(y[1]) =~= y);
        assert(surface_record(a[k]) =~= head + joined(x, FIELD@));
        assert(surface_record(new) =~= head + joined(y, FIELD@));
        lemma_label(head, joined(x, FIELD@), joined(y, FIELD@));
        assert forall|i: int| 0 <= i < x.len() implies free_of(#[trigger] x[i], '\u{1f}') by {}
        assert forall|i: int| 0 <= i < y.len() implies free_of(#[trigger] y[i], '\u{1f}') by {}
        lemma_joined_identify(x, y, FIELD@, '\u{1f}');
        assert(x[0] == y[0] && x[1] == y[1]);
        lemma_shape_identifies(a[k].shape, shape);
    }
}

/// **Tensors stand by object, and within an object by name.**
pub proof fn law_tensors_stand_by_object(
    a: (Seq<char>, Seq<char>),
    b: (Seq<char>, Seq<char>),
)
    ensures
        text_before(a.0, b.0) ==> pair_before(a, b) && !pair_before(b, a),
        a.0 == b.0 && text_before(a.1, b.1) ==> pair_before(a, b) && !pair_before(b, a),
        a == b ==> !pair_before(a, b),
{
    lemma_pair_before_strict(a, b);
    lemma_text_before_strict(a.0, b.0);
    lemma_text_before_strict(a.1, b.1);
}

/// **A surface is what was enumerated, once each and in order.** Nothing is
/// added or left out, and no tensor stands behind one it comes before.
pub proof fn law_a_surface_is_what_was_enumerated(entries: Seq<SurfaceTensor>)
    requires
        forall|i: int, j: int|
            #![trigger entries[i], entries[j]]
            0 <= i < j < entries.len() ==> !(entries[i].object@ == entries[j].object@
                && entries[i].tensor@ == entries[j].tensor@),
    ensures
        !repeats(stated(entries)),
        ranked(entries).to_multiset() == entries.to_multiset(),
        forall|i: int, j: int|
            #![trigger ranked(entries)[i], ranked(entries)[j]]
            0 <= i < j < ranked(entries).len() ==> !pair_before(
                ranked(entries)[j]@.pair(),
                ranked(entries)[i]@.pair(),
            ),
{
    crate::ranking::lemma_ranked(entries);
    let t = stated(entries);
    if repeats(t) {
        let (i, j) = choose|i: int, j: int|
            #![trigger t[i], t[j]]
            0 <= i < j < t.len() && t[i].pair() == t[j].pair();
        assert(t[i] == entries[i]@ && t[j] == entries[j]@);
    }
}

} // verus!

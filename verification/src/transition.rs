//! Moves between states, and who made them.
use crate::canon::{copy_names, join, joined, texts, FIELD, RECORD, SECTION};
use crate::digest::{digest_of, digest_text};
use crate::experiment::{copy_option, named, same_option};
use crate::identity::RepresentationStateId;
use crate::ranking::{ranked, settled, sort_by_rank, Ranked};
use crate::realization::RealizationId;
use crate::text::{
    before, lemma_text_before_strict, lemma_text_before_total, lemma_text_before_transitive, same,
    text_before,
};
use vstd::prelude::*;
use vstd::seq_lib::*;
use vstd::string::*;

verus! {

impl Ranked for String {
    open spec fn ahead(&self, other: &Self) -> bool {
        text_before(self@, other@)
    }

    proof fn asymmetric(a: &Self, b: &Self) {
        lemma_text_before_strict(a@, b@);
    }

    proof fn splits(a: &Self, b: &Self, c: &Self) {
        if a.ahead(c) && !a.ahead(b) {
            lemma_text_before_total(a@, b@);
            if b.ahead(a) {
                lemma_text_before_transitive(b@, a@, c@);
            }
        }
    }

    fn ranks_ahead(&self, other: &Self) -> (r: bool) {
        before(self.as_str(), other.as_str())
    }
}

/// One move: which edits it takes out and which it puts in.
#[derive(Debug, PartialEq, Eq)]
pub struct Action {
    pub label: String,
    pub removed: Vec<String>,
    pub added: Vec<String>,
}

/// A text put in its place among texts in order.
pub open spec fn placed(s: Seq<Seq<char>>, x: Seq<char>) -> Seq<Seq<char>>
    decreases s.len(),
{
    if s.len() == 0 || !text_before(x, s.last()) {
        s.push(x)
    } else {
        placed(s.drop_last(), x).push(s.last())
    }
}

/// The texts in order.
pub open spec fn in_text_order(s: Seq<Seq<char>>) -> Seq<Seq<char>>
    decreases s.len(),
{
    if s.len() == 0 {
        Seq::empty()
    } else {
        placed(in_text_order(s.drop_last()), s.last())
    }
}

/// One move, by its texts.
#[verifier::ext_equal]
pub struct Move {
    pub label: Seq<char>,
    pub removed: Seq<Seq<char>>,
    pub added: Seq<Seq<char>>,
}

impl Move {
    /// What the move's identity is a digest of: the edits in name order, so
    /// the order they were listed in is no part of it.
    pub open spec fn canonical(self) -> Seq<char> {
        "label="@ + self.label + SECTION@ + "removed="@ + joined(in_text_order(self.removed), RECORD@)
            + SECTION@ + "added="@ + joined(in_text_order(self.added), RECORD@)
    }

    /// The move's identity.
    pub open spec fn identity(self) -> Seq<char> {
        digest_of(self.canonical())
    }
}

impl View for Action {
    type V = Move;

    open spec fn view(&self) -> Move {
        Move { label: self.label@, removed: texts(self.removed@), added: texts(self.added@) }
    }
}

impl Clone for Action {
    fn clone(&self) -> (r: Self)
        ensures
            r@ == self@,
    {
        Action {
            label: self.label.clone(),
            removed: copy_names(&self.removed),
            added: copy_names(&self.added),
        }
    }
}

impl Action {
    /// A move that changes nothing yet.
    pub fn new(label: &str) -> (r: Action)
        ensures
            r@ == (Move { label: label@, removed: Seq::empty(), added: Seq::empty() }),
    {
        let r = Action { label: label.to_owned(), removed: Vec::new(), added: Vec::new() };
        assert(r@.removed =~= Seq::<Seq<char>>::empty());
        assert(r@.added =~= Seq::<Seq<char>>::empty());
        r
    }

    /// Taking this edit out, too.
    pub fn removing(self, name: &str) -> (r: Action)
        ensures
            r@ == (Move { removed: self@.removed.push(name@), ..self@ }),
    {
        let mut removed: Vec<String> = self.removed;
        removed.push(name.to_owned());
        assert(texts(removed@) =~= self@.removed.push(name@));
        Action { label: self.label, removed, added: self.added }
    }

    /// Putting this edit in, too.
    pub fn adding(self, name: &str) -> (r: Action)
        ensures
            r@ == (Move { added: self@.added.push(name@), ..self@ }),
    {
        let mut added: Vec<String> = self.added;
        added.push(name.to_owned());
        assert(texts(added@) =~= self@.added.push(name@));
        Action { label: self.label, removed: self.removed, added }
    }

    /// The move's identity.
    pub fn identity(&self) -> (r: String)
        ensures
            r@ == self@.identity(),
            r@.len() == 64,
    {
        let mut removed: Vec<String> = copy_names(&self.removed);
        sort_by_rank(&mut removed);
        let mut added: Vec<String> = copy_names(&self.added);
        sort_by_rank(&mut added);
        proof {
            lemma_ranked_names(self.removed@);
            lemma_ranked_names(self.added@);
        }
        let mut s: String = "label=".to_owned();
        s.append(self.label.as_str());
        s.append(SECTION);
        s.append("removed=");
        s.append(join(&removed, RECORD).as_str());
        s.append(SECTION);
        s.append("added=");
        s.append(join(&added, RECORD).as_str());
        digest_text(s.as_str())
    }
}

proof fn lemma_settled_names(s: Seq<String>, x: String)
    ensures
        texts(settled(s, x)) == placed(texts(s), x@),
    decreases s.len(),
{
    if s.len() == 0 || !x.ahead(&s.last()) {
        assert(texts(s.push(x)) =~= texts(s).push(x@));
    } else {
        lemma_settled_names(s.drop_last(), x);
        assert(texts(s.drop_last()) =~= texts(s).drop_last());
        assert(texts(settled(s, x)) =~= placed(texts(s), x@));
    }
}

proof fn lemma_ranked_names(s: Seq<String>)
    ensures
        texts(ranked(s)) == in_text_order(texts(s)),
    decreases s.len(),
{
    if s.len() == 0 {
        assert(texts(ranked(s)) =~= in_text_order(texts(s)));
    } else {
        lemma_ranked_names(s.drop_last());
        lemma_settled_names(ranked(s.drop_last()), s.last());
        assert(texts(s.drop_last()) =~= texts(s).drop_last());
    }
}

spec fn runs_on(s: Seq<Seq<char>>) -> bool {
    forall|i: int, j: int|
        #![trigger s[i], s[j]]
        0 <= i < j < s.len() ==> !text_before(s[j], s[i])
}

proof fn lemma_placed(s: Seq<Seq<char>>, x: Seq<char>)
    requires
        runs_on(s),
    ensures
        runs_on(placed(s, x)),
        placed(s, x).to_multiset() == s.to_multiset().insert(x),
        forall|y: Seq<char>|
            (forall|k: int| 0 <= k < s.len() ==> !text_before(y, #[trigger] s[k])) && !text_before(
                y,
                x,
            ) ==> (forall|k: int|
                0 <= k < placed(s, x).len() ==> !text_before(y, #[trigger] placed(s, x)[k])),
    decreases s.len(),
{
    broadcast use vstd::multiset::group_multiset_axioms;

    if s.len() == 0 || !text_before(x, s.last()) {
        to_multiset_build(s, x);
        let t = s.push(x);
        assert forall|a: int, b: int| #![trigger t[a], t[b]] 0 <= a < b < t.len() implies !text_before(
            t[b],
            t[a],
        ) by {
            if b == s.len() && a < s.len() - 1 && text_before(x, s[a]) {
                lemma_text_before_total(x, s.last());
                if text_before(s.last(), x) {
                    lemma_text_before_transitive(s.last(), x, s[a]);
                }
                assert(!text_before(s[s.len() - 1], s[a]));
            }
        }
    } else {
        let init = s.drop_last();
        let last = s.last();
        assert forall|i: int, j: int| #![trigger init[i], init[j]] 0 <= i < j < init.len() implies !text_before(
            init[j],
            init[i],
        ) by {
            assert(init[i] == s[i] && init[j] == s[j]);
        }
        lemma_placed(init, x);
        let u = placed(init, x);
        let t = u.push(last);
        to_multiset_build(u, last);
        to_multiset_build(init, last);
        assert(init.push(last) =~= s);
        assert(t.to_multiset() =~= s.to_multiset().insert(x));
        lemma_text_before_strict(x, last);
        assert forall|k: int| 0 <= k < init.len() implies !text_before(last, #[trigger] init[k]) by {
            assert(init[k] == s[k]);
            assert(s[s.len() - 1] == last);
        }
        assert forall|a: int, b: int| #![trigger t[a], t[b]] 0 <= a < b < t.len() implies !text_before(
            t[b],
            t[a],
        ) by {
            assert(t[a] == u[a]);
            if b < u.len() {
                assert(t[b] == u[b]);
            }
        }
        assert forall|y: Seq<char>|
            (forall|k: int| 0 <= k < s.len() ==> !text_before(y, #[trigger] s[k])) && !text_before(
                y,
                x,
            ) implies (forall|k: int| 0 <= k < t.len() ==> !text_before(y, #[trigger] t[k])) by {
            assert(!text_before(y, s[s.len() - 1]));
            assert forall|k: int| 0 <= k < init.len() implies !text_before(y, #[trigger] init[k]) by {
                assert(!text_before(y, s[k]));
            }
            assert forall|k: int| 0 <= k < t.len() implies !text_before(y, #[trigger] t[k]) by {
                if k < u.len() {
                    assert(!text_before(y, u[k]));
                }
            }
        }
    }
}

proof fn lemma_in_text_order(s: Seq<Seq<char>>)
    ensures
        runs_on(in_text_order(s)),
        in_text_order(s).to_multiset() == s.to_multiset(),
    decreases s.len(),
{
    if s.len() == 0 {
        assert(s =~= Seq::<Seq<char>>::empty());
    } else {
        let init = s.drop_last();
        lemma_in_text_order(init);
        lemma_placed(in_text_order(init), s.last());
        to_multiset_build(init, s.last());
        assert(init.push(s.last()) =~= s);
    }
}

proof fn lemma_one_order(p: Seq<Seq<char>>, q: Seq<Seq<char>>)
    requires
        runs_on(p),
        runs_on(q),
        p.to_multiset() == q.to_multiset(),
    ensures
        p == q,
    decreases p.len(),
{
    broadcast use vstd::multiset::group_multiset_axioms;

    to_multiset_len(p);
    to_multiset_len(q);
    if p.len() == 0 {
        assert(p =~= q);
    } else {
        let i = p.len() - 1;
        to_multiset_contains(p, p[i]);
        to_multiset_contains(q, p[i]);
        to_multiset_contains(q, q[i]);
        to_multiset_contains(p, q[i]);
        assert(p.contains(p[i]));
        assert(q.contains(q[i]));
        let a = q.index_of(p[i]);
        let b = p.index_of(q[i]);
        assert(!text_before(q[i], q[a])) by {
            lemma_text_before_strict(q[i], q[i]);
        }
        assert(!text_before(p[i], p[b])) by {
            lemma_text_before_strict(p[i], p[i]);
        }
        lemma_text_before_total(p[i], q[i]);
        assert(p[i] == q[i]);
        let u = p.drop_last();
        let v = q.drop_last();
        assert forall|m: int, n: int| #![trigger u[m], u[n]] 0 <= m < n < u.len() implies !text_before(
            u[n],
            u[m],
        ) by {
            assert(u[m] == p[m] && u[n] == p[n]);
        }
        assert forall|m: int, n: int| #![trigger v[m], v[n]] 0 <= m < n < v.len() implies !text_before(
            v[n],
            v[m],
        ) by {
            assert(v[m] == q[m] && v[n] == q[n]);
        }
        to_multiset_build(u, p[i]);
        to_multiset_build(v, q[i]);
        assert(u.push(p[i]) =~= p);
        assert(v.push(q[i]) =~= q);
        assert(u.to_multiset() =~= p.to_multiset().remove(p[i]));
        assert(v.to_multiset() =~= q.to_multiset().remove(q[i]));
        lemma_one_order(u, v);
        assert(p =~= q);
    }
}

/// **The order edits are listed in is no part of a move.**
pub proof fn law_edit_order_is_no_part_of_a_move(a: Move, b: Move)
    requires
        a.label == b.label,
        a.removed.to_multiset() == b.removed.to_multiset(),
        a.added.to_multiset() == b.added.to_multiset(),
    ensures
        a.identity() == b.identity(),
{
    lemma_in_text_order(a.removed);
    lemma_in_text_order(b.removed);
    lemma_in_text_order(a.added);
    lemma_in_text_order(b.added);
    lemma_one_order(in_text_order(a.removed), in_text_order(b.removed));
    lemma_one_order(in_text_order(a.added), in_text_order(b.added));
}

/// Who made a move, and what they said of it.
#[derive(Debug, PartialEq, Eq)]
pub struct Provenance {
    pub by: String,
    pub note: Option<String>,
}

/// Who made a move, by its texts.
pub struct Origin {
    pub by: Seq<char>,
    pub note: Option<Seq<char>>,
}

impl View for Provenance {
    type V = Origin;

    open spec fn view(&self) -> Origin {
        Origin { by: self.by@, note: named(self.note) }
    }
}

impl Clone for Provenance {
    fn clone(&self) -> (r: Self)
        ensures
            r == *self,
    {
        Provenance { by: self.by.clone(), note: copy_option(&self.note) }
    }
}

impl Provenance {
    /// Made by `by`.
    pub fn new(by: &str) -> (r: Provenance)
        ensures
            r@ == (Origin { by: by@, note: None }),
    {
        Provenance { by: by.to_owned(), note: None }
    }

    /// With this note.
    pub fn noting(self, note: &str) -> (r: Provenance)
        ensures
            r@ == (Origin { by: self@.by, note: Some(note@) }),
    {
        Provenance { by: self.by, note: Some(note.to_owned()) }
    }
}

/// What some observers recorded.
pub open spec fn origins(s: Seq<Provenance>) -> Seq<Origin> {
    s.map_values(|p: Provenance| p@)
}

/// The record with one observer more, unless it is there already.
pub open spec fn observed(s: Seq<Origin>, origin: Origin) -> Seq<Origin> {
    if s.contains(origin) {
        s
    } else {
        s.push(origin)
    }
}

/// One edge: a move from a state to a realization, with everyone who found it.
#[derive(Debug, Clone, PartialEq, Eq)]
pub struct Transition {
    parent: RepresentationStateId,
    child: RepresentationStateId,
    child_realization: RealizationId,
    action: Action,
    physical_delta: i64,
    provenance: Vec<Provenance>,
}

/// One edge, by its texts.
#[verifier::ext_equal]
pub struct Edge {
    pub parent: Seq<char>,
    pub child: Seq<char>,
    pub child_realization: Seq<char>,
    pub action: Move,
    pub physical_delta: i64,
    pub provenance: Seq<Origin>,
}

impl Edge {
    /// What the edge's identity is a digest of. Who found it is no part.
    pub open spec fn canonical(self) -> Seq<char> {
        "parent="@ + self.parent + FIELD@ + "child="@ + self.child + FIELD@ + "realization="@
            + self.child_realization + FIELD@ + "action="@ + self.action.identity()
    }

    /// The edge's identity.
    pub open spec fn identity(self) -> Seq<char> {
        digest_of(self.canonical())
    }
}

impl View for Transition {
    type V = Edge;

    closed spec fn view(&self) -> Edge {
        Edge {
            parent: self.parent@,
            child: self.child@,
            child_realization: self.child_realization@,
            action: self.action@,
            physical_delta: self.physical_delta,
            provenance: origins(self.provenance@),
        }
    }
}

impl Transition {
    /// An edge found once.
    pub fn new(
        parent: RepresentationStateId,
        child: RepresentationStateId,
        child_realization: RealizationId,
        action: Action,
        physical_delta: i64,
        provenance: Provenance,
    ) -> (r: Transition)
        ensures
            r@ == (Edge {
                parent: parent@,
                child: child@,
                child_realization: child_realization@,
                action: action@,
                physical_delta,
                provenance: seq![provenance@],
            }),
    {
        let mut found: Vec<Provenance> = Vec::new();
        found.push(provenance);
        assert(origins(found@) =~= seq![provenance@]);
        Transition {
            parent,
            child,
            child_realization,
            action,
            physical_delta,
            provenance: found,
        }
    }

    /// The state it departs from.
    pub fn parent(&self) -> (r: &RepresentationStateId)
        ensures
            r@ == self@.parent,
    {
        &self.parent
    }

    /// The state it arrives at.
    pub fn child(&self) -> (r: &RepresentationStateId)
        ensures
            r@ == self@.child,
    {
        &self.child
    }

    /// The realization it arrives at.
    pub fn child_realization(&self) -> (r: &RealizationId)
        ensures
            r@ == self@.child_realization,
    {
        &self.child_realization
    }

    /// The move.
    pub fn action(&self) -> (r: &Action)
        ensures
            r@ == self@.action,
    {
        &self.action
    }

    /// Bytes added, negative where they were removed.
    pub fn physical_delta(&self) -> (r: i64)
        ensures
            r == self@.physical_delta,
    {
        self.physical_delta
    }

    /// Everyone who found it.
    pub fn provenance(&self) -> (r: &Vec<Provenance>)
        ensures
            origins(r@) == self@.provenance,
    {
        &self.provenance
    }

    /// The edge's identity.
    pub fn identity(&self) -> (r: String)
        ensures
            r@ == self@.identity(),
            r@.len() == 64,
    {
        let mut s: String = "parent=".to_owned();
        s.append(self.parent.as_str());
        s.append(FIELD);
        s.append("child=");
        s.append(self.child.as_str());
        s.append(FIELD);
        s.append("realization=");
        s.append(self.child_realization.as_str());
        s.append(FIELD);
        s.append("action=");
        s.append(self.action.identity().as_str());
        digest_text(s.as_str())
    }

    /// The edge, found once more. The same record twice is one record.
    pub fn observe(&mut self, provenance: Provenance)
        ensures
            final(self)@ == (Edge {
                provenance: observed(old(self)@.provenance, provenance@),
                ..old(self)@
            }),
    {
        let mut known: bool = false;
        let mut i: usize = 0;
        let ghost held = origins(self.provenance@);
        while i < self.provenance.len()
            invariant
                i <= self.provenance@.len(),
                *self == *old(self),
                held == origins(self.provenance@),
                known <==> held.take(i as int).contains(provenance@),
            decreases self.provenance@.len() - i,
        {
            let ghost head = held.take(i as int);
            let hit: bool = same(self.provenance[i].by.as_str(), provenance.by.as_str())
                && same_option(&self.provenance[i].note, &provenance.note);
            proof {
                let next = held.take(i as int + 1);
                assert(next =~= head.push(held[i as int]));
                assert(held[i as int] == self.provenance@[i as int]@);
                if hit {
                    assert(next[i as int] == provenance@);
                } else if head.contains(provenance@) {
                    let k = head.index_of(provenance@);
                    assert(next[k] == provenance@);
                } else {
                    assert forall|k: int| 0 <= k < next.len() implies next[k] != provenance@ by {
                        if k < i {
                            assert(head[k] == next[k]);
                        }
                    }
                }
            }
            if hit {
                known = true;
            }
            i = i + 1;
        }
        assert(held.take(held.len() as int) =~= held);
        if !known {
            self.provenance.push(provenance);
            assert(origins(self.provenance@) =~= held.push(provenance@));
        }
    }
}

/// **Edits are listed by name.** What is listed is what was given, each edit
/// as often as it was, and none stands behind one it comes before.
pub proof fn law_edits_are_listed_by_name(s: Seq<Seq<char>>)
    ensures
        in_text_order(s).to_multiset() == s.to_multiset(),
        forall|i: int, j: int|
            #![trigger in_text_order(s)[i], in_text_order(s)[j]]
            0 <= i < j < in_text_order(s).len() ==> !text_before(
                in_text_order(s)[j],
                in_text_order(s)[i],
            ),
{
    lemma_in_text_order(s);
}

/// **An observer is recorded once.** Everyone who was on record stays, in the
/// same place; the observer is on record; and nobody else comes on it.
pub proof fn law_an_observer_is_recorded_once(s: Seq<Origin>, origin: Origin, other: Origin)
    ensures
        observed(s, origin).contains(origin),
        observed(s, origin).contains(other) <==> s.contains(other) || other == origin,
        forall|i: int| 0 <= i < s.len() ==> #[trigger] observed(s, origin)[i] == s[i],
        observed(s, origin).len() == s.len() + (if s.contains(origin) {
            0int
        } else {
            1
        }),
        observed(observed(s, origin), origin) == observed(s, origin),
{
    if !s.contains(origin) {
        let t = s.push(origin);
        assert(t[s.len() as int] == origin);
        if s.contains(other) {
            let k = s.index_of(other);
            assert(t[k] == other);
        }
        if t.contains(other) && other != origin {
            let k = t.index_of(other);
            assert(s[k] == other);
        }
    }
}

/// **A move is told by its label, what it takes out and what it puts in.**
/// Moves that differ in one of the three are written differently.
pub proof fn law_a_move_is_written_out(a: Move, b: Move)
    requires
        a.canonical() == b.canonical(),
    ensures
        a.removed == b.removed && a.added == b.added ==> a.label == b.label,
        a.label == b.label && a.added == b.added ==> joined(in_text_order(a.removed), RECORD@)
            == joined(in_text_order(b.removed), RECORD@),
        a.label == b.label && a.removed == b.removed ==> joined(in_text_order(a.added), RECORD@)
            == joined(in_text_order(b.added), RECORD@),
{
    let ra = joined(in_text_order(a.removed), RECORD@);
    let rb = joined(in_text_order(b.removed), RECORD@);
    let aa = joined(in_text_order(a.added), RECORD@);
    let ab = joined(in_text_order(b.added), RECORD@);
    let l = "label="@;
    let m = SECTION@ + "removed="@;
    let n = SECTION@ + "added="@;
    assert(a.canonical() =~= l + a.label + (m + ra + n + aa));
    assert(b.canonical() =~= l + b.label + (m + rb + n + ab));
    if a.removed == b.removed && a.added == b.added {
        lemma_between(l, a.label, m + ra + n + aa, b.label);
    }
    if a.label == b.label && a.added == b.added {
        assert(a.canonical() =~= (l + a.label + m) + ra + (n + aa));
        assert(b.canonical() =~= (l + a.label + m) + rb + (n + aa));
        lemma_between(l + a.label + m, ra, n + aa, rb);
    }
    if a.label == b.label && a.removed == b.removed {
        let none = Seq::<char>::empty();
        assert(a.canonical() =~= (l + a.label + m + ra + n) + aa + none);
        assert(b.canonical() =~= (l + a.label + m + ra + n) + ab + none);
        lemma_between(l + a.label + m + ra + n, aa, none, ab);
    }
}

proof fn lemma_between(head: Seq<char>, x: Seq<char>, tail: Seq<char>, y: Seq<char>)
    requires
        head + x + tail == head + y + tail,
    ensures
        x == y,
{
    let s = head + x + tail;
    let t = head + y + tail;
    assert(s.len() == t.len());
    assert forall|i: int| 0 <= i < x.len() implies x[i] == y[i] by {
        assert(s[head.len() + i] == x[i]);
        assert(t[head.len() + i] == y[i]);
    }
    assert(x =~= y);
}

} // verus!

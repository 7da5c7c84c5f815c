//! Tables and sets, walked in the order of their keys.
//!
//! A table's rows are kept in the order of [`Key::precedes`]; `insert` puts a
//! new key in its place and replaces the value of a key already held.
use crate::text::{
    before, lemma_text_before_strict, lemma_text_before_total, lemma_text_before_transitive, same,
    text_before,
};
use vstd::prelude::*;

verus! {

/// What a table can be keyed by: a value with a name, and a strict total
/// order on names.
pub trait Key: Sized {
    /// What identifies a key.
    type Name;

    /// The name of this key.
    spec fn name(&self) -> Self::Name;

    /// Whether one name comes before another.
    spec fn precedes(a: Self::Name, b: Self::Name) -> bool;

    /// No name comes before itself, and no two come before each other.
    proof fn strict(a: Self::Name, b: Self::Name)
        ensures
            !(Self::precedes(a, b) && Self::precedes(b, a)),
            !Self::precedes(a, a),
    ;

    /// The order chains.
    proof fn transitive(a: Self::Name, b: Self::Name, c: Self::Name)
        requires
            Self::precedes(a, b),
            Self::precedes(b, c),
        ensures
            Self::precedes(a, c),
    ;

    /// Of two different names one comes first.
    proof fn total(a: Self::Name, b: Self::Name)
        ensures
            a == b || Self::precedes(a, b) || Self::precedes(b, a),
    ;

    /// Whether two keys have the same name.
    fn same_key(&self, other: &Self) -> (r: bool)
        ensures
            r == (self.name() == other.name()),
    ;

    /// Whether this key comes before the other.
    fn comes_before(&self, other: &Self) -> (r: bool)
        ensures
            r == Self::precedes(self.name(), other.name()),
    ;
}

impl Key for String {
    type Name = Seq<char>;

    open spec fn name(&self) -> Seq<char> {
        self@
    }

    open spec fn precedes(a: Seq<char>, b: Seq<char>) -> bool {
        text_before(a, b)
    }

    proof fn strict(a: Seq<char>, b: Seq<char>) {
        lemma_text_before_strict(a, b);
    }

    proof fn transitive(a: Seq<char>, b: Seq<char>, c: Seq<char>) {
        lemma_text_before_transitive(a, b, c);
    }

    proof fn total(a: Seq<char>, b: Seq<char>) {
        lemma_text_before_total(a, b);
    }

    fn same_key(&self, other: &Self) -> (r: bool) {
        same(self.as_str(), other.as_str())
    }

    fn comes_before(&self, other: &Self) -> (r: bool) {
        before(self.as_str(), other.as_str())
    }
}

/// The position of the first row named `name`, or the number of rows.
pub open spec fn row_of<N, V>(rows: Seq<(N, V)>, name: N) -> int
    decreases rows.len(),
{
    if rows.len() == 0 || rows[0].0 == name {
        0
    } else {
        1 + row_of(rows.skip(1), name)
    }
}

/// The value held under `name`.
pub open spec fn lookup<N, V>(rows: Seq<(N, V)>, name: N) -> Option<V> {
    if row_of(rows, name) < rows.len() {
        Some(rows[row_of(rows, name)].1)
    } else {
        None
    }
}

/// Whether some row is named `name`.
pub open spec fn names<N, V>(rows: Seq<(N, V)>, name: N) -> bool {
    row_of(rows, name) < rows.len()
}

/// How many rows, from the first, carry names before `name`.
pub open spec fn place_of<K: Key, V>(rows: Seq<(K::Name, V)>, name: K::Name) -> int
    decreases rows.len(),
{
    if rows.len() == 0 || !K::precedes(rows[0].0, name) {
        0
    } else {
        1 + place_of::<K, V>(rows.skip(1), name)
    }
}

/// The rows after `name` is set to `value`.
pub open spec fn with_row<K: Key, V>(rows: Seq<(K::Name, V)>, name: K::Name, value: V) -> Seq<
    (K::Name, V),
> {
    if names(rows, name) {
        rows.update(row_of(rows, name), (name, value))
    } else {
        rows.insert(place_of::<K, V>(rows, name), (name, value))
    }
}

/// The rows stand in strict name order, so no name occurs twice.
pub open spec fn in_order<K: Key, V>(rows: Seq<(K::Name, V)>) -> bool {
    forall|i: int, j: int| 0 <= i < j < rows.len() ==> K::precedes(rows[i].0, rows[j].0)
}

/// `row_of` is the first row of that name.
pub proof fn lemma_row_of<N, V>(rows: Seq<(N, V)>, name: N)
    ensures
        0 <= row_of(rows, name) <= rows.len(),
        row_of(rows, name) < rows.len() ==> rows[row_of(rows, name)].0 == name,
        forall|i: int| 0 <= i < row_of(rows, name) ==> (#[trigger] rows[i]).0 != name,
    decreases rows.len(),
{
    if rows.len() == 0 || rows[0].0 == name {
    } else {
        let rest = rows.skip(1);
        lemma_row_of(rest, name);
        assert forall|i: int| 0 <= i < row_of(rows, name) implies (#[trigger] rows[i]).0
            != name by {
            if i > 0 {
                assert(rest[i - 1] == rows[i]);
            }
        }
    }
}

/// A row that has the name, with none before it that has, is `row_of`.
pub proof fn lemma_row_of_is<N, V>(rows: Seq<(N, V)>, name: N, k: int)
    requires
        0 <= k <= rows.len(),
        k < rows.len() ==> rows[k].0 == name,
        forall|i: int| 0 <= i < k ==> (#[trigger] rows[i]).0 != name,
    ensures
        row_of(rows, name) == k,
{
    lemma_row_of(rows, name);
    let r = row_of(rows, name);
    if r < k {
        assert(rows[r].0 != name);
    } else if k < r {
        assert(rows[k].0 != name);
    }
}

/// A name is held exactly when some row carries it.
pub proof fn lemma_names<N, V>(rows: Seq<(N, V)>, name: N)
    ensures
        names(rows, name) <==> exists|i: int| 0 <= i < rows.len() && (#[trigger] rows[i]).0 == name,
        names(rows, name) <==> lookup(rows, name) is Some,
{
    lemma_row_of(rows, name);
}

/// `place_of` is the first row that does not come before the name.
pub proof fn lemma_place_of<K: Key, V>(rows: Seq<(K::Name, V)>, name: K::Name)
    ensures
        0 <= place_of::<K, V>(rows, name) <= rows.len(),
        place_of::<K, V>(rows, name) < rows.len() ==> !K::precedes(rows[place_of::<K, V>(rows, name)].0, name),
        forall|i: int|
            0 <= i < place_of::<K, V>(rows, name) ==> K::precedes((#[trigger] rows[i]).0, name),
    decreases rows.len(),
{
    if rows.len() == 0 || !K::precedes(rows[0].0, name) {
    } else {
        let rest = rows.skip(1);
        lemma_place_of::<K, V>(rest, name);
        assert forall|i: int| 0 <= i < place_of::<K, V>(rows, name) implies K::precedes(
            (#[trigger] rows[i]).0,
            name,
        ) by {
            if i > 0 {
                assert(rest[i - 1] == rows[i]);
            }
        }
    }
}

/// The first row that does not come before the name is `place_of`.
pub proof fn lemma_place_of_is<K: Key, V>(rows: Seq<(K::Name, V)>, name: K::Name, k: int)
    requires
        0 <= k <= rows.len(),
        k < rows.len() ==> !K::precedes(rows[k].0, name),
        forall|i: int| 0 <= i < k ==> K::precedes((#[trigger] rows[i]).0, name),
    ensures
        place_of::<K, V>(rows, name) == k,
{
    lemma_place_of::<K, V>(rows, name);
    let r = place_of::<K, V>(rows, name);
    if r < k {
        assert(K::precedes(rows[r].0, name));
    } else if k < r {
        assert(K::precedes(rows[k].0, name));
    }
}

/// **Setting a name changes what is held under that name and nothing else.**
pub proof fn lemma_with_row_lookup<K: Key, V>(
    rows: Seq<(K::Name, V)>,
    name: K::Name,
    value: V,
    other: K::Name,
)
    ensures
        lookup(with_row::<K, V>(rows, name, value), name) == Some(value),
        other != name ==> lookup(with_row::<K, V>(rows, name, value), other) == lookup(rows, other),
        names(with_row::<K, V>(rows, name, value), other) == (names(rows, other) || other == name),
{
    let after = with_row::<K, V>(rows, name, value);
    lemma_row_of(rows, name);
    lemma_row_of(rows, other);
    lemma_place_of::<K, V>(rows, name);
    if names(rows, name) {
        let r = row_of(rows, name);
        lemma_row_of_is(after, name, r);
        if other != name {
            lemma_row_of_is(after, other, row_of(rows, other));
        }
    } else {
        let p = place_of::<K, V>(rows, name);
        assert forall|i: int| 0 <= i < p implies (#[trigger] after[i]).0 != name by {
            assert(after[i] == rows[i]);
        }
        lemma_row_of_is(after, name, p);
        if other != name {
            let q = row_of(rows, other);
            let q2 = if q < p {
                q
            } else {
                q + 1
            };
            assert forall|i: int| 0 <= i < q2 implies (#[trigger] after[i]).0 != other by {
                if i < p {
                    assert(after[i] == rows[i]);
                } else if i > p {
                    assert(after[i] == rows[i - 1]);
                }
            }
            if q < rows.len() {
                assert(after[q2] == rows[q]);
            }
            lemma_row_of_is(after, other, q2);
        }
    }
}

/// A row is added exactly where the name is new.
pub proof fn lemma_with_row_grows<K: Key, V>(rows: Seq<(K::Name, V)>, name: K::Name, value: V)
    ensures
        with_row::<K, V>(rows, name, value).len() == rows.len() + (if names(rows, name) {
            0int
        } else {
            1
        }),
{
    lemma_row_of(rows, name);
    lemma_place_of::<K, V>(rows, name);
}

/// **Setting a name keeps the rows in strict name order.**
pub proof fn lemma_with_row_in_order<K: Key, V>(rows: Seq<(K::Name, V)>, name: K::Name, value: V)
    requires
        in_order::<K, V>(rows),
    ensures
        in_order::<K, V>(with_row::<K, V>(rows, name, value)),
{
    let after = with_row::<K, V>(rows, name, value);
    lemma_row_of(rows, name);
    lemma_place_of::<K, V>(rows, name);
    if names(rows, name) {
        assert forall|i: int, j: int| 0 <= i < j < after.len() implies K::precedes(
            after[i].0,
            after[j].0,
        ) by {
            assert(after[i].0 == rows[i].0);
            assert(after[j].0 == rows[j].0);
        }
    } else {
        let p = place_of::<K, V>(rows, name);
        assert forall|i: int, j: int| 0 <= i < j < after.len() implies K::precedes(
            after[i].0,
            after[j].0,
        ) by {
            if j < p {
                assert(after[i] == rows[i] && after[j] == rows[j]);
            } else if j == p {
                assert(after[i] == rows[i]);
            } else {
                assert(after[j] == rows[j - 1]);
                assert(rows[j - 1].0 != name);
                if p == j - 1 {
                } else {
                    assert(K::precedes(rows[p].0, rows[j - 1].0));
                }
                K::total(rows[p].0, name);
                if rows[p].0 != name {
                    assert(K::precedes(name, rows[p].0));
                    if p < j - 1 {
                        K::transitive(name, rows[p].0, rows[j - 1].0);
                    }
                } else {
                    assert(false);
                }
                if i < p {
                    assert(after[i] == rows[i]);
                } else if i > p {
                    assert(after[i] == rows[i - 1]);
                }
            }
        }
    }
}

/// In strict order a name stands in one row only.
pub proof fn lemma_in_order_unique<K: Key, V>(rows: Seq<(K::Name, V)>, i: int, j: int)
    requires
        in_order::<K, V>(rows),
        0 <= i < rows.len(),
        0 <= j < rows.len(),
        rows[i].0 == rows[j].0,
    ensures
        i == j,
{
    if i < j {
        K::strict(rows[i].0, rows[j].0);
    } else if j < i {
        K::strict(rows[j].0, rows[i].0);
    }
}

/// The rows with every value seen through `f`.
pub open spec fn seen<N, V, W>(rows: Seq<(N, V)>, f: spec_fn(V) -> W) -> Seq<(N, W)> {
    rows.map_values(|r: (N, V)| (r.0, f(r.1)))
}

/// A row is found by its name, whatever its value is seen as.
pub proof fn lemma_seen_lookup<N, V, W>(rows: Seq<(N, V)>, f: spec_fn(V) -> W, name: N)
    ensures
        row_of(seen(rows, f), name) == row_of(rows, name),
        names(seen(rows, f), name) == names(rows, name),
        lookup(seen(rows, f), name) == (match lookup(rows, name) {
            Some(v) => Some(f(v)),
            None => None,
        }),
{
    lemma_row_of(rows, name);
    let r = row_of(rows, name);
    assert forall|i: int| 0 <= i < r implies (#[trigger] seen(rows, f)[i]).0 != name by {
        assert(rows[i].0 != name);
    }
    lemma_row_of_is(seen(rows, f), name, r);
}

/// Setting a name and seeing the values through `f` can change places.
pub proof fn lemma_seen_with_row<K: Key, V, W>(
    rows: Seq<(K::Name, V)>,
    f: spec_fn(V) -> W,
    name: K::Name,
    value: V,
)
    ensures
        seen(with_row::<K, V>(rows, name, value), f) == with_row::<K, W>(
            seen(rows, f),
            name,
            f(value),
        ),
{
    let shown = seen(rows, f);
    lemma_seen_lookup(rows, f, name);
    lemma_row_of(rows, name);
    lemma_place_of::<K, V>(rows, name);
    let p = place_of::<K, V>(rows, name);
    assert forall|i: int| 0 <= i < p implies K::precedes((#[trigger] shown[i]).0, name) by {
        assert(K::precedes(rows[i].0, name));
    }
    lemma_place_of_is::<K, W>(shown, name, p);
    assert(seen(with_row::<K, V>(rows, name, value), f) =~= with_row::<K, W>(
        shown,
        name,
        f(value),
    ));
}

/// In order, whatever the values are seen as.
pub proof fn lemma_seen_in_order<K: Key, V, W>(rows: Seq<(K::Name, V)>, f: spec_fn(V) -> W)
    requires
        in_order::<K, V>(rows),
    ensures
        in_order::<K, W>(seen(rows, f)),
{
    let shown = seen(rows, f);
    assert forall|i: int, j: int| 0 <= i < j < shown.len() implies K::precedes(
        shown[i].0,
        shown[j].0,
    ) by {
        assert(K::precedes(rows[i].0, rows[j].0));
    }
}

/// **Rows in order that answer alike are the same rows.**
pub proof fn lemma_in_order_extensional<K: Key, V>(
    a: Seq<(K::Name, V)>,
    b: Seq<(K::Name, V)>,
)
    requires
        in_order::<K, V>(a),
        in_order::<K, V>(b),
        forall|n: K::Name| lookup(a, n) == lookup(b, n),
    ensures
        a == b,
    decreases a.len(),
{
    if a.len() == 0 {
        if b.len() > 0 {
            lemma_row_of_is(b, b[0].0, 0);
            assert(lookup(a, b[0].0) == lookup(b, b[0].0));
            lemma_row_of(a, b[0].0);
        }
        assert(a =~= b);
    } else {
        let n = a[0].0;
        lemma_row_of_is(a, n, 0);
        assert(lookup(b, n) == Some(a[0].1));
        lemma_row_of(b, n);
        let k = row_of(b, n);
        if k > 0 {
            let m = b[0].0;
            lemma_row_of_is(b, m, 0);
            assert(lookup(a, m) == Some(b[0].1));
            lemma_row_of(a, m);
            let l = row_of(a, m);
            K::strict(n, m);
            assert(K::precedes(m, b[k].0));
            if l > 0 {
                assert(K::precedes(a[0].0, a[l].0));
            }
            assert(false);
        }
        let x = a.skip(1);
        let y = b.skip(1);
        assert forall|i: int, j: int| 0 <= i < j < x.len() implies K::precedes(x[i].0, x[j].0) by {
            assert(x[i] == a[i + 1] && x[j] == a[j + 1]);
        }
        assert forall|i: int, j: int| 0 <= i < j < y.len() implies K::precedes(y[i].0, y[j].0) by {
            assert(y[i] == b[i + 1] && y[j] == b[j + 1]);
        }
        assert forall|q: K::Name| lookup(x, q) == lookup(y, q) by {
            assert(lookup(a, q) == lookup(b, q));
            lemma_row_of(x, q);
            lemma_row_of(y, q);
            if q == n {
                if names(x, q) {
                    let i = row_of(x, q);
                    assert(x[i] == a[i + 1]);
                    lemma_in_order_unique::<K, V>(a, 0, i + 1);
                }
                if names(y, q) {
                    let i = row_of(y, q);
                    assert(y[i] == b[i + 1]);
                    lemma_in_order_unique::<K, V>(b, 0, i + 1);
                }
            } else {
                assert(row_of(a, q) == 1 + row_of(x, q));
                assert(row_of(b, q) == 1 + row_of(y, q));
            }
        }
        lemma_in_order_extensional::<K, V>(x, y);
        assert(a =~= seq![a[0]] + x);
        assert(b =~= seq![b[0]] + y);
    }
}

/// In strict order a row is what its name is looked up as.
pub proof fn lemma_lookup_at<K: Key, V>(rows: Seq<(K::Name, V)>, i: int)
    requires
        in_order::<K, V>(rows),
        0 <= i < rows.len(),
    ensures
        row_of(rows, rows[i].0) == i,
        lookup(rows, rows[i].0) == Some(rows[i].1),
        names(rows, rows[i].0),
{
    lemma_row_of(rows, rows[i].0);
    lemma_names(rows, rows[i].0);
    lemma_in_order_unique::<K, V>(rows, row_of(rows, rows[i].0), i);
}

/// A table from keys to values, walked in key order.
#[derive(Debug, Clone, PartialEq, Eq)]
pub struct Table<K, V> {
    entries: Vec<(K, V)>,
}

impl<K: Key, V> Table<K, V> {
    /// The rows, in the order they are walked.
    pub closed spec fn rows(&self) -> Seq<(K::Name, V)> {
        self.entries@.map_values(|e: (K, V)| (e.0.name(), e.1))
    }

    /// An empty table.
    pub fn new() -> (r: Self)
        ensures
            r.rows() == Seq::<(K::Name, V)>::empty(),
            in_order::<K, V>(r.rows()),
    {
        let r = Table { entries: Vec::new() };
        assert(r.rows() =~= Seq::<(K::Name, V)>::empty());
        r
    }

    /// How many names are held.
    pub fn len(&self) -> (r: usize)
        ensures
            r == self.rows().len(),
    {
        self.entries.len()
    }

    /// Whether no name is held.
    pub fn is_empty(&self) -> (r: bool)
        ensures
            r == (self.rows().len() == 0),
    {
        self.entries.len() == 0
    }

    /// The key of row `i`.
    pub fn key_at(&self, i: usize) -> (r: &K)
        requires
            i < self.rows().len(),
        ensures
            r.name() == self.rows()[i as int].0,
    {
        &self.entries[i].0
    }

    /// The value of row `i`.
    pub fn value_at(&self, i: usize) -> (r: &V)
        requires
            i < self.rows().len(),
        ensures
            *r == self.rows()[i as int].1,
    {
        &self.entries[i].1
    }

    /// The row named `key`, or the number of rows.
    pub fn find(&self, key: &K) -> (r: usize)
        ensures
            r == row_of(self.rows(), key.name()),
    {
        let mut i: usize = 0;
        while i < self.entries.len()
            invariant
                i <= self.entries@.len(),
                self.rows().len() == self.entries@.len(),
                forall|j: int| 0 <= j < i ==> (#[trigger] self.rows()[j]).0 != key.name(),
            decreases self.entries@.len() - i,
        {
            assert(self.rows()[i as int].0 == self.entries@[i as int].0.name());
            if self.entries[i].0.same_key(key) {
                proof {
                    lemma_row_of_is(self.rows(), key.name(), i as int);
                }
                return i;
            }
            i = i + 1;
        }
        proof {
            lemma_row_of_is(self.rows(), key.name(), i as int);
        }
        i
    }

    /// Whether `key` is held.
    pub fn contains(&self, key: &K) -> (r: bool)
        ensures
            r == names(self.rows(), key.name()),
    {
        self.find(key) < self.entries.len()
    }

    /// The value held under `key`.
    pub fn get(&self, key: &K) -> (r: Option<&V>)
        ensures
            r matches Some(v) ==> lookup(self.rows(), key.name()) == Some(*v),
            r is None ==> lookup(self.rows(), key.name()) is None,
    {
        let i: usize = self.find(key);
        if i < self.entries.len() {
            Some(&self.entries[i].1)
        } else {
            None
        }
    }

    /// The values, in row order.
    pub fn into_values(self) -> (r: Vec<V>)
        ensures
            r@.len() == self.rows().len(),
            forall|i: int| 0 <= i < r@.len() ==> #[trigger] r@[i] == self.rows()[i].1,
    {
        let ghost all = self.entries@;
        let mut back: Vec<V> = Vec::new();
        let mut entries: Vec<(K, V)> = self.entries;
        while entries.len() > 0
            invariant
                entries@ == all.take(all.len() - back@.len()),
                back@.len() <= all.len(),
                forall|i: int| 0 <= i < back@.len() ==> #[trigger] back@[i] == all[all.len() - 1 - i].1,
            decreases entries@.len(),
        {
            match entries.pop() {
                Some(e) => {
                    assert(e == all[all.len() - 1 - back@.len()]);
                    back.push(e.1);
                    assert(entries@ =~= all.take(all.len() - back@.len()));
                },
                None => {},
            }
        }
        assert(back@.len() == all.len());
        let mut v: Vec<V> = Vec::new();
        while back.len() > 0
            invariant
                v@.len() + back@.len() == all.len(),
                forall|i: int| 0 <= i < back@.len() ==> #[trigger] back@[i] == all[all.len() - 1 - i].1,
                forall|i: int| 0 <= i < v@.len() ==> #[trigger] v@[i] == all[i].1,
            decreases back@.len(),
        {
            assert(back@[back@.len() - 1] == all[all.len() - back@.len()].1);
            match back.pop() {
                Some(x) => v.push(x),
                None => {},
            }
        }
        v
    }

    /// The value of row `i`, to be changed in place.
    pub fn value_at_mut(&mut self, i: usize) -> (r: &mut V)
        requires
            i < old(self).rows().len(),
        ensures
            *r == old(self).rows()[i as int].1,
            final(self).rows() == old(self).rows().update(
                i as int,
                (old(self).rows()[i as int].0, *final(r)),
            ),
    {
        &mut self.entries[i].1
    }

    /// Set `key` to `value`.
    pub fn insert(&mut self, key: K, value: V)
        ensures
            final(self).rows() == with_row::<K, V>(old(self).rows(), key.name(), value),
            in_order::<K, V>(old(self).rows()) ==> in_order::<K, V>(final(self).rows()),
    {
        let ghost before_rows = self.rows();
        let at: usize = self.find(&key);
        if at < self.entries.len() {
            proof {
                lemma_row_of(self.rows(), key.name());
            }
            let ghost row = (key.name(), value);
            self.entries[at] = (key, value);
            assert(self.rows() =~= before_rows.update(at as int, row));
        } else {
            let mut i: usize = 0;
            while i < self.entries.len() && self.entries[i].0.comes_before(&key)
                invariant
                    i <= self.entries@.len(),
                    self.rows().len() == self.entries@.len(),
                    self.rows() == before_rows,
                    forall|j: int| 0 <= j < i ==> K::precedes((#[trigger] self.rows()[j]).0, key.name()),
                decreases self.entries@.len() - i,
            {
                assert(self.rows()[i as int].0 == self.entries@[i as int].0.name());
                i = i + 1;
            }
            proof {
                if i < self.entries@.len() {
                    assert(self.rows()[i as int].0 == self.entries@[i as int].0.name());
                }
                lemma_place_of_is::<K, V>(before_rows, key.name(), i as int);
            }
            let ghost row = (key.name(), value);
            self.entries.insert(i, (key, value));
            assert(self.rows() =~= before_rows.insert(i as int, row));
        }
        proof {
            if in_order::<K, V>(before_rows) {
                lemma_with_row_in_order::<K, V>(before_rows, key.name(), value);
            }
        }
    }
}

/// The rows without the one named `name`.
pub open spec fn without_row<N, V>(rows: Seq<(N, V)>, name: N) -> Seq<(N, V)> {
    if names(rows, name) {
        rows.remove(row_of(rows, name))
    } else {
        rows
    }
}

/// A set of names, walked in name order.
#[derive(Debug, Clone, PartialEq, Eq)]
pub struct NameSet {
    table: Table<String, ()>,
}

impl NameSet {
    /// The rows of the set.
    pub closed spec fn rows(&self) -> Seq<(Seq<char>, ())> {
        self.table.rows()
    }

    /// Whether the set holds `name`.
    pub open spec fn has(&self, name: Seq<char>) -> bool {
        names(self.rows(), name)
    }

    /// The empty set.
    pub fn new() -> (r: Self)
        ensures
            r.rows() == Seq::<(Seq<char>, ())>::empty(),
            in_order::<String, ()>(r.rows()),
            forall|n: Seq<char>| !r.has(n),
    {
        NameSet { table: Table::new() }
    }

    /// The same names.
    pub fn copy(&self) -> (r: Self)
        ensures
            r.rows() == self.rows(),
    {
        let mut entries: Vec<(String, ())> = Vec::new();
        let mut i: usize = 0;
        while i < self.table.entries.len()
            invariant
                i <= self.table.entries@.len(),
                entries@ == self.table.entries@.take(i as int),
            decreases self.table.entries@.len() - i,
        {
            entries.push((self.table.entries[i].0.clone(), self.table.entries[i].1));
            assert(entries@ =~= self.table.entries@.take(i as int + 1));
            i = i + 1;
        }
        assert(entries@ =~= self.table.entries@);
        let r = NameSet { table: Table { entries } };
        assert(r.rows() =~= self.rows());
        r
    }

    /// Take `name` out.
    pub fn remove(&mut self, name: &str)
        ensures
            final(self).rows() == without_row(old(self).rows(), name@),
            in_order::<String, ()>(old(self).rows()) ==> in_order::<String, ()>(final(self).rows())
                && forall|n: Seq<char>| final(self).has(n) == (old(self).has(n) && n != name@),
    {
        proof {
            if in_order::<String, ()>(self.rows()) {
                assert forall|n: Seq<char>|
                    names(without_row(self.rows(), name@), n) == (self.has(n) && n != name@) by {
                    lemma_without_row::<String, ()>(self.rows(), name@, n);
                }
                lemma_without_row::<String, ()>(self.rows(), name@, name@);
            }
        }
        let at: usize = self.table.find(&name.to_owned());
        let ghost rows = self.table.rows();
        proof {
            lemma_row_of(rows, name@);
        }
        if at < self.table.entries.len() {
            let _ = self.table.entries.remove(at);
            assert(self.table.rows() =~= rows.remove(at as int));
        }
    }

    /// How many names are held.
    pub fn len(&self) -> (r: usize)
        ensures
            r == self.rows().len(),
    {
        self.table.len()
    }

    /// Whether no name is held.
    pub fn is_empty(&self) -> (r: bool)
        ensures
            r == (self.rows().len() == 0),
    {
        self.table.is_empty()
    }

    /// The name in place `i`.
    pub fn name_at(&self, i: usize) -> (r: &String)
        requires
            i < self.rows().len(),
        ensures
            r@ == self.rows()[i as int].0,
    {
        self.table.key_at(i)
    }

    /// Whether `name` is held.
    pub fn contains(&self, name: &str) -> (r: bool)
        ensures
            r == self.has(name@),
    {
        self.table.contains(&name.to_owned())
    }

    /// Add `name`.
    pub fn insert(&mut self, name: String)
        ensures
            final(self).rows() == with_row::<String, ()>(old(self).rows(), name@, ()),
            forall|n: Seq<char>| final(self).has(n) == (old(self).has(n) || n == name@),
            in_order::<String, ()>(old(self).rows()) ==> in_order::<String, ()>(final(self).rows()),
    {
        let ghost rows = self.table.rows();
        self.table.insert(name, ());
        proof {
            assert forall|n: Seq<char>| self.has(n) == (old(self).has(n) || n == name@) by {
                lemma_with_row_lookup::<String, ()>(rows, name@, (), n);
            }
            if in_order::<String, ()>(rows) {
                lemma_with_row_in_order::<String, ()>(rows, name@, ());
            }
        }
    }
}

/// **Taking a name out takes out that name and nothing else.** What is held
/// under every other name stays, and the rows stay in order.
pub proof fn lemma_without_row<K: Key, V>(rows: Seq<(K::Name, V)>, name: K::Name, other: K::Name)
    requires
        in_order::<K, V>(rows),
    ensures
        in_order::<K, V>(without_row(rows, name)),
        names(without_row(rows, name), other) <==> names(rows, other) && other != name,
        other != name ==> lookup(without_row(rows, name), other) == lookup(rows, other),
        without_row(rows, name).len() == rows.len() - (if names(rows, name) {
            1int
        } else {
            0
        }),
{
    let after = without_row(rows, name);
    lemma_row_of(rows, name);
    lemma_row_of(rows, other);
    lemma_row_of(after, other);
    let r = row_of(rows, name);
    if names(rows, name) {
        assert forall|i: int, j: int| 0 <= i < j < after.len() implies K::precedes(
            after[i].0,
            after[j].0,
        ) by {
            let a = if i < r {
                i
            } else {
                i + 1
            };
            let b = if j < r {
                j
            } else {
                j + 1
            };
            assert(after[i] == rows[a] && after[j] == rows[b]);
        }
        if names(after, other) {
            let i = row_of(after, other);
            let a = if i < r {
                i
            } else {
                i + 1
            };
            assert(after[i] == rows[a]);
            if other == name {
                lemma_in_order_unique::<K, V>(rows, a, r);
            } else {
                lemma_in_order_unique::<K, V>(rows, a, row_of(rows, other));
            }
        }
        if names(rows, other) && other != name {
            let k = row_of(rows, other);
            let i = if k < r {
                k
            } else {
                k - 1
            };
            assert(after[i] == rows[k]);
            assert(after[i].0 == other);
        }
    }
}

/// **A row is held under its own name.** In a table in order, what is looked
/// up under a row's name is that row's value, and a name no row carries is
/// not held.
pub proof fn law_a_row_is_held_under_its_name<K: Key, V>(rows: Seq<(K::Name, V)>, i: int)
    requires
        in_order::<K, V>(rows),
        0 <= i < rows.len(),
    ensures
        names(rows, rows[i].0),
        lookup(rows, rows[i].0) == Some(rows[i].1),
        forall|n: K::Name|
            (forall|k: int| 0 <= k < rows.len() ==> (#[trigger] rows[k]).0 != n)
                ==> #[trigger] lookup(rows, n) is None,
{
    lemma_row_of(rows, rows[i].0);
    lemma_in_order_unique::<K, V>(rows, i, row_of(rows, rows[i].0));
    assert forall|n: K::Name|
        (forall|k: int| 0 <= k < rows.len() ==> (#[trigger] rows[k]).0 != n)
            implies #[trigger] lookup(rows, n) is None by {
        lemma_row_of(rows, n);
    }
}

} // verus!

//! Sorting by rank.
use vstd::multiset::Multiset;
use vstd::prelude::*;
use vstd::seq_lib::*;

verus! {

/// Values with a rank. Two values may share one.
pub trait Ranked: Sized {
    /// Whether this value ranks ahead of the other.
    spec fn ahead(&self, other: &Self) -> bool;

    /// No two values rank ahead of each other.
    proof fn asymmetric(a: &Self, b: &Self)
        ensures
            !(a.ahead(b) && b.ahead(a)),
    ;

    /// Where one value is ahead of another, every third is behind the first
    /// or ahead of the second.
    proof fn splits(a: &Self, b: &Self, c: &Self)
        ensures
            a.ahead(c) ==> a.ahead(b) || b.ahead(c),
    ;

    /// Whether this value ranks ahead of the other.
    fn ranks_ahead(&self, other: &Self) -> (r: bool)
        ensures
            r == self.ahead(other),
    ;
}

/// Nothing stands behind a value it ranks ahead of.
pub open spec fn in_rank<T: Ranked>(s: Seq<T>) -> bool {
    forall|i: int, j: int| #![trigger s[i], s[j]] 0 <= i < j < s.len() ==> !s[j].ahead(&s[i])
}

/// `x` put behind everything it does not rank ahead of, from the back.
pub open spec fn settled<T: Ranked>(s: Seq<T>, x: T) -> Seq<T>
    decreases s.len(),
{
    if s.len() == 0 || !x.ahead(&s.last()) {
        s.push(x)
    } else {
        settled(s.drop_last(), x).push(s.last())
    }
}

/// The values in rank order, those of one rank in the order they came.
pub open spec fn ranked<T: Ranked>(s: Seq<T>) -> Seq<T>
    decreases s.len(),
{
    if s.len() == 0 {
        Seq::empty()
    } else {
        settled(ranked(s.drop_last()), s.last())
    }
}

/// `x` put behind everything it does not come ahead of, from the back.
pub open spec fn settled_by<A>(s: Seq<A>, x: A, ahead: spec_fn(A, A) -> bool) -> Seq<A>
    decreases s.len(),
{
    if s.len() == 0 || !ahead(x, s.last()) {
        s.push(x)
    } else {
        settled_by(s.drop_last(), x, ahead).push(s.last())
    }
}

/// The values in the order `ahead` states, those it does not tell apart in the
/// order they came.
pub open spec fn ranked_by<A>(s: Seq<A>, ahead: spec_fn(A, A) -> bool) -> Seq<A>
    decreases s.len(),
{
    if s.len() == 0 {
        Seq::empty()
    } else {
        settled_by(ranked_by(s.drop_last(), ahead), s.last(), ahead)
    }
}

/// `ahead` ranks values: no two come ahead of each other, and where one comes
/// ahead of another, every third is behind the first or ahead of the second.
pub open spec fn ranks<A>(ahead: spec_fn(A, A) -> bool) -> bool {
    &&& forall|a: A, b: A| #[trigger] ahead(a, b) ==> !ahead(b, a)
    &&& forall|a: A, b: A, c: A|
        #![trigger ahead(a, b), ahead(a, c)]
        #![trigger ahead(a, c), ahead(b, c)]
        ahead(a, c) ==> ahead(a, b) || ahead(b, c)
}

/// Nothing stands behind a value it comes ahead of.
pub open spec fn in_rank_by<A>(s: Seq<A>, ahead: spec_fn(A, A) -> bool) -> bool {
    forall|i: int, j: int|
        #![trigger s[i], s[j]]
        0 <= i < j < s.len() ==> !ahead(s[j], s[i])
}

/// Where `x` is put.
pub proof fn lemma_settled_by<A>(s: Seq<A>, x: A, ahead: spec_fn(A, A) -> bool) -> (at: int)
    ensures
        0 <= at <= s.len(),
        settled_by(s, x, ahead) == s.insert(at, x),
        forall|k: int| at <= k < s.len() ==> ahead(x, #[trigger] s[k]),
        at > 0 ==> !ahead(x, s[at - 1]),
    decreases s.len(),
{
    if s.len() == 0 || !ahead(x, s.last()) {
        assert(s.push(x) =~= s.insert(s.len() as int, x));
        s.len() as int
    } else {
        let init = s.drop_last();
        let at = lemma_settled_by(init, x, ahead);
        assert(init.insert(at, x).push(s.last()) =~= s.insert(at, x));
        assert forall|k: int| at <= k < s.len() implies ahead(x, #[trigger] s[k]) by {
            if k < init.len() {
                assert(init[k] == s[k]);
            }
        }
        if at > 0 {
            assert(init[at - 1] == s[at - 1]);
        }
        at
    }
}

/// **Ranking rearranges the values and puts them in order.**
pub proof fn lemma_ranked_by<A>(s: Seq<A>, ahead: spec_fn(A, A) -> bool)
    requires
        ranks(ahead),
    ensures
        in_rank_by(ranked_by(s, ahead), ahead),
        ranked_by(s, ahead).to_multiset() == s.to_multiset(),
        ranked_by(s, ahead).len() == s.len(),
    decreases s.len(),
{
    if s.len() == 0 {
        assert(s =~= Seq::<A>::empty());
    } else {
        let init = s.drop_last();
        let x = s.last();
        lemma_ranked_by(init, ahead);
        let u = ranked_by(init, ahead);
        let at = lemma_settled_by(u, x, ahead);
        let t = u.insert(at, x);
        to_multiset_insert(u, at, x);
        to_multiset_build(init, x);
        assert(init.push(x) =~= s);
        assert forall|i: int, j: int| #![trigger t[i], t[j]] 0 <= i < j < t.len() implies !ahead(
            t[j],
            t[i],
        ) by {
            if j == at {
                assert(t[j] == x && t[i] == u[i]);
                if i < at - 1 {
                    assert(!ahead(u[at - 1], u[i]));
                    assert(!ahead(x, u[at - 1]));
                }
            } else if i == at {
                assert(t[i] == x && t[j] == u[j - 1]);
                assert(ahead(x, u[j - 1]));
            } else {
                let a = if i < at {
                    i
                } else {
                    i - 1
                };
                let b = if j < at {
                    j
                } else {
                    j - 1
                };
                assert(t[i] == u[a] && t[j] == u[b]);
            }
        }
    }
}

proof fn lemma_settled_seen<T: Ranked, A>(
    s: Seq<T>,
    x: T,
    f: spec_fn(T) -> A,
    ahead: spec_fn(A, A) -> bool,
)
    requires
        forall|a: T, b: T| #[trigger] a.ahead(&b) == ahead(f(a), f(b)),
    ensures
        settled(s, x).map_values(f) == settled_by(s.map_values(f), f(x), ahead),
    decreases s.len(),
{
    if s.len() == 0 || !x.ahead(&s.last()) {
        assert(s.push(x).map_values(f) =~= s.map_values(f).push(f(x)));
    } else {
        lemma_settled_seen(s.drop_last(), x, f, ahead);
        assert(s.drop_last().map_values(f) =~= s.map_values(f).drop_last());
        assert(settled(s, x).map_values(f) =~= settled_by(s.map_values(f), f(x), ahead));
    }
}

/// Ranking and seeing the values through `f` can change places, where rank is
/// read through `f`.
pub proof fn lemma_ranked_seen<T: Ranked, A>(
    s: Seq<T>,
    f: spec_fn(T) -> A,
    ahead: spec_fn(A, A) -> bool,
)
    requires
        forall|a: T, b: T| #[trigger] a.ahead(&b) == ahead(f(a), f(b)),
    ensures
        ranked(s).map_values(f) == ranked_by(s.map_values(f), ahead),
    decreases s.len(),
{
    if s.len() == 0 {
        assert(ranked(s).map_values(f) =~= ranked_by(s.map_values(f), ahead));
    } else {
        lemma_ranked_seen(s.drop_last(), f, ahead);
        lemma_settled_seen(ranked(s.drop_last()), s.last(), f, ahead);
        assert(s.drop_last().map_values(f) =~= s.map_values(f).drop_last());
    }
}

/// Sort by rank, keeping values of one rank in the order they came.
pub fn sort_by_rank<T: Ranked>(v: &mut Vec<T>)
    ensures
        final(v)@ == ranked(old(v)@),
        in_rank(final(v)@),
        final(v)@.to_multiset() == old(v)@.to_multiset(),
        final(v)@.len() == old(v)@.len(),
{
    let mut i: usize = 0;
    assert(v@.take(0) =~= Seq::<T>::empty());
    while i < v.len()
        invariant
            i <= v@.len(),
            v@.len() == old(v)@.len(),
            v@.take(i as int) == ranked(old(v)@.take(i as int)),
            forall|k: int| #![trigger v@[k]] i <= k < v@.len() ==> v@[k] == old(v)@[k],
        decreases v@.len() - i,
    {
        let mut j: usize = i;
        while j > 0 && v[i].ranks_ahead(&v[j - 1])
            invariant
                i < v@.len(),
                j <= i,
                forall|k: int| #![trigger v@[k]] j <= k < i ==> v@[i as int].ahead(&v@[k]),
            decreases j,
        {
            j = j - 1;
        }
        let ghost s = v@;
        let ghost came = old(v)@.take(i as int + 1);
        let x = v.remove(i);
        v.insert(j, x);
        proof {
            assert(came.drop_last() =~= old(v)@.take(i as int));
            assert forall|k: int| #![trigger s.take(i as int)[k]] j <= k < i implies x.ahead(
                &s.take(i as int)[k],
            ) by {
                assert(s[i as int].ahead(&s[k]));
            }
            lemma_settled_at(s.take(i as int), x, j as int);
            assert(v@.take(i as int + 1) =~= s.take(i as int).insert(j as int, x));
        }
        i = i + 1;
    }
    proof {
        assert(v@.take(v@.len() as int) =~= v@);
        assert(old(v)@.take(v@.len() as int) =~= old(v)@);
        lemma_ranked(old(v)@);
    }
}

proof fn lemma_settled_at<T: Ranked>(s: Seq<T>, x: T, j: int)
    requires
        0 <= j <= s.len(),
        forall|k: int| #![trigger s[k]] j <= k < s.len() ==> x.ahead(&s[k]),
        j > 0 ==> !x.ahead(&s[j - 1]),
    ensures
        settled(s, x) == s.insert(j, x),
    decreases s.len(),
{
    if j == s.len() {
        assert(settled(s, x) =~= s.insert(j, x));
    } else {
        assert(x.ahead(&s[s.len() - 1]));
        lemma_settled_at(s.drop_last(), x, j);
        assert(settled(s, x) =~= s.insert(j, x));
    }
}

proof fn lemma_settled<T: Ranked>(s: Seq<T>, x: T)
    requires
        in_rank(s),
    ensures
        in_rank(settled(s, x)),
        settled(s, x).to_multiset() == s.to_multiset().insert(x),
        settled(s, x).len() == s.len() + 1,
        forall|y: T|
            (forall|k: int| 0 <= k < s.len() ==> !y.ahead(#[trigger] &s[k])) && !y.ahead(&x) ==> (
            forall|k: int| 0 <= k < settled(s, x).len() ==> !y.ahead(#[trigger] &settled(s, x)[k])),
    decreases s.len(),
{
    broadcast use vstd::multiset::group_multiset_axioms;

    if s.len() == 0 || !x.ahead(&s.last()) {
        to_multiset_build(s, x);
        let t = s.push(x);
        assert forall|a: int, b: int| #![trigger t[a], t[b]] 0 <= a < b < t.len() implies !t[b].ahead(
            &t[a],
        ) by {
            if b == s.len() {
                if a < s.len() - 1 {
                    T::splits(&x, &s.last(), &s[a]);
                }
            } else {
                assert(t[a] == s[a] && t[b] == s[b]);
            }
        }
    } else {
        let init = s.drop_last();
        let last = s.last();
        lemma_settled(init, x);
        let u = settled(init, x);
        let t = u.push(last);
        to_multiset_build(u, last);
        to_multiset_build(init, last);
        assert(init.push(last) =~= s);
        assert(t.to_multiset() =~= s.to_multiset().insert(x));
        T::asymmetric(&x, &last);
        assert forall|k: int| 0 <= k < init.len() implies !last.ahead(#[trigger] &init[k]) by {
            assert(init[k] == s[k]);
            assert(s[s.len() - 1] == last);
        }
        assert forall|a: int, b: int| #![trigger t[a], t[b]] 0 <= a < b < t.len() implies !t[b].ahead(
            &t[a],
        ) by {
            if b == u.len() {
                assert(t[a] == u[a]);
            } else {
                assert(t[a] == u[a] && t[b] == u[b]);
            }
        }
        assert forall|y: T|
            (forall|k: int| 0 <= k < s.len() ==> !y.ahead(#[trigger] &s[k])) && !y.ahead(
                &x,
            ) implies (forall|k: int| 0 <= k < t.len() ==> !y.ahead(#[trigger] &t[k])) by {
            assert(!y.ahead(&s[s.len() - 1]));
            assert forall|k: int| 0 <= k < init.len() implies !y.ahead(#[trigger] &init[k]) by {
                assert(!y.ahead(&s[k]));
            }
            assert forall|k: int| 0 <= k < t.len() implies !y.ahead(#[trigger] &t[k]) by {
                if k < u.len() {
                    assert(!y.ahead(&u[k]));
                }
            }
        }
    }
}

/// **Ranking rearranges the values and puts them in order.**
pub proof fn lemma_ranked<T: Ranked>(s: Seq<T>)
    ensures
        in_rank(ranked(s)),
        ranked(s).to_multiset() == s.to_multiset(),
        ranked(s).len() == s.len(),
    decreases s.len(),
{
    if s.len() == 0 {
        assert(s =~= Seq::<T>::empty());
    } else {
        let init = s.drop_last();
        lemma_ranked(init);
        lemma_settled(ranked(init), s.last());
        to_multiset_build(init, s.last());
        assert(init.push(s.last()) =~= s);
    }
}

spec fn tally<T>(s: Seq<T>, f: spec_fn(T) -> bool) -> nat
    decreases s.len(),
{
    if s.len() == 0 {
        0
    } else {
        tally(s.drop_last(), f) + (if f(s.last()) {
            1nat
        } else {
            0nat
        })
    }
}

proof fn lemma_tally_is_filter<T>(s: Seq<T>, f: spec_fn(T) -> bool)
    ensures
        tally(s, f) == s.to_multiset().filter(f).len(),
    decreases s.len(),
{
    broadcast use vstd::multiset::group_multiset_axioms;

    if s.len() == 0 {
        to_multiset_len(s);
        assert(s.to_multiset() =~= Multiset::empty());
        assert(s.to_multiset().filter(f) =~= Multiset::empty());
    } else {
        let init = s.drop_last();
        let x = s.last();
        lemma_tally_is_filter(init, f);
        to_multiset_build(init, x);
        assert(init.push(x) =~= s);
        let m = init.to_multiset();
        if f(x) {
            assert(m.insert(x).filter(f) =~= m.filter(f).insert(x));
        } else {
            assert(m.insert(x).filter(f) =~= m.filter(f));
        }
    }
}

proof fn lemma_tally_bounds<T>(s: Seq<T>, f: spec_fn(T) -> bool, k: int)
    requires
        0 <= k <= s.len(),
    ensures
        (forall|j: int| 0 <= j < k ==> f(#[trigger] s[j])) ==> tally(s, f) >= k,
        (forall|j: int| k <= j < s.len() ==> !f(#[trigger] s[j])) ==> tally(s, f) <= k,
    decreases s.len(),
{
    if s.len() > 0 {
        let init = s.drop_last();
        if k < s.len() {
            lemma_tally_bounds(init, f, k);
            if forall|j: int| k <= j < s.len() ==> !f(#[trigger] s[j]) {
                assert(!f(s[s.len() - 1]));
                assert forall|j: int| k <= j < init.len() implies !f(#[trigger] init[j]) by {
                    assert(init[j] == s[j]);
                }
            }
            if forall|j: int| 0 <= j < k ==> f(#[trigger] s[j]) {
                assert forall|j: int| 0 <= j < k implies f(#[trigger] init[j]) by {
                    assert(init[j] == s[j]);
                }
            }
        } else {
            lemma_tally_bounds(init, f, k - 1);
            if forall|j: int| 0 <= j < k ==> f(#[trigger] s[j]) {
                assert(f(s[s.len() - 1]));
                assert forall|j: int| 0 <= j < k - 1 implies f(#[trigger] init[j]) by {
                    assert(init[j] == s[j]);
                }
            }
            assert forall|j: int| k - 1 <= j < init.len() implies !f(#[trigger] init[j]) by {}
        }
    }
}

proof fn lemma_not_ahead_at<T: Ranked>(x: Seq<T>, y: Seq<T>, i: int)
    requires
        in_rank(x),
        in_rank(y),
        x.to_multiset() == y.to_multiset(),
        0 <= i < x.len(),
        x.len() == y.len(),
    ensures
        !x[i].ahead(&y[i]),
{
    if x[i].ahead(&y[i]) {
        let f = |t: T| t.ahead(&y[i]);
        lemma_tally_is_filter(x, f);
        lemma_tally_is_filter(y, f);
        assert forall|j: int| 0 <= j < i + 1 implies f(#[trigger] x[j]) by {
            if j < i {
                T::splits(&x[i], &x[j], &y[i]);
            }
        }
        lemma_tally_bounds(x, f, i + 1);
        assert forall|j: int| i <= j < y.len() implies !f(#[trigger] y[j]) by {
            if j == i {
                T::asymmetric(&y[i], &y[i]);
            }
        }
        lemma_tally_bounds(y, f, i);
    }
}

/// **Sorting forgets the order of arrival.** Two sorted arrangements of the
/// same values agree in rank at every place.
pub proof fn law_sorting_forgets_arrival<T: Ranked>(x: Seq<T>, y: Seq<T>)
    requires
        in_rank(x),
        in_rank(y),
        x.to_multiset() == y.to_multiset(),
    ensures
        x.len() == y.len(),
        forall|i: int|
            0 <= i < x.len() ==> !(#[trigger] x[i]).ahead(&y[i]) && !y[i].ahead(&x[i]),
{
    to_multiset_len(x);
    to_multiset_len(y);
    assert forall|i: int| 0 <= i < x.len() implies !(#[trigger] x[i]).ahead(&y[i]) && !y[i].ahead(
        &x[i],
    ) by {
        lemma_not_ahead_at(x, y, i);
        lemma_not_ahead_at(y, x, i);
    }
}

/// **A list in order is left as it is.** What the order does not tell apart
/// stays in the order it came.
pub proof fn law_a_list_in_order_stays<T: Ranked>(s: Seq<T>)
    requires
        in_rank(s),
    ensures
        ranked(s) == s,
    decreases s.len(),
{
    if s.len() > 0 {
        let init = s.drop_last();
        assert forall|i: int, j: int| #![trigger init[i], init[j]] 0 <= i < j < init.len() implies !init[j].ahead(
            &init[i],
        ) by {
            assert(init[i] == s[i] && init[j] == s[j]);
        }
        law_a_list_in_order_stays(init);
        if init.len() > 0 {
            assert(init.last() == s[s.len() - 2]);
            assert(s.last() == s[s.len() - 1]);
            assert(!s[s.len() - 1].ahead(&s[s.len() - 2]));
        }
        assert(init.push(s.last()) =~= s);
    } else {
        assert(s =~= Seq::<T>::empty());
    }
}

/// **Sorting keeps every value and puts none behind one it ranks ahead of.**
pub proof fn law_sorting_keeps_every_value<T: Ranked>(s: Seq<T>)
    ensures
        ranked(s).to_multiset() == s.to_multiset(),
        forall|i: int, j: int|
            #![trigger ranked(s)[i], ranked(s)[j]]
            0 <= i < j < ranked(s).len() ==> !ranked(s)[j].ahead(&ranked(s)[i]),
{
    lemma_ranked(s);
}

} // verus!

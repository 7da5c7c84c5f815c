//! How identities are written down before they are digested.
//!
//! Fields, records and sections are set apart by separators that names do
//! not use, so that what was joined can be told apart again.
use vstd::prelude::*;
use vstd::string::*;

verus! {

/// Between the fields of a record.
pub const FIELD: &'static str = "\u{1f}";

/// Between records.
pub const RECORD: &'static str = "\u{1e}";

/// Between the sections of an identity.
pub const SECTION: &'static str = "\u{1d}";

/// The parts, with `separator` between neighbours.
pub open spec fn joined(parts: Seq<Seq<char>>, separator: Seq<char>) -> Seq<char>
    decreases parts.len(),
{
    if parts.len() == 0 {
        Seq::empty()
    } else if parts.len() == 1 {
        parts[0]
    } else {
        joined(parts.drop_last(), separator) + separator + parts.last()
    }
}

/// The texts of some names.
pub open spec fn texts(names: Seq<String>) -> Seq<Seq<char>> {
    names.map_values(|s: String| s@)
}

/// One part more goes behind the separator.
pub proof fn lemma_joined_push(parts: Seq<Seq<char>>, separator: Seq<char>, part: Seq<char>)
    ensures
        joined(parts.push(part), separator) == (if parts.len() == 0 {
            part
        } else {
            joined(parts, separator) + separator + part
        }),
{
    assert(parts.push(part).drop_last() =~= parts);
}

/// The names, with `separator` between neighbours.
pub fn join(names: &Vec<String>, separator: &str) -> (r: String)
    ensures
        r@ == joined(texts(names@), separator@),
{
    let mut s: String = String::new();
    let mut i: usize = 0;
    assert(texts(names@).take(0) =~= Seq::<Seq<char>>::empty());
    while i < names.len()
        invariant
            i <= names@.len(),
            s@ == joined(texts(names@).take(i as int), separator@),
        decreases names@.len() - i,
    {
        let ghost head = texts(names@).take(i as int);
        if i > 0 {
            s.append(separator);
        }
        s.append(names[i].as_str());
        proof {
            lemma_joined_push(head, separator@, names@[i as int]@);
            assert(head.push(names@[i as int]@) =~= texts(names@).take(i as int + 1));
            if i == 0 {
                assert(s@ =~= names@[0]@);
            }
        }
        i = i + 1;
    }
    assert(texts(names@).take(names@.len() as int) =~= texts(names@));
    s
}

/// A copy of a list of names.
pub fn copy_names(names: &Vec<String>) -> (r: Vec<String>)
    ensures
        r@ == names@,
{
    let mut v: Vec<String> = Vec::new();
    let mut i: usize = 0;
    while i < names.len()
        invariant
            i <= names@.len(),
            v@ == names@.take(i as int),
        decreases names@.len() - i,
    {
        v.push(names[i].clone());
        assert(v@ =~= names@.take(i as int + 1));
        i = i + 1;
    }
    assert(v@ =~= names@);
    v
}

/// The first twelve characters, for reports.
pub open spec fn short_of(digest: Seq<char>) -> Seq<char> {
    if digest.len() <= 12 {
        digest
    } else {
        digest.take(12)
    }
}

/// The first twelve characters, for reports.
pub fn short(digest: &str) -> (r: &str)
    ensures
        r@ == short_of(digest@),
{
    let n: usize = digest.unicode_len();
    let end: usize = if n <= 12 {
        n
    } else {
        12
    };
    let r: &str = digest.substring_char(0, end);
    assert(r@ =~= short_of(digest@));
    r
}

/// A text `c` does not stand in.
pub open spec fn free_of(s: Seq<char>, c: char) -> bool {
    forall|i: int| 0 <= i < s.len() ==> #[trigger] s[i] != c
}

/// A text no record separator stands in.
pub open spec fn plain(s: Seq<char>) -> bool {
    free_of(s, '\u{1e}')
}

/// A text no separator stands in.
pub open spec fn clear(s: Seq<char>) -> bool {
    free_of(s, '\u{1d}') && free_of(s, '\u{1e}') && free_of(s, '\u{1f}')
}

/// **What was joined can be told apart again.** Non-empty lists of texts
/// without the separator are joined alike only where they are the same.
pub proof fn lemma_joined_identify(
    a: Seq<Seq<char>>,
    b: Seq<Seq<char>>,
    separator: Seq<char>,
    c: char,
)
    requires
        separator == seq![c],
        a.len() > 0,
        b.len() > 0,
        forall|i: int| 0 <= i < a.len() ==> free_of(#[trigger] a[i], c),
        forall|i: int| 0 <= i < b.len() ==> free_of(#[trigger] b[i], c),
        joined(a, separator) == joined(b, separator),
    ensures
        a == b,
    decreases a.len(),
{
    let x = joined(a, separator);
    let y = joined(b, separator);
    assert(free_of(a[a.len() - 1], c) && free_of(b[b.len() - 1], c));
    if a.len() == 1 && b.len() == 1 {
        assert(a =~= b);
    } else if a.len() == 1 {
        let k = y.len() - b.last().len() - 1;
        assert(y[k] == c);
        assert(a[0][k] == c);
        assert(false);
    } else if b.len() == 1 {
        let k = x.len() - a.last().len() - 1;
        assert(x[k] == c);
        assert(b[0][k] == c);
        assert(false);
    } else {
        let p = a.last();
        let q = b.last();
        let i = x.len() - p.len() - 1;
        let j = y.len() - q.len() - 1;
        assert(x[i] == c);
        assert(y[j] == c);
        if i < j {
            assert(x[j] == p[j - i - 1]);
        } else if j < i {
            assert(y[i] == q[i - j - 1]);
        }
        assert(i == j);
        assert(p =~= x.skip(i + 1));
        assert(q =~= y.skip(i + 1));
        let u = a.drop_last();
        let v = b.drop_last();
        assert(joined(u, separator) =~= x.take(i));
        assert(joined(v, separator) =~= y.take(i));
        assert forall|k: int| 0 <= k < u.len() implies free_of(#[trigger] u[k], c) by {
            assert(u[k] == a[k]);
        }
        assert forall|k: int| 0 <= k < v.len() implies free_of(#[trigger] v[k], c) by {
            assert(v[k] == b[k]);
        }
        lemma_joined_identify(u, v, separator, c);
        assert(a =~= u.push(p));
        assert(b =~= v.push(q));
    }
}

/// Records can be told apart again.
pub proof fn lemma_joined_records_identify(a: Seq<Seq<char>>, b: Seq<Seq<char>>)
    requires
        a.len() > 0,
        b.len() > 0,
        forall|i: int| 0 <= i < a.len() ==> plain(#[trigger] a[i]),
        forall|i: int| 0 <= i < b.len() ==> plain(#[trigger] b[i]),
        joined(a, RECORD@) == joined(b, RECORD@),
    ensures
        a == b,
{
    reveal_strlit("\u{1e}");
    assert(RECORD@ =~= seq!['\u{1e}']);
    assert forall|i: int| 0 <= i < a.len() implies free_of(#[trigger] a[i], '\u{1e}') by {
        assert(plain(a[i]));
    }
    assert forall|i: int| 0 <= i < b.len() implies free_of(#[trigger] b[i], '\u{1e}') by {
        assert(plain(b[i]));
    }
    lemma_joined_identify(a, b, RECORD@, '\u{1e}');
}

/// Texts without `c` make a text without it.
pub proof fn lemma_free_of_both(a: Seq<char>, b: Seq<char>, c: char)
    requires
        free_of(a, c),
        free_of(b, c),
    ensures
        free_of(a + b, c),
{
    assert forall|i: int| 0 <= i < (a + b).len() implies #[trigger] (a + b)[i] != c by {
        if i < a.len() {
            assert((a + b)[i] == a[i]);
        } else {
            assert((a + b)[i] == b[i - a.len()]);
        }
    }
}

/// Texts without `c` are joined without it, if the separator is not it.
pub proof fn lemma_free_of_joined(parts: Seq<Seq<char>>, separator: Seq<char>, c: char)
    requires
        free_of(separator, c),
        forall|i: int| 0 <= i < parts.len() ==> free_of(#[trigger] parts[i], c),
    ensures
        free_of(joined(parts, separator), c),
    decreases parts.len(),
{
    if parts.len() == 1 {
        assert(free_of(parts[0], c));
    } else if parts.len() > 1 {
        let rest = parts.drop_last();
        assert forall|i: int| 0 <= i < rest.len() implies free_of(#[trigger] rest[i], c) by {
            assert(rest[i] == parts[i]);
        }
        lemma_free_of_joined(rest, separator, c);
        lemma_free_of_both(joined(rest, separator), separator, c);
        assert(free_of(parts[parts.len() - 1], c));
        lemma_free_of_both(joined(rest, separator) + separator, parts.last(), c);
    }
}

/// The first part behind a head.
pub proof fn lemma_first_part(head: Seq<char>, label: Seq<char>, value: Seq<char>, separator: Seq<char>)
    ensures
        head + joined(seq![label + value], separator) == head + label + value,
{
    assert(head + (label + value) =~= head + label + value);
}

/// One part more behind a head and others.
pub proof fn lemma_next_part(
    head: Seq<char>,
    parts: Seq<Seq<char>>,
    label: Seq<char>,
    value: Seq<char>,
    separator: Seq<char>,
)
    requires
        parts.len() > 0,
    ensures
        head + joined(parts.push(label + value), separator) == head + joined(parts, separator)
            + separator + label + value,
{
    lemma_joined_push(parts, separator, label + value);
    let j = joined(parts, separator);
    assert(head + (j + separator + (label + value)) =~= head + j + separator + label + value);
}

/// The same label before two values hides nothing.
pub proof fn lemma_label(label: Seq<char>, x: Seq<char>, y: Seq<char>)
    requires
        label + x == label + y,
    ensures
        x == y,
{
    assert((label + x).skip(label.len() as int) =~= x);
    assert((label + y).skip(label.len() as int) =~= y);
}

/// Only no text, or the one empty text, is joined to nothing.
pub proof fn lemma_only_nothing_joins_to_nothing(parts: Seq<Seq<char>>)
    ensures
        joined(parts, RECORD@).len() == 0 ==> parts.len() == 0 || parts =~= seq![
            Seq::<char>::empty(),
        ],
{
    reveal_strlit("\u{1e}");
    assert(RECORD@.len() == 1);
    if parts.len() == 1 {
        if parts[0].len() == 0 {
            assert(parts[0] =~= Seq::<char>::empty());
            assert(parts =~= seq![Seq::<char>::empty()]);
        }
    } else if parts.len() > 1 {
        assert(joined(parts, RECORD@).len() == joined(parts.drop_last(), RECORD@).len()
            + RECORD@.len() + parts.last().len());
    }
}

/// Lists of texts that agree but for one place are joined alike only where
/// they agree there too.
pub proof fn lemma_joined_tells_one_part(
    a: Seq<Seq<char>>,
    b: Seq<Seq<char>>,
    separator: Seq<char>,
    k: int,
)
    requires
        a.len() == b.len(),
        0 <= k < a.len(),
        forall|i: int| 0 <= i < a.len() && i != k ==> #[trigger] a[i] == b[i],
        joined(a, separator) == joined(b, separator),
    ensures
        a[k] == b[k],
    decreases a.len(),
{
    if a.len() > 1 {
        let x = joined(a.drop_last(), separator);
        let y = joined(b.drop_last(), separator);
        let p = x + separator + a.last();
        let q = y + separator + b.last();
        if k == a.len() - 1 {
            assert(a.drop_last() =~= b.drop_last());
            lemma_label(x + separator, a.last(), b.last());
        } else {
            assert(a[a.len() - 1] == b[a.len() - 1]);
            assert(p == q);
            assert(p.len() == x.len() + separator.len() + a.last().len());
            assert(q.len() == y.len() + separator.len() + b.last().len());
            assert(p.take(x.len() as int) =~= x);
            assert(q.take(x.len() as int) =~= y);
            lemma_joined_tells_one_part(a.drop_last(), b.drop_last(), separator, k);
        }
    }
}

/// **Joined parts stand in their order, with the separator between
/// neighbours** and nowhere else.
pub proof fn law_parts_are_joined_in_order(
    a: Seq<Seq<char>>,
    b: Seq<Seq<char>>,
    part: Seq<char>,
    separator: Seq<char>,
)
    ensures
        joined(Seq::<Seq<char>>::empty(), separator).len() == 0,
        joined(seq![part], separator) == part,
        a.len() > 0 && b.len() > 0 ==> joined(a + b, separator) == joined(a, separator) + separator
            + joined(b, separator),
    decreases b.len(),
{
    if a.len() > 0 && b.len() > 0 {
        let init = b.drop_last();
        assert((a + b).drop_last() =~= a + init);
        assert((a + b).last() == b.last());
        if b.len() == 1 {
            assert(a + init =~= a);
            assert(b[0] == b.last());
        } else {
            law_parts_are_joined_in_order(a, init, part, separator);
            assert(joined(a + b, separator) =~= joined(a, separator) + separator + joined(
                b,
                separator,
            ));
        }
    }
}

/// **A short form is the first twelve characters**, or all there are.
pub proof fn law_a_short_form_begins_the_digest(digest: Seq<char>)
    ensures
        short_of(digest).len() == (if digest.len() < 12 {
            digest.len()
        } else {
            12
        }),
        forall|i: int| 0 <= i < short_of(digest).len() ==> #[trigger] short_of(digest)[i]
            == digest[i],
{
}

} // verus!

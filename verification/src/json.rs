//! Deterministic JSON: object keys sorted, no insignificant whitespace.
//!
//! Which values count is decided elsewhere; this turns a settled set of
//! values into text the same way every time. Array order is one of an
//! array's values and is kept.
use crate::canon::{joined, lemma_joined_push, texts};
use crate::digest::hex_digit;
use crate::table::{
    in_order, lemma_in_order_extensional, lemma_seen_with_row, lemma_with_row_in_order,
    lemma_with_row_lookup, lookup, seen, with_row, Table,
};
use crate::text::same;
use vstd::prelude::*;
use vstd::string::*;

verus! {

/// A JSON value. A number is held as the text it is written with, and an
/// object as its members in the order they were read.
#[derive(Debug, PartialEq, Eq)]
pub enum Json {
    Null,
    Bool(bool),
    Number(String),
    Text(String),
    Array(Vec<Json>),
    Object(Vec<(String, Json)>),
}

/// One character as a JSON string writes it.
pub open spec fn escaped(c: char) -> Seq<char> {
    if c == '"' {
        seq!['\\', '"']
    } else if c == '\\' {
        seq!['\\', '\\']
    } else if c == '\u{8}' {
        seq!['\\', 'b']
    } else if c == '\t' {
        seq!['\\', 't']
    } else if c == '\n' {
        seq!['\\', 'n']
    } else if c == '\u{c}' {
        seq!['\\', 'f']
    } else if c == '\r' {
        seq!['\\', 'r']
    } else if (c as int) < 0x20 {
        seq!['\\', 'u', '0', '0', hex_digit(c as int / 16), hex_digit(c as int % 16)]
    } else {
        seq![c]
    }
}

/// The characters as a JSON string writes them.
pub open spec fn escapes(s: Seq<char>) -> Seq<char>
    decreases s.len(),
{
    if s.len() == 0 {
        Seq::empty()
    } else {
        escapes(s.drop_last()) + escaped(s.last())
    }
}

/// A text as a JSON string.
pub open spec fn json_string(s: Seq<char>) -> Seq<char> {
    seq!['"'] + escapes(s) + seq!['"']
}

/// `serde_json::Value::String(..).to_string()`: the text between quotes, with
/// the quote, the backslash and the control characters below U+0020 escaped
/// (backspace, tab, line feed, form feed and carriage return by letter, the
/// others as `\u00xx` in lower case) and every other character as it is.
#[verifier::external_body]
fn quoted(s: &str) -> (r: String)
    ensures
        r@ == json_string(s@),
{
    serde_json::Value::String(s.to_owned()).to_string()
}

/// The canonical text of a value.
pub open spec fn json_text(value: Json) -> Seq<char>
    decreases value, 2int,
{
    match value {
        Json::Null => "null"@,
        Json::Bool(b) => if b {
            "true"@
        } else {
            "false"@
        },
        Json::Number(n) => n@,
        Json::Text(s) => json_string(s@),
        Json::Array(items) => "["@ + joined(item_texts(items@), ","@) + "]"@,
        Json::Object(members) => object_text(members@),
    }
}

/// The canonical text of an object with these members.
pub open spec fn object_text(members: Seq<(String, Json)>) -> Seq<char>
    decreases members, 1int,
{
    "{"@ + joined(member_texts(member_rows(members)), ","@) + "}"@
}

/// The canonical texts of an array's items, in their order.
pub open spec fn item_texts(items: Seq<Json>) -> Seq<Seq<char>>
    decreases items, 0int,
{
    if items.len() == 0 {
        Seq::empty()
    } else {
        item_texts(items.drop_last()).push(json_text(items.last()))
    }
}

/// An object's keys and the canonical texts of their values, in key order. Of
/// a key read twice the later value stands.
pub open spec fn member_rows(members: Seq<(String, Json)>) -> Seq<(Seq<char>, Seq<char>)>
    decreases members, 0int,
{
    if members.len() == 0 {
        Seq::empty()
    } else {
        with_row::<String, Seq<char>>(
            member_rows(members.drop_last()),
            members.last().0@,
            json_text(members.last().1),
        )
    }
}

/// The members as an object writes them.
pub open spec fn member_texts(rows: Seq<(Seq<char>, Seq<char>)>) -> Seq<Seq<char>> {
    rows.map_values(|r: (Seq<char>, Seq<char>)| json_string(r.0) + ":"@ + r.1)
}

spec fn text_of() -> spec_fn(String) -> Seq<char> {
    |s: String| s@
}

/// The canonical text of a value.
pub fn canonical_json(value: &Json) -> (r: String)
    ensures
        r@ == json_text(*value),
{
    let mut out: String = String::new();
    write_canonical_json(value, &mut out);
    assert(out@ =~= json_text(*value));
    out
}

/// Append the canonical text of a value.
pub fn write_canonical_json(value: &Json, out: &mut String)
    ensures
        final(out)@ == old(out)@ + json_text(*value),
    decreases value,
{
    match value {
        Json::Null => out.append("null"),
        Json::Bool(b) => if *b {
            out.append("true")
        } else {
            out.append("false")
        },
        Json::Number(n) => out.append(n.as_str()),
        Json::Text(s) => out.append(quoted(s.as_str()).as_str()),
        Json::Array(items) => {
            out.append("[");
            let ghost start = out@;
            let ghost parts = item_texts(items@);
            let mut i: usize = 0;
            proof {
                lemma_item_texts(items@);
                assert(parts.take(0) =~= Seq::<Seq<char>>::empty());
                assert(out@ =~= start + joined(parts.take(0), ","@));
            }
            while i < items.len()
                invariant
                    i <= items@.len(),
                    *value == Json::Array(*items),
                    parts.len() == items@.len(),
                    forall|k: int|
                        0 <= k < items@.len() ==> #[trigger] parts[k] == json_text(items@[k]),
                    out@ == start + joined(parts.take(i as int), ","@),
                decreases items@.len() - i,
            {
                let ghost done = parts.take(i as int);
                if i > 0 {
                    out.append(",");
                }
                assert(decreases_to!(*value => value->Array_0));
                assert(decreases_to!(*items => items@));
                assert(decreases_to!(items@ => items@[i as int]));
                write_canonical_json(&items[i], out);
                proof {
                    lemma_joined_push(done, ","@, parts[i as int]);
                    assert(done.push(parts[i as int]) =~= parts.take(i as int + 1));
                    assert(out@ =~= start + joined(parts.take(i as int + 1), ","@));
                }
                i = i + 1;
            }
            assert(parts.take(parts.len() as int) =~= parts);
            out.append("]");
            assert(out@ =~= old(out)@ + json_text(*value));
        },
        Json::Object(members) => {
            let none: Vec<String> = Vec::new();
            proof {
                lemma_without_nothing(members@);
                assert(texts(none@) =~= Seq::<Seq<char>>::empty());
            }
            write_object(members, &none, out);
            assert(out@ =~= old(out)@ + json_text(*value));
        },
    }
}

/// Append the canonical text of an object, leaving out the members named in
/// `dropped`.
pub fn write_object(members: &Vec<(String, Json)>, dropped: &Vec<String>, out: &mut String)
    ensures
        final(out)@ == old(out)@ + object_text(without(members@, texts(dropped@))),
    decreases *members,
{
    let mut table: Table<String, String> = Table::new();
    let ghost gone = texts(dropped@);
    let mut i: usize = 0;
    assert(members@.take(0) =~= Seq::<(String, Json)>::empty());
    assert(seen(table.rows(), text_of()) =~= Seq::<(Seq<char>, Seq<char>)>::empty());
    while i < members.len()
        invariant
            i <= members@.len(),
            gone == texts(dropped@),
            seen(table.rows(), text_of()) == member_rows(without(members@.take(i as int), gone)),
        decreases members@.len() - i,
    {
        let ghost rows = table.rows();
        let ghost next = members@.take(i as int + 1);
        let ghost kept = without(members@.take(i as int), gone);
        assert(next.drop_last() =~= members@.take(i as int));
        assert(next.last() == members@[i as int]);
        if !is_named(members[i].0.as_str(), dropped) {
            let key: String = members[i].0.clone();
            let mut text: String = String::new();
            assert(decreases_to!(*members => members@));
            assert(decreases_to!(members@ => members@[i as int]));
            assert(decreases_to!(members@[i as int] => members@[i as int].1));
            write_canonical_json(&members[i].1, &mut text);
            proof {
                assert(text@ =~= json_text(members@[i as int].1));
                lemma_seen_with_row::<String, String, Seq<char>>(rows, text_of(), key@, text);
                assert(kept.push(next.last()).drop_last() =~= kept);
            }
            table.insert(key, text);
        }
        i = i + 1;
    }
    assert(members@.take(members@.len() as int) =~= members@);
    let ghost all = member_rows(without(members@, gone));
    let ghost parts = member_texts(all);
    out.append("{");
    let ghost start = out@;
    let mut j: usize = 0;
    assert(parts.take(0) =~= Seq::<Seq<char>>::empty());
    assert(out@ =~= start + joined(parts.take(0), ","@));
    while j < table.len()
        invariant
            j <= table.rows().len(),
            seen(table.rows(), text_of()) == all,
            parts == member_texts(all),
            parts.len() == table.rows().len(),
            out@ == start + joined(parts.take(j as int), ","@),
        decreases table.rows().len() - j,
    {
        let ghost done = parts.take(j as int);
        if j > 0 {
            out.append(",");
        }
        out.append(quoted(table.key_at(j).as_str()).as_str());
        out.append(":");
        out.append(table.value_at(j).as_str());
        proof {
            assert(all[j as int] == (table.rows()[j as int].0, table.rows()[j as int].1@));
            assert(parts[j as int] == json_string(all[j as int].0) + ":"@ + all[j as int].1);
            lemma_joined_push(done, ","@, parts[j as int]);
            assert(done.push(parts[j as int]) =~= parts.take(j as int + 1));
            assert(out@ =~= start + joined(parts.take(j as int + 1), ","@));
        }
        j = j + 1;
    }
    assert(parts.take(parts.len() as int) =~= parts);
    out.append("}");
    assert(out@ =~= old(out)@ + object_text(without(members@, gone)));
}

fn is_named(key: &str, named: &Vec<String>) -> (r: bool)
    ensures
        r == texts(named@).contains(key@),
{
    let mut i: usize = 0;
    while i < named.len()
        invariant
            i <= named@.len(),
            forall|k: int| 0 <= k < i ==> #[trigger] texts(named@)[k] != key@,
        decreases named@.len() - i,
    {
        if same(named[i].as_str(), key) {
            assert(texts(named@)[i as int] == key@);
            return true;
        }
        i = i + 1;
    }
    false
}

proof fn lemma_without_nothing(members: Seq<(String, Json)>)
    ensures
        without(members, Seq::empty()) == members,
    decreases members.len(),
{
    if members.len() > 0 {
        lemma_without_nothing(members.drop_last());
        assert(members.drop_last().push(members.last()) =~= members);
    }
}

proof fn lemma_item_texts(items: Seq<Json>)
    ensures
        item_texts(items).len() == items.len(),
        forall|k: int|
            0 <= k < items.len() ==> #[trigger] item_texts(items)[k] == json_text(items[k]),
    decreases items.len(),
{
    if items.len() > 0 {
        lemma_item_texts(items.drop_last());
    }
}

/// The value a key is given last.
pub open spec fn member(members: Seq<(String, Json)>, key: Seq<char>) -> Option<Seq<char>>
    decreases members.len(),
{
    if members.len() == 0 {
        None
    } else if members.last().0@ == key {
        Some(json_text(members.last().1))
    } else {
        member(members.drop_last(), key)
    }
}

proof fn lemma_member_rows(members: Seq<(String, Json)>, key: Seq<char>)
    ensures
        lookup(member_rows(members), key) == member(members, key),
        in_order::<String, Seq<char>>(member_rows(members)),
    decreases members.len(),
{
    if members.len() > 0 {
        let init = members.drop_last();
        let last = members.last();
        lemma_member_rows(init, key);
        lemma_with_row_lookup::<String, Seq<char>>(
            member_rows(init),
            last.0@,
            json_text(last.1),
            key,
        );
        lemma_with_row_in_order::<String, Seq<char>>(
            member_rows(init),
            last.0@,
            json_text(last.1),
        );
    }
}

/// Members that give every key the same value are written alike.
pub proof fn lemma_object_text(a: Seq<(String, Json)>, b: Seq<(String, Json)>)
    requires
        forall|key: Seq<char>| member(a, key) == member(b, key),
    ensures
        object_text(a) == object_text(b),
{
    lemma_member_rows(a, Seq::empty());
    lemma_member_rows(b, Seq::empty());
    assert forall|key: Seq<char>| lookup(member_rows(a), key) == lookup(member_rows(b), key) by {
        lemma_member_rows(a, key);
        lemma_member_rows(b, key);
        assert(member(a, key) == member(b, key));
    }
    lemma_in_order_extensional::<String, Seq<char>>(member_rows(a), member_rows(b));
}

/// **Key order is no part of an object's canonical text.** Two objects that
/// give every key the same value are written alike, in whatever order their
/// members were read.
pub proof fn law_key_order_is_not_written(a: Vec<(String, Json)>, b: Vec<(String, Json)>)
    requires
        forall|key: Seq<char>| member(a@, key) == member(b@, key),
    ensures
        json_text(Json::Object(a)) == json_text(Json::Object(b)),
{
    lemma_object_text(a@, b@);
}

/// The object's members without the named keys.
pub open spec fn without(members: Seq<(String, Json)>, dropped: Seq<Seq<char>>) -> Seq<
    (String, Json),
>
    decreases members.len(),
{
    if members.len() == 0 {
        Seq::empty()
    } else if dropped.contains(members.last().0@) {
        without(members.drop_last(), dropped)
    } else {
        without(members.drop_last(), dropped).push(members.last())
    }
}

/// **Of a key read twice the later value stands.** A key is given the value
/// it is given last, and one it is not given has none.
pub proof fn law_the_later_value_stands(members: Seq<(String, Json)>, key: Seq<char>, i: int)
    ensures
        0 <= i < members.len() && members[i].0@ == key && (forall|j: int|
            i < j < members.len() ==> (#[trigger] members[j]).0@ != key) ==> lookup(
            member_rows(members),
            key,
        ) == Some(json_text(members[i].1)),
        (forall|j: int| 0 <= j < members.len() ==> (#[trigger] members[j]).0@ != key) ==> lookup(
            member_rows(members),
            key,
        ) is None,
    decreases members.len(),
{
    lemma_member_rows(members, key);
    if members.len() > 0 {
        let init = members.drop_last();
        assert(members[members.len() - 1] == members.last());
        assert forall|j: int| 0 <= j < init.len() implies #[trigger] init[j] == members[j] by {}
        law_the_later_value_stands(init, key, i);
        lemma_member_rows(init, key);
        if 0 <= i < members.len() && members[i].0@ == key && (forall|j: int|
            i < j < members.len() ==> (#[trigger] members[j]).0@ != key) {
            if i < init.len() {
                assert(init[i] == members[i]);
                assert forall|j: int| i < j < init.len() implies (#[trigger] init[j]).0@ != key by {
                    assert(init[j] == members[j]);
                }
            }
        }
        if forall|j: int| 0 <= j < members.len() ==> (#[trigger] members[j]).0@ != key {
            assert forall|j: int| 0 <= j < init.len() implies (#[trigger] init[j]).0@ != key by {
                assert(init[j] == members[j]);
            }
        }
    }
}

/// **An array is written item by item, in its order.**
pub proof fn law_an_array_keeps_its_order(items: Seq<Json>, k: int)
    requires
        0 <= k < items.len(),
    ensures
        item_texts(items).len() == items.len(),
        item_texts(items)[k] == json_text(items[k]),
{
    lemma_item_texts(items);
}

/// **Dropping keys drops those and no others.** What is left keeps its value.
pub proof fn law_dropped_keys_are_gone(
    members: Seq<(String, Json)>,
    dropped: Seq<Seq<char>>,
    key: Seq<char>,
)
    ensures
        member(without(members, dropped), key) == (if dropped.contains(key) {
            None
        } else {
            member(members, key)
        }),
    decreases members.len(),
{
    if members.len() > 0 {
        law_dropped_keys_are_gone(members.drop_last(), dropped, key);
        let left = without(members, dropped);
        if !dropped.contains(members.last().0@) {
            assert(left.drop_last() =~= without(members.drop_last(), dropped));
            assert(left.last() == members.last());
        }
    }
}

} // verus!

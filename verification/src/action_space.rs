//! The vocabulary of moves, declared rather than inferred.
//!
//! A map is an ordered list of exceptions, and a search state is a set of
//! edits. The vocabulary's own order turns the one into the other, so an
//! applied set has exactly one map.
use crate::canon::copy_names;
use crate::error::VindexError;
use crate::experiment::copy_option;
use crate::map::{excepted, lemma_first_governs, Exception, PrecisionMap};
use crate::policy::Role;
use crate::table::{names, NameSet};
use crate::text::same;
use vstd::prelude::*;
use vstd::string::*;

verus! {

/// One named change to a precision map.
#[derive(Debug, PartialEq, Eq)]
pub struct MapEdit {
    pub name: String,
    /// What it puts into the map.
    pub exception: Exception,
}

/// A copy of an exception.
pub fn copy_exception(e: &Exception) -> (r: Exception)
    ensures
        r == *e,
{
    Exception {
        role: e.role,
        projection: copy_option(&e.projection),
        layers: e.layers,
        encoding: copy_option(&e.encoding),
    }
}

impl Clone for MapEdit {
    fn clone(&self) -> (r: Self)
        ensures
            r == *self,
    {
        MapEdit { name: self.name.clone(), exception: copy_exception(&self.exception) }
    }
}

impl MapEdit {
    /// The edit of this name.
    pub fn new(name: &str, exception: Exception) -> (r: MapEdit)
        ensures
            r.name@ == name@,
            r.exception == exception,
    {
        MapEdit { name: name.to_owned(), exception }
    }
}

/// The edits' names and what each puts into a map.
pub open spec fn edits_as(s: Seq<MapEdit>) -> Seq<(Seq<char>, Exception)> {
    s.map_values(|e: MapEdit| (e.name@, e.exception))
}

/// The edits' names, in order.
pub open spec fn edit_names(s: Seq<(Seq<char>, Exception)>) -> Seq<Seq<char>> {
    s.map_values(|e: (Seq<char>, Exception)| e.0)
}

/// What the applied edits put into a map, in vocabulary order.
pub open spec fn chosen(
    edits: Seq<(Seq<char>, Exception)>,
    has: spec_fn(Seq<char>) -> bool,
) -> Seq<Exception>
    decreases edits.len(),
{
    if edits.len() == 0 {
        Seq::empty()
    } else if has(edits.last().0) {
        chosen(edits.drop_last(), has).push(edits.last().1)
    } else {
        chosen(edits.drop_last(), has)
    }
}

/// Which names these rows hold.
pub open spec fn held_in(rows: Seq<(Seq<char>, ())>) -> spec_fn(Seq<char>) -> bool {
    |n: Seq<char>| names(rows, n)
}

/// The first of the rows' names that no edit has.
pub open spec fn first_unknown(rows: Seq<(Seq<char>, ())>, known: Seq<Seq<char>>) -> Option<
    Seq<char>,
>
    decreases rows.len(),
{
    if rows.len() == 0 {
        None
    } else if !known.contains(rows[0].0) {
        Some(rows[0].0)
    } else {
        first_unknown(rows.skip(1), known)
    }
}

/// The refusal of a name declared twice.
pub open spec fn declared_twice_text(name: Seq<char>) -> Seq<char> {
    "action `"@ + name
        + "` is declared twice — an applied set naming it would resolve to whichever declaration was found first"@
}

/// The refusal of a name the vocabulary does not have.
pub open spec fn unknown_action_text(name: Seq<char>) -> Seq<char> {
    "action `"@ + name
        + "` is not in this vocabulary — a state cannot apply a move the search does not have"@
}

/// The rule a base map and these exceptions state.
pub open spec fn edited_rule(
    base: &PrecisionMap,
    exceptions: Seq<Exception>,
) -> spec_fn(Role, Seq<char>) -> Option<Seq<char>> {
    |role: Role, tensor: Seq<char>|
        if base.compiles(role) {
            excepted(exceptions, role, tensor, base.encoding@)
        } else {
            None
        }
}

/// **Every move a search may make**, in the order that fixes map order.
#[derive(Debug, PartialEq, Eq)]
pub struct ActionVocabulary {
    edits: Vec<MapEdit>,
}

impl View for ActionVocabulary {
    type V = Seq<(Seq<char>, Exception)>;

    closed spec fn view(&self) -> Seq<(Seq<char>, Exception)> {
        edits_as(self.edits@)
    }
}

impl ActionVocabulary {
    /// No two edits have one name.
    #[verifier::type_invariant]
    pub open spec fn is_distinct(self) -> bool {
        edit_names(self@).no_duplicates()
    }
}

impl Clone for ActionVocabulary {
    fn clone(&self) -> (r: Self)
        ensures
            r@ == self@,
    {
        proof {
            use_type_invariant(self);
        }
        let mut edits: Vec<MapEdit> = Vec::new();
        let mut i: usize = 0;
        while i < self.edits.len()
            invariant
                i <= self.edits@.len(),
                edits@ == self.edits@.take(i as int),
            decreases self.edits@.len() - i,
        {
            edits.push(self.edits[i].clone());
            assert(edits@ =~= self.edits@.take(i as int + 1));
            i = i + 1;
        }
        assert(edits@ =~= self.edits@);
        ActionVocabulary { edits }
    }
}

impl Default for ActionVocabulary {
    fn default() -> (r: Self)
        ensures
            r@ == Seq::<(Seq<char>, Exception)>::empty(),
    {
        let edits: Vec<MapEdit> = Vec::new();
        assert(edit_names(edits_as(edits@)) =~= Seq::<Seq<char>>::empty());
        let r = ActionVocabulary { edits };
        assert(r@ =~= Seq::<(Seq<char>, Exception)>::empty());
        r
    }
}

/// Edit `i` has the name of an earlier one.
pub open spec fn declared_before(s: Seq<(Seq<char>, Exception)>, i: int) -> bool {
    exists|j: int| 0 <= j < i && (#[trigger] s[j]).0 == s[i].0
}

impl ActionVocabulary {
    /// Build a vocabulary, refusing a repeated name.
    pub fn new(edits: Vec<MapEdit>) -> (r: Result<ActionVocabulary, VindexError>)
        ensures
            ({
                let given = edits_as(edits@);
                match r {
                    Ok(v) => v@ == given && forall|i: int|
                        0 <= i < given.len() ==> !(#[trigger] declared_before(given, i)),
                    Err(e) => exists|i: int|
                        {
                            &&& 0 <= i < given.len()
                            &&& #[trigger] declared_before(given, i)
                            &&& e.text() == declared_twice_text(given[i].0)
                            &&& forall|j: int|
                                0 <= j < i ==> !(#[trigger] declared_before(given, j))
                        },
                }
            }),
    {
        let ghost given = edits_as(edits@);
        let mut i: usize = 0;
        while i < edits.len()
            invariant
                i <= edits@.len(),
                given == edits_as(edits@),
                forall|k: int| 0 <= k < i ==> !(#[trigger] declared_before(given, k)),
            decreases edits@.len() - i,
        {
            let mut j: usize = 0;
            while j < i
                invariant
                    j <= i < edits@.len(),
                    given == edits_as(edits@),
                    forall|k: int| 0 <= k < i ==> !(#[trigger] declared_before(given, k)),
                    forall|k: int| 0 <= k < j ==> (#[trigger] given[k]).0 != given[i as int].0,
                decreases i - j,
            {
                assert(given[j as int].0 == edits@[j as int].name@);
                assert(given[i as int].0 == edits@[i as int].name@);
                if same(edits[j].name.as_str(), edits[i].name.as_str()) {
                    let mut s: String = "action `".to_owned();
                    s.append(edits[i].name.as_str());
                    s.append(
                        "` is declared twice — an applied set naming it would resolve to whichever declaration was found first",
                    );
                    assert(declared_before(given, i as int));
                    return Err(VindexError::Parse(s));
                }
                j = j + 1;
            }
            i = i + 1;
        }
        proof {
            let all = edit_names(given);
            assert forall|a: int, b: int|
                0 <= a < all.len() && 0 <= b < all.len() && a != b implies all[a] != all[b] by {
                let (low, high) = if a < b {
                    (a, b)
                } else {
                    (b, a)
                };
                assert(!declared_before(given, high));
                assert(given[low].0 == all[low] && given[high].0 == all[high]);
            }
            assert(all.no_duplicates());
        }
        Ok(ActionVocabulary { edits })
    }

    /// The edits, in order.
    pub fn edits(&self) -> (r: &Vec<MapEdit>)
        ensures
            edits_as(r@) == self@,
            edit_names(self@).no_duplicates(),
    {
        proof {
            use_type_invariant(self);
        }
        &self.edits
    }

    /// How many edits there are.
    pub fn len(&self) -> (r: usize)
        ensures
            r == self@.len(),
    {
        self.edits.len()
    }

    /// Whether there is no edit.
    pub fn is_empty(&self) -> (r: bool)
        ensures
            r == (self@.len() == 0),
    {
        self.edits.len() == 0
    }

    /// Whether an edit has this name.
    pub fn contains(&self, name: &str) -> (r: bool)
        ensures
            r == edit_names(self@).contains(name@),
    {
        let mut i: usize = 0;
        while i < self.edits.len()
            invariant
                i <= self.edits@.len(),
                self@ == edits_as(self.edits@),
                forall|k: int| 0 <= k < i ==> #[trigger] edit_names(self@)[k] != name@,
            decreases self.edits@.len() - i,
        {
            assert(edit_names(self@)[i as int] == self.edits@[i as int].name@);
            if same(self.edits[i].name.as_str(), name) {
                return true;
            }
            i = i + 1;
        }
        false
    }

    /// The names, in order.
    pub fn names(&self) -> (r: Vec<&String>)
        ensures
            r@.map_values(|s: &String| s@) == edit_names(self@),
            edit_names(self@).no_duplicates(),
    {
        proof {
            use_type_invariant(self);
        }
        let mut v: Vec<&String> = Vec::new();
        let mut i: usize = 0;
        while i < self.edits.len()
            invariant
                i <= self.edits@.len(),
                v@.len() == i,
                forall|k: int| 0 <= k < i ==> (#[trigger] v@[k])@ == self.edits@[k].name@,
            decreases self.edits@.len() - i,
        {
            v.push(&self.edits[i].name);
            i = i + 1;
        }
        assert(v@.map_values(|s: &String| s@) =~= edit_names(self@));
        v
    }

    /// **The map an applied set produces.** The applied edits' exceptions come
    /// first, in vocabulary order, so that they outrank the base map's own. A
    /// name the vocabulary does not have is refused.
    pub fn map_for(&self, base: &PrecisionMap, applied: &NameSet) -> (r: Result<
        PrecisionMap,
        VindexError,
    >)
        ensures
            match first_unknown(applied.rows(), edit_names(self@)) {
                Some(name) => r matches Err(e) && e.text() == unknown_action_text(name),
                None => r matches Ok(m) && {
                    &&& m.name@ == base.name@
                    &&& m.encoding@ == base.encoding@
                    &&& m.roles@ == base.roles@
                    &&& m.exceptions@ == chosen(self@, held_in(applied.rows())) + base.exceptions@
                },
            },
    {
        let ghost rows = applied.rows();
        let ghost known = edit_names(self@);
        let mut i: usize = 0;
        assert(rows.skip(0) =~= rows);
        while i < applied.len()
            invariant
                i <= rows.len(),
                rows == applied.rows(),
                known == edit_names(self@),
                first_unknown(rows, known) == first_unknown(rows.skip(i as int), known),
            decreases rows.len() - i,
        {
            let name: &String = applied.name_at(i);
            assert(rows.skip(i as int)[0] == rows[i as int]);
            assert(rows.skip(i as int).skip(1) =~= rows.skip(i as int + 1));
            if !self.contains(name.as_str()) {
                let mut s: String = "action `".to_owned();
                s.append(name.as_str());
                s.append(
                    "` is not in this vocabulary — a state cannot apply a move the search does not have",
                );
                return Err(VindexError::Parse(s));
            }
            i = i + 1;
        }
        let ghost has = held_in(rows);
        let mut exceptions: Vec<Exception> = Vec::new();
        let mut j: usize = 0;
        assert(self@.take(0) =~= Seq::<(Seq<char>, Exception)>::empty());
        while j < self.edits.len()
            invariant
                j <= self.edits@.len(),
                self@ == edits_as(self.edits@),
                has == held_in(applied.rows()),
                exceptions@ == chosen(self@.take(j as int), has),
            decreases self.edits@.len() - j,
        {
            let ghost next = self@.take(j as int + 1);
            assert(next.drop_last() =~= self@.take(j as int));
            assert(next.last() == (
                self.edits@[j as int].name@,
                self.edits@[j as int].exception,
            ));
            if applied.contains(self.edits[j].name.as_str()) {
                exceptions.push(copy_exception(&self.edits[j].exception));
            }
            j = j + 1;
        }
        assert(self@.take(self@.len() as int) =~= self@);
        let ghost first = exceptions@;
        let mut k: usize = 0;
        assert(exceptions@ =~= first + base.exceptions@.take(0));
        while k < base.exceptions.len()
            invariant
                k <= base.exceptions@.len(),
                exceptions@ == first + base.exceptions@.take(k as int),
            decreases base.exceptions@.len() - k,
        {
            exceptions.push(copy_exception(&base.exceptions[k]));
            assert(exceptions@ =~= first + base.exceptions@.take(k as int + 1));
            k = k + 1;
        }
        assert(base.exceptions@.take(base.exceptions@.len() as int) =~= base.exceptions@);
        Ok(
            PrecisionMap {
                name: base.name.clone(),
                encoding: base.encoding.clone(),
                roles: copy_names(&base.roles),
                exceptions,
            },
        )
    }
}

/// **An applied set has one map.** What a set of edits puts into a map depends
/// on which names it holds, not on how it came to hold them.
pub proof fn law_an_applied_set_has_one_map(
    edits: Seq<(Seq<char>, Exception)>,
    a: Seq<(Seq<char>, ())>,
    b: Seq<(Seq<char>, ())>,
)
    requires
        forall|n: Seq<char>| names(a, n) == names(b, n),
    ensures
        chosen(edits, held_in(a)) == chosen(edits, held_in(b)),
    decreases edits.len(),
{
    if edits.len() > 0 {
        law_an_applied_set_has_one_map(edits.drop_last(), a, b);
        assert(names(a, edits.last().0) == names(b, edits.last().0));
    }
}

/// **The first applied edit that governs a tensor decides it**, in the
/// vocabulary's order; where none does, the base map decides as it would
/// alone. A role the base map does not name stays at source precision.
pub proof fn law_the_first_applied_edit_decides(
    base: &PrecisionMap,
    edits: Seq<(Seq<char>, Exception)>,
    has: spec_fn(Seq<char>) -> bool,
    role: Role,
    tensor: Seq<char>,
    k: int,
)
    requires
        0 <= k <= edits.len(),
        forall|j: int|
            0 <= j < k ==> !(has((#[trigger] edits[j]).0) && edits[j].1.governs(role, tensor)),
        k < edits.len() ==> has(edits[k].0) && edits[k].1.governs(role, tensor),
    ensures
        edited_rule(base, chosen(edits, has) + base.exceptions@)(role, tensor) == (if !exists|
            i: int,
        |
            0 <= i < base.roles@.len() && (#[trigger] base.roles@[i])@ == role.title() {
            None
        } else if k == edits.len() {
            base.decides(role, tensor)
        } else {
            match edits[k].1.encoding {
                Some(e) => Some(e@),
                None => None,
            }
        }),
{
    let own = chosen(edits, has);
    let all = own + base.exceptions@;
    if base.compiles(role) {
        if k < edits.len() {
            let at = lemma_chosen_at(edits, has, k);
            assert forall|j: int| 0 <= j < at implies !(#[trigger] all[j]).governs(role, tensor) by {
                let i = lemma_chosen_from(edits, has, j);
                lemma_chosen_ordered(edits, has, j, at, i, k);
                assert(has(edits[i].0));
            }
            lemma_first_governs(all, role, tensor, base.encoding@, at);
        } else {
            assert forall|j: int| 0 <= j < own.len() implies !(#[trigger] own[j]).governs(
                role,
                tensor,
            ) by {
                let i = lemma_chosen_from(edits, has, j);
                assert(has(edits[i].0));
            }
            lemma_none_governs_ahead(own, base.exceptions@, role, tensor, base.encoding@);
        }
    }
}

/// Where the edit at `k` stands among the chosen.
spec fn place_of_edit(edits: Seq<(Seq<char>, Exception)>, has: spec_fn(Seq<char>) -> bool, k: int) -> int {
    chosen(edits.take(k), has).len() as int
}

proof fn lemma_chosen_prefix(edits: Seq<(Seq<char>, Exception)>, has: spec_fn(Seq<char>) -> bool, k: int)
    requires
        0 <= k <= edits.len(),
    ensures
        chosen(edits.take(k), has).len() <= chosen(edits, has).len(),
        forall|i: int|
            0 <= i < chosen(edits.take(k), has).len() ==> chosen(edits, has)[i] == #[trigger] chosen(
                edits.take(k),
                has,
            )[i],
    decreases edits.len(),
{
    if k == edits.len() {
        assert(edits.take(k) =~= edits);
    } else {
        lemma_chosen_prefix(edits.drop_last(), has, k);
        assert(edits.drop_last().take(k) =~= edits.take(k));
    }
}

proof fn lemma_chosen_at(
    edits: Seq<(Seq<char>, Exception)>,
    has: spec_fn(Seq<char>) -> bool,
    k: int,
) -> (at: int)
    requires
        0 <= k < edits.len(),
        has(edits[k].0),
    ensures
        at == place_of_edit(edits, has, k),
        0 <= at < chosen(edits, has).len(),
        chosen(edits, has)[at] == edits[k].1,
{
    let at = place_of_edit(edits, has, k);
    let next = edits.take(k + 1);
    assert(next.drop_last() =~= edits.take(k));
    assert(chosen(next, has)[at] == edits[k].1);
    lemma_chosen_prefix(edits, has, k + 1);
    at
}

proof fn lemma_chosen_from(
    edits: Seq<(Seq<char>, Exception)>,
    has: spec_fn(Seq<char>) -> bool,
    j: int,
) -> (i: int)
    requires
        0 <= j < chosen(edits, has).len(),
    ensures
        0 <= i < edits.len(),
        has(edits[i].0),
        edits[i].1 == chosen(edits, has)[j],
        place_of_edit(edits, has, i) == j,
    decreases edits.len(),
{
    let rest = edits.drop_last();
    if j < chosen(rest, has).len() {
        let i = lemma_chosen_from(rest, has, j);
        assert(rest.take(i) =~= edits.take(i));
        i
    } else {
        assert(edits.take(edits.len() - 1) =~= rest);
        edits.len() - 1
    }
}

proof fn lemma_chosen_ordered(
    edits: Seq<(Seq<char>, Exception)>,
    has: spec_fn(Seq<char>) -> bool,
    j: int,
    at: int,
    i: int,
    k: int,
)
    requires
        0 <= i < edits.len(),
        0 <= k < edits.len(),
        place_of_edit(edits, has, i) == j,
        place_of_edit(edits, has, k) == at,
        j < at,
    ensures
        i < k,
{
    if k <= i {
        lemma_chosen_prefix(edits.take(i), has, k);
        assert(edits.take(i).take(k) =~= edits.take(k));
    }
}

proof fn lemma_none_governs_ahead(
    ahead: Seq<Exception>,
    rest: Seq<Exception>,
    role: Role,
    tensor: Seq<char>,
    default: Seq<char>,
)
    requires
        forall|j: int| 0 <= j < ahead.len() ==> !(#[trigger] ahead[j]).governs(role, tensor),
    ensures
        excepted(ahead + rest, role, tensor, default) == excepted(rest, role, tensor, default),
    decreases ahead.len(),
{
    if ahead.len() == 0 {
        assert(ahead + rest =~= rest);
    } else {
        assert(!ahead[0].governs(role, tensor));
        let less = ahead.skip(1);
        assert forall|j: int| 0 <= j < less.len() implies !(#[trigger] less[j]).governs(
            role,
            tensor,
        ) by {
            assert(less[j] == ahead[j + 1]);
        }
        assert((ahead + rest).skip(1) =~= less + rest);
        lemma_none_governs_ahead(less, rest, role, tensor, default);
    }
}

/// **The first unknown name is the one refused.** There is one exactly where
/// some name is no edit's; it is held, it is no edit's, and every name held
/// before it is an edit's.
pub proof fn law_the_first_unknown_name(rows: Seq<(Seq<char>, ())>, known: Seq<Seq<char>>, i: int)
    ensures
        first_unknown(rows, known) is None <==> forall|k: int|
            0 <= k < rows.len() ==> known.contains((#[trigger] rows[k]).0),
        0 <= i < rows.len() && !known.contains(rows[i].0) && (forall|k: int|
            0 <= k < i ==> known.contains((#[trigger] rows[k]).0)) ==> first_unknown(rows, known)
            == Some(rows[i].0),
    decreases rows.len(),
{
    if rows.len() > 0 {
        let rest = rows.skip(1);
        law_the_first_unknown_name(rest, known, i - 1);
        assert forall|k: int| 0 <= k < rest.len() implies #[trigger] rest[k] == rows[k + 1] by {}
        if known.contains(rows[0].0) {
            if first_unknown(rows, known) is None {
                assert forall|k: int| 0 <= k < rows.len() implies known.contains(
                    (#[trigger] rows[k]).0,
                ) by {
                    if k > 0 {
                        assert(rest[k - 1] == rows[k]);
                    }
                }
            } else {
                assert(exists|k: int| 0 <= k < rest.len() && !known.contains((#[trigger] rest[k]).0));
                let k = choose|k: int| 0 <= k < rest.len() && !known.contains((#[trigger] rest[k]).0);
                assert(rows[k + 1] == rest[k]);
            }
            if 0 < i < rows.len() && !known.contains(rows[i].0) && (forall|k: int|
                0 <= k < i ==> known.contains((#[trigger] rows[k]).0)) {
                assert(rest[i - 1] == rows[i]);
                assert forall|k: int| 0 <= k < i - 1 implies known.contains(
                    (#[trigger] rest[k]).0,
                ) by {
                    assert(rest[k] == rows[k + 1]);
                }
            }
        } else {
            assert(!known.contains(rows[0].0));
            if 0 < i < rows.len() && (forall|k: int|
                0 <= k < i ==> known.contains((#[trigger] rows[k]).0)) {
                assert(known.contains(rows[0].0));
            }
        }
    }
}

} // verus!

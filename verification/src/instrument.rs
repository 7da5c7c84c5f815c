//! What a measurement means, not which binary took it.
//!
//! The identity is a digest of declared semantics: a refactor that changes
//! none of them keeps it, and a different truncation, aggregation, selection,
//! metric or procedure moves it.
use crate::canon::{
    free_of, joined, lemma_first_part, lemma_free_of_both, lemma_joined_identify, lemma_label,
    lemma_next_part, short, short_of, FIELD, SECTION,
};
use crate::digest::{digest_of, digest_text};
use crate::text::{decimal, lemma_decimal_identifies, lemma_decimal_is_digits, push_decimal};
use vstd::prelude::*;
use vstd::string::*;

verus! {

/// The canonical-form version every instrument id is computed under.
pub const INSTRUMENT_SEMANTICS_ID_VERSION: &'static str = "instrument-semantics-id/v1";

/// What an instrument means, as a digest of its declared semantics.
#[derive(Debug, PartialEq, Eq, PartialOrd, Ord, Hash)]
pub struct InstrumentSemanticsId {
    digest: String,
}

impl View for InstrumentSemanticsId {
    type V = Seq<char>;

    closed spec fn view(&self) -> Seq<char> {
        self.digest@
    }
}

impl Clone for InstrumentSemanticsId {
    fn clone(&self) -> (r: Self)
        ensures
            r == *self,
    {
        InstrumentSemanticsId { digest: self.digest.clone() }
    }
}

impl InstrumentSemanticsId {
    /// An id as a record stored it.
    pub fn stored(digest: &str) -> (r: InstrumentSemanticsId)
        ensures
            r@ == digest@,
    {
        InstrumentSemanticsId { digest: digest.to_owned() }
    }

    /// The id as text.
    pub fn as_str(&self) -> (r: &str)
        ensures
            r@ == self@,
    {
        self.digest.as_str()
    }

    /// The first twelve characters, for reports.
    pub fn short(&self) -> (r: &str)
        ensures
            r@ == short_of(self@),
    {
        short(self.digest.as_str())
    }
}

/// Every choice that changes what a reading is.
#[derive(Debug, Clone, PartialEq, Eq)]
pub struct InstrumentSemantics {
    /// What is computed.
    pub metric: String,
    /// The window it is computed over; `None` is the whole distribution.
    pub truncation: Option<u32>,
    /// How readings become one number.
    pub aggregation: String,
    /// Which positions contributed.
    pub token_selection: String,
    /// What the reading was taken under.
    pub procedure: String,
    /// What took it. No part of the identity.
    pub implementation_note: Option<String>,
}

/// A truncation as identities write it.
pub open spec fn truncation_text(truncation: Option<u32>) -> Seq<char> {
    match truncation {
        Some(n) => decimal(n as nat),
        None => "untruncated"@,
    }
}

impl InstrumentSemantics {
    /// What the instrument id is a digest of.
    pub open spec fn canonical(&self) -> Seq<char> {
        INSTRUMENT_SEMANTICS_ID_VERSION@ + SECTION@ + "metric="@ + self.metric@ + FIELD@
            + "truncation="@ + truncation_text(self.truncation) + FIELD@ + "aggregation="@
            + self.aggregation@ + FIELD@ + "tokens="@ + self.token_selection@ + FIELD@
            + "procedure="@ + self.procedure@
    }

    /// An untruncated instrument.
    pub fn new(
        metric: &str,
        aggregation: &str,
        token_selection: &str,
        procedure: &str,
    ) -> (r: InstrumentSemantics)
        ensures
            r.metric@ == metric@,
            r.truncation is None,
            r.aggregation@ == aggregation@,
            r.token_selection@ == token_selection@,
            r.procedure@ == procedure@,
            r.implementation_note is None,
    {
        InstrumentSemantics {
            metric: metric.to_owned(),
            truncation: None,
            aggregation: aggregation.to_owned(),
            token_selection: token_selection.to_owned(),
            procedure: procedure.to_owned(),
            implementation_note: None,
        }
    }

    /// Over the top `top_n`.
    pub fn truncated_to(self, top_n: u32) -> (r: InstrumentSemantics)
        ensures
            r == (InstrumentSemantics { truncation: Some(top_n), ..self }),
    {
        InstrumentSemantics { truncation: Some(top_n), ..self }
    }

    /// Taken by `note`.
    pub fn implemented_by(self, note: &str) -> (r: InstrumentSemantics)
        ensures
            r.implementation_note matches Some(n) && n@ == note@,
            r == (InstrumentSemantics { implementation_note: r.implementation_note, ..self }),
    {
        InstrumentSemantics { implementation_note: Some(note.to_owned()), ..self }
    }

    /// What this instrument means.
    pub fn id(&self) -> (r: InstrumentSemanticsId)
        ensures
            r@ == digest_of(self.canonical()),
            r@.len() == 64,
    {
        let mut s: String = INSTRUMENT_SEMANTICS_ID_VERSION.to_owned();
        s.append(SECTION);
        s.append("metric=");
        s.append(self.metric.as_str());
        s.append(FIELD);
        s.append("truncation=");
        match self.truncation {
            Some(n) => push_decimal(&mut s, n as u64),
            None => s.append("untruncated"),
        }
        s.append(FIELD);
        s.append("aggregation=");
        s.append(self.aggregation.as_str());
        s.append(FIELD);
        s.append("tokens=");
        s.append(self.token_selection.as_str());
        s.append(FIELD);
        s.append("procedure=");
        s.append(self.procedure.as_str());
        InstrumentSemanticsId { digest: digest_text(s.as_str()) }
    }
}

/// **A refactor keeps the instrument.** What took a reading is no part of what
/// it means.
pub proof fn law_implementation_is_no_part_of_meaning(
    a: InstrumentSemantics,
    b: InstrumentSemantics,
)
    requires
        a.metric@ == b.metric@,
        a.truncation == b.truncation,
        a.aggregation@ == b.aggregation@,
        a.token_selection@ == b.token_selection@,
        a.procedure@ == b.procedure@,
    ensures
        a.canonical() == b.canonical(),
{
}

/// **A different truncation is a different instrument**, and no truncation is
/// not a large one.
pub proof fn law_truncation_is_meaning(a: InstrumentSemantics, b: InstrumentSemantics)
    requires
        a.metric@ == b.metric@,
        a.truncation != b.truncation,
        a.aggregation@ == b.aggregation@,
        a.token_selection@ == b.token_selection@,
        a.procedure@ == b.procedure@,
    ensures
        a.canonical() != b.canonical(),
{
    let head = INSTRUMENT_SEMANTICS_ID_VERSION@ + SECTION@ + "metric="@ + a.metric@ + FIELD@
        + "truncation="@;
    let x = truncation_text(a.truncation);
    let y = truncation_text(b.truncation);
    lemma_truncation_text(a.truncation, b.truncation);
    if a.canonical() == b.canonical() {
        assert(a.canonical().len() == b.canonical().len());
        assert(x.len() == y.len());
        let n = head.len() as int;
        assert(a.canonical().subrange(n, n + x.len()) =~= x);
        assert(b.canonical().subrange(n, n + x.len()) =~= y);
    }
}

proof fn lemma_truncation_text(a: Option<u32>, b: Option<u32>)
    requires
        a != b,
    ensures
        truncation_text(a) != truncation_text(b),
{
    reveal_strlit("untruncated");
    match (a, b) {
        (Some(x), Some(y)) => {
            lemma_decimal_identifies(x as nat, y as nat);
        },
        (Some(x), None) => {
            lemma_decimal_is_digits(x as nat);
            assert(truncation_text(a)[0] != 'u');
        },
        (None, Some(y)) => {
            lemma_decimal_is_digits(y as nat);
            assert(truncation_text(b)[0] != 'u');
        },
        (None, None) => {},
    }
}

/// The parts of an instrument's canonical text.
spec fn meaning_parts(a: InstrumentSemantics) -> Seq<Seq<char>> {
    seq!["metric="@ + a.metric@].push("truncation="@ + truncation_text(a.truncation)).push(
        "aggregation="@ + a.aggregation@,
    ).push("tokens="@ + a.token_selection@).push("procedure="@ + a.procedure@)
}

proof fn lemma_meaning_parts(a: InstrumentSemantics)
    ensures
        a.canonical() == INSTRUMENT_SEMANTICS_ID_VERSION@ + SECTION@ + joined(
            meaning_parts(a),
            FIELD@,
        ),
{
    let head = INSTRUMENT_SEMANTICS_ID_VERSION@ + SECTION@;
    let p1 = seq!["metric="@ + a.metric@];
    let p2 = p1.push("truncation="@ + truncation_text(a.truncation));
    let p3 = p2.push("aggregation="@ + a.aggregation@);
    let p4 = p3.push("tokens="@ + a.token_selection@);
    lemma_first_part(head, "metric="@, a.metric@, FIELD@);
    lemma_next_part(head, p1, "truncation="@, truncation_text(a.truncation), FIELD@);
    lemma_next_part(head, p2, "aggregation="@, a.aggregation@, FIELD@);
    lemma_next_part(head, p3, "tokens="@, a.token_selection@, FIELD@);
    lemma_next_part(head, p4, "procedure="@, a.procedure@, FIELD@);
}

proof fn lemma_meaning_parts_are_clear(a: InstrumentSemantics)
    requires
        free_of(a.metric@, '\u{1f}'),
        free_of(a.aggregation@, '\u{1f}'),
        free_of(a.token_selection@, '\u{1f}'),
        free_of(a.procedure@, '\u{1f}'),
    ensures
        forall|i: int|
            0 <= i < meaning_parts(a).len() ==> free_of(
                #[trigger] meaning_parts(a)[i],
                '\u{1f}',
            ),
{
    reveal_strlit("metric=");
    reveal_strlit("truncation=");
    reveal_strlit("aggregation=");
    reveal_strlit("tokens=");
    reveal_strlit("procedure=");
    reveal_strlit("untruncated");
    assert(free_of(truncation_text(a.truncation), '\u{1f}')) by {
        match a.truncation {
            Some(n) => {
                lemma_decimal_is_digits(n as nat);
            },
            None => {},
        }
    }
    lemma_free_of_both("metric="@, a.metric@, '\u{1f}');
    lemma_free_of_both("truncation="@, truncation_text(a.truncation), '\u{1f}');
    lemma_free_of_both("aggregation="@, a.aggregation@, '\u{1f}');
    lemma_free_of_both("tokens="@, a.token_selection@, '\u{1f}');
    lemma_free_of_both("procedure="@, a.procedure@, '\u{1f}');
}

/// **Every semantic field is meaning.** Two instruments whose texts hold no
/// field separator are written alike only where the metric, the truncation,
/// the aggregation, the token selection and the procedure all agree.
pub proof fn law_every_semantic_field_is_meaning(a: InstrumentSemantics, b: InstrumentSemantics)
    requires
        free_of(a.metric@, '\u{1f}') && free_of(b.metric@, '\u{1f}'),
        free_of(a.aggregation@, '\u{1f}') && free_of(b.aggregation@, '\u{1f}'),
        free_of(a.token_selection@, '\u{1f}') && free_of(b.token_selection@, '\u{1f}'),
        free_of(a.procedure@, '\u{1f}') && free_of(b.procedure@, '\u{1f}'),
        a.canonical() == b.canonical(),
    ensures
        a.metric@ == b.metric@,
        a.truncation == b.truncation,
        a.aggregation@ == b.aggregation@,
        a.token_selection@ == b.token_selection@,
        a.procedure@ == b.procedure@,
{
    reveal_strlit("\u{1f}");
    assert(FIELD@ =~= seq!['\u{1f}']);
    let head = INSTRUMENT_SEMANTICS_ID_VERSION@ + SECTION@;
    let x = meaning_parts(a);
    let y = meaning_parts(b);
    lemma_meaning_parts(a);
    lemma_meaning_parts(b);
    lemma_label(head, joined(x, FIELD@), joined(y, FIELD@));
    lemma_meaning_parts_are_clear(a);
    lemma_meaning_parts_are_clear(b);
    lemma_joined_identify(x, y, FIELD@, '\u{1f}');
    assert(x[0] == y[0] && x[1] == y[1] && x[2] == y[2] && x[3] == y[3] && x[4] == y[4]);
    lemma_label("metric="@, a.metric@, b.metric@);
    lemma_label("truncation="@, truncation_text(a.truncation), truncation_text(b.truncation));
    lemma_label("aggregation="@, a.aggregation@, b.aggregation@);
    lemma_label("tokens="@, a.token_selection@, b.token_selection@);
    lemma_label("procedure="@, a.procedure@, b.procedure@);
    if a.truncation != b.truncation {
        lemma_truncation_text(a.truncation, b.truncation);
    }
}

} // verus!

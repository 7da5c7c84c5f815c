//! Which samples an observation was taken over.
//!
//! A bank is its schema, its manifest and the samples used, in the order
//! used. Where it is stored and what it was called are no part of it.
use crate::canon::{
    clear, free_of, join, joined, lemma_first_part, lemma_free_of_both, lemma_free_of_joined,
    lemma_joined_identify, lemma_joined_records_identify, lemma_label, lemma_next_part,
    lemma_only_nothing_joins_to_nothing, plain, short, short_of, texts, FIELD, RECORD, SECTION,
};
use crate::digest::{digest_of, digest_text};
use crate::text::{decimal, lemma_decimal_identifies, lemma_decimal_is_digits, push_decimal};
use vstd::prelude::*;
use vstd::string::*;

verus! {

/// The canonical-form version every bank id is computed under.
pub const EVIDENCE_BANK_ID_VERSION: &'static str = "evidence-bank-id/v1";

/// What a corpus is, by the samples it presents.
#[derive(Debug, PartialEq, Eq, PartialOrd, Ord, Hash)]
pub struct EvidenceBankId {
    digest: String,
}

impl View for EvidenceBankId {
    type V = Seq<char>;

    closed spec fn view(&self) -> Seq<char> {
        self.digest@
    }
}

impl Clone for EvidenceBankId {
    fn clone(&self) -> (r: Self)
        ensures
            r == *self,
    {
        EvidenceBankId { digest: self.digest.clone() }
    }
}

impl EvidenceBankId {
    /// An id as a record stored it.
    pub fn stored(digest: &str) -> (r: EvidenceBankId)
        ensures
            r@ == digest@,
    {
        EvidenceBankId { digest: digest.to_owned() }
    }

    /// The id as text.
    pub fn as_str(&self) -> (r: &str)
        ensures
            r@ == self@,
    {
        self.digest.as_str()
    }

    /// The first twelve characters, for reports.
    pub fn short(&self) -> (r: &str)
        ensures
            r@ == short_of(self@),
    {
        short(self.digest.as_str())
    }
}

/// The corpus an observation was taken over.
#[derive(Debug, Clone, PartialEq, Eq)]
pub struct EvidenceBank {
    /// The format the samples are in.
    pub schema: String,
    /// The corpus's own manifest digest.
    pub manifest_sha256: String,
    /// The samples used, in the order used.
    pub samples: Vec<String>,
    /// Positions each sample contributes.
    pub positions_per_sample: u32,
    /// Where the bank was last seen.
    pub locator_hint: Option<String>,
    /// What it was called.
    pub description: Option<String>,
}

impl EvidenceBank {
    /// What the bank id is a digest of.
    pub open spec fn canonical(&self) -> Seq<char> {
        EVIDENCE_BANK_ID_VERSION@ + SECTION@ + "schema="@ + self.schema@ + FIELD@ + "manifest="@
            + self.manifest_sha256@ + FIELD@ + "positions_per_sample="@ + decimal(
            self.positions_per_sample as nat,
        ) + SECTION@ + "samples="@ + joined(texts(self.samples@), RECORD@)
    }

    /// A bank of these samples.
    pub fn new(
        schema: &str,
        manifest_sha256: &str,
        samples: Vec<String>,
        positions_per_sample: u32,
    ) -> (r: EvidenceBank)
        ensures
            r.schema@ == schema@,
            r.manifest_sha256@ == manifest_sha256@,
            r.samples@ == samples@,
            r.positions_per_sample == positions_per_sample,
            r.locator_hint is None,
            r.description is None,
    {
        EvidenceBank {
            schema: schema.to_owned(),
            manifest_sha256: manifest_sha256.to_owned(),
            samples,
            positions_per_sample,
            locator_hint: None,
            description: None,
        }
    }

    /// Last seen at `locator`.
    pub fn found_at(self, locator: &str) -> (r: EvidenceBank)
        ensures
            r.locator_hint matches Some(l) && l@ == locator@,
            r == (EvidenceBank { locator_hint: r.locator_hint, ..self }),
    {
        EvidenceBank { locator_hint: Some(locator.to_owned()), ..self }
    }

    /// Called `description`.
    pub fn described(self, description: &str) -> (r: EvidenceBank)
        ensures
            r.description matches Some(d) && d@ == description@,
            r == (EvidenceBank { description: r.description, ..self }),
    {
        EvidenceBank { description: Some(description.to_owned()), ..self }
    }

    /// How many positions the samples have together.
    pub fn positions(&self) -> (r: u64)
        requires
            self.samples@.len() * self.positions_per_sample <= u64::MAX,
        ensures
            r == self.samples@.len() * self.positions_per_sample,
    {
        self.samples.len() as u64 * self.positions_per_sample as u64
    }

    /// How many samples are used.
    pub fn sample_count(&self) -> (r: usize)
        ensures
            r == self.samples@.len(),
    {
        self.samples.len()
    }

    /// What this bank is.
    pub fn id(&self) -> (r: EvidenceBankId)
        ensures
            r@ == digest_of(self.canonical()),
            r@.len() == 64,
    {
        let mut s: String = EVIDENCE_BANK_ID_VERSION.to_owned();
        s.append(SECTION);
        s.append("schema=");
        s.append(self.schema.as_str());
        s.append(FIELD);
        s.append("manifest=");
        s.append(self.manifest_sha256.as_str());
        s.append(FIELD);
        s.append("positions_per_sample=");
        push_decimal(&mut s, self.positions_per_sample as u64);
        s.append(SECTION);
        s.append("samples=");
        s.append(join(&self.samples, RECORD).as_str());
        EvidenceBankId { digest: digest_text(s.as_str()) }
    }
}

/// **A bank that moved is the same bank.** Where it was last seen and what it
/// was called are no part of its identity.
pub proof fn law_a_moved_bank_is_the_same_bank(a: EvidenceBank, b: EvidenceBank)
    requires
        a.schema@ == b.schema@,
        a.manifest_sha256@ == b.manifest_sha256@,
        texts(a.samples@) == texts(b.samples@),
        a.positions_per_sample == b.positions_per_sample,
    ensures
        a.canonical() == b.canonical(),
{
}

/// **A different slice is a different bank.** Two banks that differ in a
/// sample, with no record separator in any of the samples they name, are
/// written differently; only a bank of no sample and one of a single empty
/// sample are not.
pub proof fn law_samples_are_identity(a: EvidenceBank, b: EvidenceBank)
    requires
        a.schema@ == b.schema@,
        a.manifest_sha256@ == b.manifest_sha256@,
        a.positions_per_sample == b.positions_per_sample,
        !(a.samples@.len() == 0 && texts(b.samples@) == seq![Seq::<char>::empty()]),
        !(b.samples@.len() == 0 && texts(a.samples@) == seq![Seq::<char>::empty()]),
        forall|i: int| 0 <= i < a.samples@.len() ==> plain((#[trigger] a.samples@[i])@),
        forall|i: int| 0 <= i < b.samples@.len() ==> plain((#[trigger] b.samples@[i])@),
        texts(a.samples@) != texts(b.samples@),
    ensures
        a.canonical() != b.canonical(),
{
    let head = EVIDENCE_BANK_ID_VERSION@ + SECTION@ + "schema="@ + a.schema@ + FIELD@ + "manifest="@
        + a.manifest_sha256@ + FIELD@ + "positions_per_sample="@ + decimal(
        a.positions_per_sample as nat,
    ) + SECTION@ + "samples="@;
    if a.canonical() == b.canonical() {
        let x = joined(texts(a.samples@), RECORD@);
        let y = joined(texts(b.samples@), RECORD@);
        assert(a.canonical().skip(head.len() as int) =~= x);
        assert(b.canonical().skip(head.len() as int) =~= y);
        assert forall|i: int| 0 <= i < texts(a.samples@).len() implies plain(
            #[trigger] texts(a.samples@)[i],
        ) by {
            assert(plain(a.samples@[i]@));
        }
        assert forall|i: int| 0 <= i < texts(b.samples@).len() implies plain(
            #[trigger] texts(b.samples@)[i],
        ) by {
            assert(plain(b.samples@[i]@));
        }
        if a.samples@.len() > 0 && b.samples@.len() > 0 {
            lemma_joined_records_identify(texts(a.samples@), texts(b.samples@));
        } else {
            lemma_only_nothing_joins_to_nothing(texts(a.samples@));
            lemma_only_nothing_joins_to_nothing(texts(b.samples@));
            assert(texts(a.samples@) =~= texts(b.samples@));
        }
    }
}

/// The fields of a bank's canonical text, before its samples.
spec fn bank_fields(a: EvidenceBank) -> Seq<Seq<char>> {
    seq!["schema="@ + a.schema@].push("manifest="@ + a.manifest_sha256@).push(
        "positions_per_sample="@ + decimal(a.positions_per_sample as nat),
    )
}

/// The sections of a bank's canonical text, behind its version.
spec fn bank_sections(a: EvidenceBank) -> Seq<Seq<char>> {
    seq![joined(bank_fields(a), FIELD@)].push("samples="@ + joined(texts(a.samples@), RECORD@))
}

proof fn lemma_bank_sections(a: EvidenceBank)
    ensures
        a.canonical() == EVIDENCE_BANK_ID_VERSION@ + SECTION@ + joined(bank_sections(a), SECTION@),
{
    let head = EVIDENCE_BANK_ID_VERSION@ + SECTION@;
    let p1 = seq!["schema="@ + a.schema@];
    let p2 = p1.push("manifest="@ + a.manifest_sha256@);
    lemma_first_part(head, "schema="@, a.schema@, FIELD@);
    lemma_next_part(head, p1, "manifest="@, a.manifest_sha256@, FIELD@);
    lemma_next_part(
        head,
        p2,
        "positions_per_sample="@,
        decimal(a.positions_per_sample as nat),
        FIELD@,
    );
    lemma_next_part(
        head,
        seq![joined(bank_fields(a), FIELD@)],
        "samples="@,
        joined(texts(a.samples@), RECORD@),
        SECTION@,
    );
}

/// No separator stands in what a bank states.
pub open spec fn bank_is_clear(a: EvidenceBank) -> bool {
    &&& clear(a.schema@)
    &&& clear(a.manifest_sha256@)
    &&& forall|i: int| 0 <= i < a.samples@.len() ==> clear((#[trigger] a.samples@[i])@)
}

proof fn lemma_bank_fields_are_free(a: EvidenceBank, c: char)
    requires
        bank_is_clear(a),
        c == '\u{1d}' || c == '\u{1f}',
    ensures
        forall|i: int| 0 <= i < bank_fields(a).len() ==> free_of(#[trigger] bank_fields(a)[i], c),
{
    reveal_strlit("schema=");
    reveal_strlit("manifest=");
    reveal_strlit("positions_per_sample=");
    lemma_decimal_is_digits(a.positions_per_sample as nat);
    assert(free_of(decimal(a.positions_per_sample as nat), c));
    lemma_free_of_both("schema="@, a.schema@, c);
    lemma_free_of_both("manifest="@, a.manifest_sha256@, c);
    lemma_free_of_both("positions_per_sample="@, decimal(a.positions_per_sample as nat), c);
}

proof fn lemma_bank_sections_are_free(a: EvidenceBank)
    requires
        bank_is_clear(a),
    ensures
        forall|i: int|
            0 <= i < bank_sections(a).len() ==> free_of(#[trigger] bank_sections(a)[i], '\u{1d}'),
{
    reveal_strlit("samples=");
    reveal_strlit("\u{1e}");
    reveal_strlit("\u{1f}");
    assert(RECORD@ =~= seq!['\u{1e}']);
    assert(FIELD@ =~= seq!['\u{1f}']);
    lemma_bank_fields_are_free(a, '\u{1d}');
    lemma_free_of_joined(bank_fields(a), FIELD@, '\u{1d}');
    assert forall|i: int| 0 <= i < texts(a.samples@).len() implies free_of(
        #[trigger] texts(a.samples@)[i],
        '\u{1d}',
    ) by {
        assert(clear(a.samples@[i]@));
    }
    lemma_free_of_joined(texts(a.samples@), RECORD@, '\u{1d}');
    lemma_free_of_both("samples="@, joined(texts(a.samples@), RECORD@), '\u{1d}');
}

/// **A bank is all that it states.** Banks whose texts hold no separator are
/// written alike only where the schema, the manifest, the positions of a
/// sample and the samples in order agree; only a bank of no sample and one of
/// a single empty sample are not told apart.
pub proof fn law_a_bank_is_all_it_states(a: EvidenceBank, b: EvidenceBank)
    requires
        bank_is_clear(a),
        bank_is_clear(b),
        !(a.samples@.len() == 0 && texts(b.samples@) == seq![Seq::<char>::empty()]),
        !(b.samples@.len() == 0 && texts(a.samples@) == seq![Seq::<char>::empty()]),
        a.canonical() == b.canonical(),
    ensures
        a.schema@ == b.schema@,
        a.manifest_sha256@ == b.manifest_sha256@,
        a.positions_per_sample == b.positions_per_sample,
        texts(a.samples@) == texts(b.samples@),
{
    reveal_strlit("\u{1d}");
    reveal_strlit("\u{1f}");
    assert(SECTION@ =~= seq!['\u{1d}']);
    assert(FIELD@ =~= seq!['\u{1f}']);
    let head = EVIDENCE_BANK_ID_VERSION@ + SECTION@;
    let x = bank_sections(a);
    let y = bank_sections(b);
    lemma_bank_sections(a);
    lemma_bank_sections(b);
    lemma_label(head, joined(x, SECTION@), joined(y, SECTION@));
    lemma_bank_sections_are_free(a);
    lemma_bank_sections_are_free(b);
    lemma_joined_identify(x, y, SECTION@, '\u{1d}');
    assert(x[0] == y[0]);
    lemma_bank_fields_are_free(a, '\u{1f}');
    lemma_bank_fields_are_free(b, '\u{1f}');
    let u = bank_fields(a);
    let v = bank_fields(b);
    lemma_joined_identify(u, v, FIELD@, '\u{1f}');
    assert(u[0] == v[0] && u[1] == v[1] && u[2] == v[2]);
    lemma_label("schema="@, a.schema@, b.schema@);
    lemma_label("manifest="@, a.manifest_sha256@, b.manifest_sha256@);
    lemma_label(
        "positions_per_sample="@,
        decimal(a.positions_per_sample as nat),
        decimal(b.positions_per_sample as nat),
    );
    if a.positions_per_sample != b.positions_per_sample {
        lemma_decimal_identifies(a.positions_per_sample as nat, b.positions_per_sample as nat);
    }
    assert forall|i: int| 0 <= i < a.samples@.len() implies plain(
        (#[trigger] a.samples@[i])@,
    ) by {
        assert(clear(a.samples@[i]@));
    }
    assert forall|i: int| 0 <= i < b.samples@.len() implies plain(
        (#[trigger] b.samples@[i])@,
    ) by {
        assert(clear(b.samples@[i]@));
    }
    if texts(a.samples@) != texts(b.samples@) {
        law_samples_are_identity(a, b);
    }
}

} // verus!

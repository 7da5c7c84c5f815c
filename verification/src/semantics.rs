//! Which rules turned facts into conclusions.
//!
//! A conclusion drawn under other rules is not a corrupted record. Each field
//! names a normative version, and the identity is a digest of all of them.
use crate::canon::{
    free_of, joined, lemma_first_part, lemma_free_of_both, lemma_joined_identify, lemma_label,
    lemma_next_part, short, short_of, FIELD, SECTION,
};
use crate::digest::{digest_of, digest_text};
use vstd::prelude::*;
use vstd::string::*;

verus! {

/// The canonical-form version every semantics id is computed under.
pub const SEARCH_SEMANTICS_ID_VERSION: &'static str = "search-semantics-id/v1";

/// What rules a conclusion was drawn under.
#[derive(Debug, PartialEq, Eq, PartialOrd, Ord, Hash)]
pub struct SearchSemanticsId {
    digest: String,
}

impl View for SearchSemanticsId {
    type V = Seq<char>;

    closed spec fn view(&self) -> Seq<char> {
        self.digest@
    }
}

impl Clone for SearchSemanticsId {
    fn clone(&self) -> (r: Self)
        ensures
            r == *self,
    {
        SearchSemanticsId { digest: self.digest.clone() }
    }
}

impl SearchSemanticsId {
    /// The id as text.
    pub fn as_str(&self) -> (r: &str)
        ensures
            r@ == self@,
    {
        self.digest.as_str()
    }

    /// The first twelve characters, for reports.
    pub fn short(&self) -> (r: &str)
        ensures
            r@ == short_of(self@),
    {
        short(self.digest.as_str())
    }
}

/// The decision procedures between a fact and a conclusion.
#[derive(Debug, Clone, PartialEq, Eq)]
pub struct SearchSemantics {
    /// How candidate states are proposed.
    pub candidate_generation: String,
    /// What may be pruned before it is measured.
    pub pre_measurement_pruning: String,
    /// How a statistic may be used.
    pub evidence_interpretation: String,
    /// How candidates become admitted maps.
    pub promotion_rule: String,
    /// How eligible candidates are ordered for measurement.
    pub ranking_rule: String,
    /// How bytes are counted.
    pub physical_accounting: String,
    /// Which layout policy decided what could be compiled.
    pub layout_admission: String,
}

impl SearchSemantics {
    /// What the semantics id is a digest of.
    pub open spec fn canonical(&self) -> Seq<char> {
        SEARCH_SEMANTICS_ID_VERSION@ + SECTION@ + "generation="@ + self.candidate_generation@
            + FIELD@ + "pruning="@ + self.pre_measurement_pruning@ + FIELD@ + "evidence="@
            + self.evidence_interpretation@ + FIELD@ + "promotion="@ + self.promotion_rule@ + FIELD@
            + "ranking="@ + self.ranking_rule@ + FIELD@ + "physical="@ + self.physical_accounting@
            + FIELD@ + "layout="@ + self.layout_admission@
    }

    /// These rules.
    pub fn new(
        candidate_generation: &str,
        pre_measurement_pruning: &str,
        evidence_interpretation: &str,
        promotion: &str,
        ranking: &str,
        physical_accounting: &str,
        layout_admission: &str,
    ) -> (r: SearchSemantics)
        ensures
            r.candidate_generation@ == candidate_generation@,
            r.pre_measurement_pruning@ == pre_measurement_pruning@,
            r.evidence_interpretation@ == evidence_interpretation@,
            r.promotion_rule@ == promotion@,
            r.ranking_rule@ == ranking@,
            r.physical_accounting@ == physical_accounting@,
            r.layout_admission@ == layout_admission@,
    {
        SearchSemantics {
            candidate_generation: candidate_generation.to_owned(),
            pre_measurement_pruning: pre_measurement_pruning.to_owned(),
            evidence_interpretation: evidence_interpretation.to_owned(),
            promotion_rule: promotion.to_owned(),
            ranking_rule: ranking.to_owned(),
            physical_accounting: physical_accounting.to_owned(),
            layout_admission: layout_admission.to_owned(),
        }
    }

    /// What these rules are.
    pub fn id(&self) -> (r: SearchSemanticsId)
        ensures
            r@ == digest_of(self.canonical()),
            r@.len() == 64,
    {
        let mut s: String = SEARCH_SEMANTICS_ID_VERSION.to_owned();
        s.append(SECTION);
        s.append("generation=");
        s.append(self.candidate_generation.as_str());
        s.append(FIELD);
        s.append("pruning=");
        s.append(self.pre_measurement_pruning.as_str());
        s.append(FIELD);
        s.append("evidence=");
        s.append(self.evidence_interpretation.as_str());
        s.append(FIELD);
        s.append("promotion=");
        s.append(self.promotion_rule.as_str());
        s.append(FIELD);
        s.append("ranking=");
        s.append(self.ranking_rule.as_str());
        s.append(FIELD);
        s.append("physical=");
        s.append(self.physical_accounting.as_str());
        s.append(FIELD);
        s.append("layout=");
        s.append(self.layout_admission.as_str());
        SearchSemanticsId { digest: digest_text(s.as_str()) }
    }
}

/// The parts of the rules' canonical text.
spec fn rule_parts(a: SearchSemantics) -> Seq<Seq<char>> {
    seq!["generation="@ + a.candidate_generation@].push("pruning="@ + a.pre_measurement_pruning@).push("evidence="@ + a.evidence_interpretation@).push("promotion="@ + a.promotion_rule@).push("ranking="@ + a.ranking_rule@).push("physical="@ + a.physical_accounting@).push("layout="@ + a.layout_admission@)
}

proof fn lemma_rule_parts(a: SearchSemantics)
    ensures
        a.canonical() == SEARCH_SEMANTICS_ID_VERSION@ + SECTION@ + joined(rule_parts(a), FIELD@),
{
    let head = SEARCH_SEMANTICS_ID_VERSION@ + SECTION@;
    let p1 = seq!["generation="@ + a.candidate_generation@];
    let p2 = p1.push("pruning="@ + a.pre_measurement_pruning@);
    let p3 = p2.push("evidence="@ + a.evidence_interpretation@);
    let p4 = p3.push("promotion="@ + a.promotion_rule@);
    let p5 = p4.push("ranking="@ + a.ranking_rule@);
    let p6 = p5.push("physical="@ + a.physical_accounting@);
    lemma_first_part(head, "generation="@, a.candidate_generation@, FIELD@);
    lemma_next_part(head, p1, "pruning="@, a.pre_measurement_pruning@, FIELD@);
    lemma_next_part(head, p2, "evidence="@, a.evidence_interpretation@, FIELD@);
    lemma_next_part(head, p3, "promotion="@, a.promotion_rule@, FIELD@);
    lemma_next_part(head, p4, "ranking="@, a.ranking_rule@, FIELD@);
    lemma_next_part(head, p5, "physical="@, a.physical_accounting@, FIELD@);
    lemma_next_part(head, p6, "layout="@, a.layout_admission@, FIELD@);
}

/// The texts of the rules hold no field separator.
pub open spec fn fields_are_clear(a: SearchSemantics) -> bool {
    &&& free_of(a.candidate_generation@, '\u{1f}')
    &&& free_of(a.pre_measurement_pruning@, '\u{1f}')
    &&& free_of(a.evidence_interpretation@, '\u{1f}')
    &&& free_of(a.promotion_rule@, '\u{1f}')
    &&& free_of(a.ranking_rule@, '\u{1f}')
    &&& free_of(a.physical_accounting@, '\u{1f}')
    &&& free_of(a.layout_admission@, '\u{1f}')
}

proof fn lemma_rule_parts_are_clear(a: SearchSemantics)
    requires
        fields_are_clear(a),
    ensures
        forall|i: int|
            0 <= i < rule_parts(a).len() ==> free_of(#[trigger] rule_parts(a)[i], '\u{1f}'),
{
    reveal_strlit("generation=");
    lemma_free_of_both("generation="@, a.candidate_generation@, '\u{1f}');
    reveal_strlit("pruning=");
    lemma_free_of_both("pruning="@, a.pre_measurement_pruning@, '\u{1f}');
    reveal_strlit("evidence=");
    lemma_free_of_both("evidence="@, a.evidence_interpretation@, '\u{1f}');
    reveal_strlit("promotion=");
    lemma_free_of_both("promotion="@, a.promotion_rule@, '\u{1f}');
    reveal_strlit("ranking=");
    lemma_free_of_both("ranking="@, a.ranking_rule@, '\u{1f}');
    reveal_strlit("physical=");
    lemma_free_of_both("physical="@, a.physical_accounting@, '\u{1f}');
    reveal_strlit("layout=");
    lemma_free_of_both("layout="@, a.layout_admission@, '\u{1f}');
}

/// **Every rule is in the identity.** Rules whose texts hold no field separator
/// are written alike only where each of the seven agrees.
pub proof fn law_every_rule_is_identity(a: SearchSemantics, b: SearchSemantics)
    requires
        fields_are_clear(a),
        fields_are_clear(b),
        a.canonical() == b.canonical(),
    ensures
        a.candidate_generation@ == b.candidate_generation@,
        a.pre_measurement_pruning@ == b.pre_measurement_pruning@,
        a.evidence_interpretation@ == b.evidence_interpretation@,
        a.promotion_rule@ == b.promotion_rule@,
        a.ranking_rule@ == b.ranking_rule@,
        a.physical_accounting@ == b.physical_accounting@,
        a.layout_admission@ == b.layout_admission@,
{
    reveal_strlit("\u{1f}");
    assert(FIELD@ =~= seq!['\u{1f}']);
    let head = SEARCH_SEMANTICS_ID_VERSION@ + SECTION@;
    let x = rule_parts(a);
    let y = rule_parts(b);
    lemma_rule_parts(a);
    lemma_rule_parts(b);
    lemma_label(head, joined(x, FIELD@), joined(y, FIELD@));
    lemma_rule_parts_are_clear(a);
    lemma_rule_parts_are_clear(b);
    lemma_joined_identify(x, y, FIELD@, '\u{1f}');
    assert(x[0] == y[0]);
    lemma_label("generation="@, a.candidate_generation@, b.candidate_generation@);
    assert(x[1] == y[1]);
    lemma_label("pruning="@, a.pre_measurement_pruning@, b.pre_measurement_pruning@);
    assert(x[2] == y[2]);
    lemma_label("evidence="@, a.evidence_interpretation@, b.evidence_interpretation@);
    assert(x[3] == y[3]);
    lemma_label("promotion="@, a.promotion_rule@, b.promotion_rule@);
    assert(x[4] == y[4]);
    lemma_label("ranking="@, a.ranking_rule@, b.ranking_rule@);
    assert(x[5] == y[5]);
    lemma_label("physical="@, a.physical_accounting@, b.physical_accounting@);
    assert(x[6] == y[6]);
    lemma_label("layout="@, a.layout_admission@, b.layout_admission@);
}

} // verus!

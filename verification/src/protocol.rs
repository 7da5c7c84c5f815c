//! What a standing intent's digests stand for.
//!
//! An intent names a corpus and a meaning by digest. A protocol carries the
//! declarations behind them, and says whether they are the ones an intent or a
//! key names: a record whose protocol digests to something else would run one
//! experiment and file the result under another.
use crate::candidate::MeasurementIntent;
use crate::canon::short_of;
use crate::digest::digest_of;
use crate::evidence_bank::{EvidenceBank, EvidenceBankId};
use crate::instrument::{InstrumentSemantics, InstrumentSemanticsId};
use crate::key::MeasurementKey;
use crate::measurement::EvidenceScale;
use crate::text::same;
use vstd::prelude::*;
use vstd::string::*;

verus! {

/// A protocol that describes another experiment.
#[derive(Debug, Clone, PartialEq, Eq)]
pub enum ProtocolMismatch {
    Bank { declared: EvidenceBankId, searched: EvidenceBankId },
    Instrument { declared: InstrumentSemanticsId, searched: InstrumentSemanticsId },
}

/// A mismatch, by its texts.
pub enum Mismatch {
    Bank { declared: Seq<char>, searched: Seq<char> },
    Instrument { declared: Seq<char>, searched: Seq<char> },
}

impl View for ProtocolMismatch {
    type V = Mismatch;

    open spec fn view(&self) -> Mismatch {
        match self {
            ProtocolMismatch::Bank { declared, searched } => Mismatch::Bank {
                declared: declared@,
                searched: searched@,
            },
            ProtocolMismatch::Instrument { declared, searched } => Mismatch::Instrument {
                declared: declared@,
                searched: searched@,
            },
        }
    }
}

impl Mismatch {
    /// The mismatch, in words.
    pub open spec fn text(self) -> Seq<char> {
        match self {
            Mismatch::Bank { declared, searched } => "the declared corpus digests to "@ + short_of(
                declared,
            ) + " but the search runs under "@ + short_of(searched)
                + " — the run would read one body of data and the observation would be filed under another"@,
            Mismatch::Instrument { declared, searched } => "the declared instrument digests to "@
                + short_of(declared) + " but the search runs under "@ + short_of(searched)
                + " — the reading would mean one thing and be recorded as meaning another"@,
        }
    }
}

impl ProtocolMismatch {
    /// The mismatch, in words.
    pub fn describe(&self) -> (r: String)
        ensures
            r@ == self@.text(),
    {
        match self {
            ProtocolMismatch::Bank { declared, searched } => {
                let mut s: String = "the declared corpus digests to ".to_owned();
                s.append(declared.short());
                s.append(" but the search runs under ");
                s.append(searched.short());
                s.append(
                    " — the run would read one body of data and the observation would be filed under another",
                );
                s
            },
            ProtocolMismatch::Instrument { declared, searched } => {
                let mut s: String = "the declared instrument digests to ".to_owned();
                s.append(declared.short());
                s.append(" but the search runs under ");
                s.append(searched.short());
                s.append(
                    " — the reading would mean one thing and be recorded as meaning another",
                );
                s
            },
        }
    }
}

/// **The declarations behind an experiment's identities.** The scale is no
/// part of them: it is in the clear on the intent and on every key.
#[derive(Debug, Clone, PartialEq, Eq)]
pub struct MeasurementProtocol {
    pub bank: EvidenceBank,
    /// What a reading means.
    pub instrument: InstrumentSemantics,
    /// The procedure a run is performed under. In no digest.
    pub procedure: String,
}

impl MeasurementProtocol {
    /// The id of the declared corpus.
    pub open spec fn bank_id(&self) -> Seq<char> {
        digest_of(self.bank.canonical())
    }

    /// The id of the declared meaning.
    pub open spec fn instrument_id(&self) -> Seq<char> {
        digest_of(self.instrument.canonical())
    }

    /// How these declarations differ from the ids an experiment names.
    pub open spec fn mismatch(&self, bank: Seq<char>, instrument: Seq<char>) -> Option<Mismatch> {
        if self.bank_id() != bank {
            Some(Mismatch::Bank { declared: self.bank_id(), searched: bank })
        } else if self.instrument_id() != instrument {
            Some(Mismatch::Instrument { declared: self.instrument_id(), searched: instrument })
        } else {
            None
        }
    }

    /// These declarations.
    pub fn new(
        bank: EvidenceBank,
        instrument: InstrumentSemantics,
        procedure: &str,
    ) -> (r: MeasurementProtocol)
        ensures
            r.bank == bank,
            r.instrument == instrument,
            r.procedure@ == procedure@,
    {
        MeasurementProtocol { bank, instrument, procedure: procedure.to_owned() }
    }

    /// Whether these are the declarations an intent names.
    pub fn describes(&self, intent: &MeasurementIntent) -> (r: Result<(), ProtocolMismatch>)
        ensures
            match self.mismatch(intent.bank@, intent.instrument@) {
                None => r is Ok,
                Some(m) => r matches Err(e) && e@ == m,
            },
    {
        self.check(&intent.bank, &intent.instrument)
    }

    /// Whether these are the declarations a key names.
    pub fn describes_key(&self, key: &MeasurementKey) -> (r: Result<(), ProtocolMismatch>)
        ensures
            match self.mismatch(key@.bank, key@.instrument) {
                None => r is Ok,
                Some(m) => r matches Err(e) && e@ == m,
            },
    {
        self.check(key.bank(), key.instrument())
    }

    fn check(&self, bank: &EvidenceBankId, instrument: &InstrumentSemanticsId) -> (r: Result<
        (),
        ProtocolMismatch,
    >)
        ensures
            match self.mismatch(bank@, instrument@) {
                None => r is Ok,
                Some(m) => r matches Err(e) && e@ == m,
            },
    {
        let declared: EvidenceBankId = self.bank.id();
        if !same(declared.as_str(), bank.as_str()) {
            return Err(ProtocolMismatch::Bank { declared, searched: bank.clone() });
        }
        let declared: InstrumentSemanticsId = self.instrument.id();
        if !same(declared.as_str(), instrument.as_str()) {
            return Err(ProtocolMismatch::Instrument { declared, searched: instrument.clone() });
        }
        Ok(())
    }

    /// **The intent these declarations stand behind**, at a scale. Derived,
    /// so the declarations describe it.
    pub fn intent(&self, scale: EvidenceScale) -> (r: MeasurementIntent)
        ensures
            r.bank@ == self.bank_id(),
            r.scale == scale,
            r.instrument@ == self.instrument_id(),
            self.mismatch(r.bank@, r.instrument@) is None,
    {
        MeasurementIntent::new(self.bank.id(), scale, self.instrument.id())
    }

    /// How many samples a run consumes.
    pub fn sequences(&self) -> (r: usize)
        ensures
            r == self.bank.samples@.len(),
    {
        self.bank.sample_count()
    }
}

/// **The procedure is in no digest.** Renaming what is performed moves neither
/// identity a protocol stands for.
pub proof fn law_the_procedure_is_in_no_digest(
    a: MeasurementProtocol,
    b: MeasurementProtocol,
    bank: Seq<char>,
    instrument: Seq<char>,
)
    requires
        a.bank == b.bank,
        a.instrument == b.instrument,
    ensures
        a.mismatch(bank, instrument) == b.mismatch(bank, instrument),
{
}

/// **A protocol describes an experiment where both its ids do.** The corpus is
/// answered for first, with what was declared and what was searched.
pub proof fn law_what_a_protocol_describes(
    p: MeasurementProtocol,
    bank: Seq<char>,
    instrument: Seq<char>,
)
    ensures
        p.mismatch(bank, instrument) is None <==> digest_of(p.bank.canonical()) == bank
            && digest_of(p.instrument.canonical()) == instrument,
        digest_of(p.bank.canonical()) != bank ==> p.mismatch(bank, instrument) == Some(
            Mismatch::Bank { declared: digest_of(p.bank.canonical()), searched: bank },
        ),
        digest_of(p.bank.canonical()) == bank && digest_of(p.instrument.canonical()) != instrument
            ==> p.mismatch(bank, instrument) == Some(
            Mismatch::Instrument {
                declared: digest_of(p.instrument.canonical()),
                searched: instrument,
            },
        ),
{
}

} // verus!

//! What a tensor costs at source precision.
//!
//! The facts are read from the segments an identity seals, after proving that
//! the bytes read are the sealed ones. A tensor's byte count is the length its
//! segment's table states; its dtype explains the bytes and is never
//! multiplied by.
use crate::canon::{short, short_of, FIELD, SECTION};
use crate::digest::{digest_of, digest_text, hash_bytes, hex, sha256_of};
use crate::error::VindexError;
use crate::realization::LogicalBytes;
use crate::source_identity::{Authority, CanonicalRepresentationAuthority, SourceIdentity};
use crate::surface::{path_of, TensorIdentity};
use crate::table::{
    in_order, lemma_seen_lookup, lemma_seen_with_row, lookup, seen, with_row, Table,
};
use crate::text::{decimal, push_decimal, same};
use vstd::prelude::*;
use vstd::string::*;

verus! {

/// The procedure this module is.
pub const PHYSICAL_ACCOUNTING_PROCEDURE: &'static str = "logical-bytes/v1";

/// What every refusal here begins with.
pub const REFUSED: &'static str = "source storage refused";

/// A declared storage dtype. It has no width.
#[derive(Debug, PartialEq, Eq, PartialOrd, Ord, Hash)]
pub struct SourceDType {
    name: String,
}

impl View for SourceDType {
    type V = Seq<char>;

    closed spec fn view(&self) -> Seq<char> {
        self.name@
    }
}

impl SourceDType {
    /// The dtype of this name.
    pub fn new(dtype: &str) -> (r: SourceDType)
        ensures
            r@ == dtype@,
    {
        SourceDType { name: dtype.to_owned() }
    }

    /// The name.
    pub fn as_str(&self) -> (r: &str)
        ensures
            r@ == self@,
    {
        self.name.as_str()
    }
}

impl Clone for SourceDType {
    fn clone(&self) -> (r: Self)
        ensures
            r == *self,
    {
        SourceDType { name: self.name.clone() }
    }
}

/// What one tensor occupies in the source container, and as what.
#[derive(Debug, PartialEq, Eq)]
pub struct SourceStorageFact {
    /// The length the segment's table states.
    pub logical_bytes: LogicalBytes,
    /// The dtype the segment's table states.
    pub dtype: SourceDType,
}

/// What one tensor occupies, by its texts.
pub struct Stored {
    pub bytes: u64,
    pub dtype: Seq<char>,
}

impl View for SourceStorageFact {
    type V = Stored;

    open spec fn view(&self) -> Stored {
        Stored { bytes: self.logical_bytes@, dtype: self.dtype@ }
    }
}

impl Clone for SourceStorageFact {
    fn clone(&self) -> (r: Self)
        ensures
            r == *self,
    {
        SourceStorageFact { logical_bytes: self.logical_bytes, dtype: self.dtype.clone() }
    }
}

/// How a fact is read.
pub open spec fn as_stored() -> spec_fn(SourceStorageFact) -> Stored {
    |f: SourceStorageFact| f@
}

/// One tensor's identity beside its facts.
#[derive(Debug, Clone, PartialEq, Eq)]
pub struct StoredTensor {
    pub tensor: TensorIdentity,
    pub fact: SourceStorageFact,
}

/// One row of a segment's table.
#[derive(Debug, PartialEq, Eq)]
pub struct SegmentTensor {
    pub name: String,
    pub dtype: String,
    pub len: u64,
}

/// A segment as it was read: the whole file, and the table in its header.
#[derive(Debug, PartialEq, Eq)]
pub struct Segment {
    pub bytes: Vec<u8>,
    pub tensors: Vec<SegmentTensor>,
}

/// What physical accounting means here.
#[derive(Debug, Clone, PartialEq, Eq)]
pub struct PhysicalAccountingSemantics {
    /// Where a source byte count comes from.
    pub source_byte_authority: String,
    /// Where a compiled byte count comes from.
    pub compiled_byte_authority: String,
    /// How a table is proved to be the sealed one.
    pub seal_verification: String,
    /// What a dtype may do.
    pub dtype_role: String,
}

/// The identity of an accounting procedure.
#[derive(Debug, Clone, PartialEq, Eq, PartialOrd, Ord, Hash)]
pub struct PhysicalAccountingSemanticsId {
    digest: String,
}

impl View for PhysicalAccountingSemanticsId {
    type V = Seq<char>;

    closed spec fn view(&self) -> Seq<char> {
        self.digest@
    }
}

impl PhysicalAccountingSemanticsId {
    /// The id as text.
    pub fn as_str(&self) -> (r: &str)
        ensures
            r@ == self@,
    {
        self.digest.as_str()
    }
}

/// What an accounting id is a digest of.
pub open spec fn accounting_text(
    source: Seq<char>,
    compiled: Seq<char>,
    seal: Seq<char>,
    dtype: Seq<char>,
) -> Seq<char> {
    PHYSICAL_ACCOUNTING_PROCEDURE@ + SECTION@ + "source_byte_authority="@ + source + FIELD@
        + "compiled_byte_authority="@ + compiled + FIELD@ + "seal_verification="@ + seal + FIELD@
        + "dtype_role="@ + dtype
}

/// The id of the procedure this library implements.
pub open spec fn logical_bytes_v1_id() -> Seq<char> {
    digest_of(
        accounting_text(
            "segment-table-len"@,
            "pack-layout-stored-len"@,
            "segment-sha256-recomputed"@,
            "explanatory-never-multiplied"@,
        ),
    )
}

impl PhysicalAccountingSemantics {
    /// The one procedure this library implements.
    pub fn logical_bytes_v1() -> (r: PhysicalAccountingSemantics)
        ensures
            r.source_byte_authority@ == "segment-table-len"@,
            r.compiled_byte_authority@ == "pack-layout-stored-len"@,
            r.seal_verification@ == "segment-sha256-recomputed"@,
            r.dtype_role@ == "explanatory-never-multiplied"@,
    {
        PhysicalAccountingSemantics {
            source_byte_authority: "segment-table-len".to_owned(),
            compiled_byte_authority: "pack-layout-stored-len".to_owned(),
            seal_verification: "segment-sha256-recomputed".to_owned(),
            dtype_role: "explanatory-never-multiplied".to_owned(),
        }
    }

    /// What the procedure is.
    pub fn id(&self) -> (r: PhysicalAccountingSemanticsId)
        ensures
            r@ == digest_of(
                accounting_text(
                    self.source_byte_authority@,
                    self.compiled_byte_authority@,
                    self.seal_verification@,
                    self.dtype_role@,
                ),
            ),
    {
        let mut s: String = PHYSICAL_ACCOUNTING_PROCEDURE.to_owned();
        s.append(SECTION);
        s.append("source_byte_authority=");
        s.append(self.source_byte_authority.as_str());
        s.append(FIELD);
        s.append("compiled_byte_authority=");
        s.append(self.compiled_byte_authority.as_str());
        s.append(FIELD);
        s.append("seal_verification=");
        s.append(self.seal_verification.as_str());
        s.append(FIELD);
        s.append("dtype_role=");
        s.append(self.dtype_role.as_str());
        PhysicalAccountingSemanticsId { digest: digest_text(s.as_str()) }
    }
}

/// **Every tensor a source container stores, priced**, bound to the source it
/// was read from.
#[derive(Debug, Clone, PartialEq, Eq)]
pub struct PhysicalAccountingFacts {
    semantics: PhysicalAccountingSemanticsId,
    source: String,
    source_storage: Table<TensorIdentity, SourceStorageFact>,
}

/// Accounting facts, by their texts.
#[verifier::ext_equal]
pub struct Accounted {
    pub semantics: Seq<char>,
    pub source: Seq<char>,
    pub storage: Seq<((Seq<char>, Seq<char>), Stored)>,
}

impl View for PhysicalAccountingFacts {
    type V = Accounted;

    closed spec fn view(&self) -> Accounted {
        Accounted {
            semantics: self.semantics@,
            source: self.source@,
            storage: seen(self.source_storage.rows(), as_stored()),
        }
    }
}

impl PhysicalAccountingFacts {
    /// The procedure the facts were read by.
    pub fn semantics(&self) -> (r: &PhysicalAccountingSemanticsId)
        ensures
            r@ == self@.semantics,
    {
        &self.semantics
    }

    /// The digest of the source the facts were read from.
    pub fn source_digest(&self) -> (r: &str)
        ensures
            r@ == self@.source,
    {
        self.source.as_str()
    }

    /// What a tensor occupies.
    pub fn get(&self, tensor: &TensorIdentity) -> (r: Option<&SourceStorageFact>)
        ensures
            r matches Some(f) ==> lookup(self@.storage, tensor@) == Some(f@),
            r is None ==> lookup(self@.storage, tensor@) is None,
    {
        proof {
            lemma_seen_lookup(self.source_storage.rows(), as_stored(), tensor@);
        }
        self.source_storage.get(tensor)
    }

    /// Every tensor and what it occupies, in order.
    pub fn tensors(&self) -> (r: Vec<(&TensorIdentity, &SourceStorageFact)>)
        ensures
            r@.len() == self@.storage.len(),
            forall|i: int|
                0 <= i < r@.len() ==> ((#[trigger] r@[i]).0@, r@[i].1@) == self@.storage[i],
    {
        let mut v: Vec<(&TensorIdentity, &SourceStorageFact)> = Vec::new();
        let mut i: usize = 0;
        while i < self.source_storage.len()
            invariant
                i <= self.source_storage.rows().len(),
                v@.len() == i,
                self@.storage == seen(self.source_storage.rows(), as_stored()),
                forall|k: int|
                    0 <= k < i ==> ((#[trigger] v@[k]).0@, v@[k].1@) == self@.storage[k],
            decreases self.source_storage.rows().len() - i,
        {
            v.push((self.source_storage.key_at(i), self.source_storage.value_at(i)));
            i = i + 1;
        }
        v
    }

    /// The facts as a record keeps them, in order.
    pub fn records(&self) -> (r: Vec<StoredTensor>)
        ensures
            r@.len() == self@.storage.len(),
            forall|i: int|
                0 <= i < r@.len() ==> ((#[trigger] r@[i]).tensor@, r@[i].fact@) == self@.storage[i],
    {
        let mut v: Vec<StoredTensor> = Vec::new();
        let mut i: usize = 0;
        while i < self.source_storage.len()
            invariant
                i <= self.source_storage.rows().len(),
                v@.len() == i,
                self@.storage == seen(self.source_storage.rows(), as_stored()),
                forall|k: int|
                    0 <= k < i ==> ((#[trigger] v@[k]).tensor@, v@[k].fact@) == self@.storage[k],
            decreases self.source_storage.rows().len() - i,
        {
            v.push(
                StoredTensor {
                    tensor: self.source_storage.key_at(i).clone(),
                    fact: self.source_storage.value_at(i).clone(),
                },
            );
            i = i + 1;
        }
        v
    }

    /// How many tensors are priced.
    pub fn len(&self) -> (r: usize)
        ensures
            r == self@.storage.len(),
    {
        self.source_storage.len()
    }

    /// Whether no tensor is priced.
    pub fn is_empty(&self) -> (r: bool)
        ensures
            r == (self@.storage.len() == 0),
    {
        self.source_storage.is_empty()
    }

    /// Whether these facts describe `model`'s storage. An export with other
    /// bytes is still the source they belong to.
    pub fn describe(&self, model: &SourceIdentity) -> (r: bool)
        ensures
            r == (self@.source == model@.semantic.digest()),
    {
        same(self.source.as_str(), model.semantic_digest().as_str())
    }
}

/// The refusal of a segment whose bytes are not the sealed ones.
pub open spec fn seal_text(a: Authority, actual: Seq<char>) -> Seq<char> {
    REFUSED@ + ": segment `"@ + a.segment + "` hashes to "@ + short_of(actual)
        + " and representation `"@ + a.representation + "` seals "@ + short_of(a.segment_sha256)
        + " — the table these bytes carry is not the one the source identity sealed"@
}

/// The refusal of a table whose length is not the sealed one.
pub open spec fn count_text(a: Authority, held: nat) -> Seq<char> {
    REFUSED@ + ": representation `"@ + a.representation + "` declares "@ + decimal(
        a.tensor_count as nat,
    ) + " tensors and its sealed table holds "@ + decimal(held)
        + " — two sealed facts about one segment disagree"@
}

/// The refusal of a tensor stored twice.
pub open spec fn stored_twice_text(
    a: Authority,
    id: (Seq<char>, Seq<char>),
    held: Stored,
    fact: Stored,
) -> Seq<char> {
    REFUSED@ + ": `"@ + path_of(id) + "` is stored twice — "@ + decimal(held.bytes as nat)
        + " B as "@ + held.dtype + " and "@ + decimal(fact.bytes as nat) + " B as "@ + fact.dtype
        + ", the second by representation `"@ + a.representation
        + "`. Which one is the source is not a fact this procedure holds"@
}

/// What a table row states.
pub open spec fn stored_as(t: SegmentTensor) -> Stored {
    Stored { bytes: t.len, dtype: t.dtype@ }
}

/// The rows after the first `n` tensors of a segment, or why one is refused.
pub open spec fn tensors_stored(
    rows: Seq<((Seq<char>, Seq<char>), Stored)>,
    a: Authority,
    tensors: Seq<SegmentTensor>,
    n: int,
) -> Result<Seq<((Seq<char>, Seq<char>), Stored)>, Seq<char>>
    decreases n,
{
    if n <= 0 {
        Ok(rows)
    } else {
        match tensors_stored(rows, a, tensors, n - 1) {
            Err(t) => Err(t),
            Ok(held) => {
                let id = (a.object, tensors[n - 1].name@);
                match lookup(held, id) {
                    Some(first) => Err(
                        stored_twice_text(a, id, first, stored_as(tensors[n - 1])),
                    ),
                    None => Ok(
                        with_row::<TensorIdentity, Stored>(held, id, stored_as(tensors[n - 1])),
                    ),
                }
            },
        }
    }
}

/// The rows after one segment, or why it is refused.
pub open spec fn segment_stored(
    rows: Seq<((Seq<char>, Seq<char>), Stored)>,
    a: Authority,
    segment: Segment,
) -> Result<Seq<((Seq<char>, Seq<char>), Stored)>, Seq<char>> {
    let actual = hex(sha256_of(segment.bytes@));
    if actual != a.segment_sha256 {
        Err(seal_text(a, actual))
    } else if segment.tensors@.len() != a.tensor_count {
        Err(count_text(a, segment.tensors@.len()))
    } else {
        tensors_stored(rows, a, segment.tensors@, segment.tensors@.len() as int)
    }
}

/// The rows after the first `n` representations, or why one is refused.
pub open spec fn storage_read(
    authorities: Seq<Authority>,
    segments: Seq<Segment>,
    n: int,
) -> Result<Seq<((Seq<char>, Seq<char>), Stored)>, Seq<char>>
    decreases n,
{
    if n <= 0 {
        Ok(Seq::empty())
    } else {
        match storage_read(authorities, segments, n - 1) {
            Err(t) => Err(t),
            Ok(rows) => segment_stored(rows, authorities[n - 1], segments[n - 1]),
        }
    }
}

proof fn lemma_first_refusal(
    authorities: Seq<Authority>,
    segments: Seq<Segment>,
    i: int,
    n: int,
)
    requires
        0 <= i <= n,
        storage_read(authorities, segments, i) is Err,
    ensures
        storage_read(authorities, segments, n) == storage_read(authorities, segments, i),
    decreases n,
{
    if i < n {
        lemma_first_refusal(authorities, segments, i, n - 1);
    }
}

proof fn lemma_first_tensor_refusal(
    rows: Seq<((Seq<char>, Seq<char>), Stored)>,
    a: Authority,
    tensors: Seq<SegmentTensor>,
    i: int,
    n: int,
)
    requires
        0 <= i <= n,
        tensors_stored(rows, a, tensors, i) is Err,
    ensures
        tensors_stored(rows, a, tensors, n) == tensors_stored(rows, a, tensors, i),
    decreases n,
{
    if i < n {
        lemma_first_tensor_refusal(rows, a, tensors, i, n - 1);
    }
}

/// Prove that a segment is the one its authority sealed.
pub fn verify_seal(segment: &Segment, authority: &CanonicalRepresentationAuthority) -> (r: Result<
    (),
    VindexError,
>)
    ensures
        r is Ok <==> hex(sha256_of(segment.bytes@)) == authority@.segment_sha256,
        r matches Err(e) ==> e.text() == seal_text(authority@, hex(sha256_of(segment.bytes@))),
{
    let actual: String = hash_bytes(segment.bytes.as_slice());
    if same(actual.as_str(), authority.segment_sha256.as_str()) {
        return Ok(());
    }
    let mut s: String = REFUSED.to_owned();
    s.append(": segment `");
    s.append(authority.segment.as_str());
    s.append("` hashes to ");
    s.append(short(actual.as_str()));
    s.append(" and representation `");
    s.append(authority.representation.as_str());
    s.append("` seals ");
    s.append(short(authority.segment_sha256.as_str()));
    s.append(" — the table these bytes carry is not the one the source identity sealed");
    Err(VindexError::Parse(s))
}

fn store_tensors(
    table: &mut Table<TensorIdentity, SourceStorageFact>,
    authority: &CanonicalRepresentationAuthority,
    tensors: &Vec<SegmentTensor>,
) -> (r: Result<(), VindexError>)
    ensures
        match tensors_stored(
            seen(old(table).rows(), as_stored()),
            authority@,
            tensors@,
            tensors@.len() as int,
        ) {
            Ok(rows) => r is Ok && seen(final(table).rows(), as_stored()) == rows,
            Err(t) => r matches Err(e) && e.text() == t,
        },
        in_order::<TensorIdentity, SourceStorageFact>(old(table).rows()) ==> in_order::<
            TensorIdentity,
            SourceStorageFact,
        >(final(table).rows()),
{
    let ghost before = seen(table.rows(), as_stored());
    let mut i: usize = 0;
    while i < tensors.len()
        invariant
            i <= tensors@.len(),
            before == seen(old(table).rows(), as_stored()),
            tensors_stored(before, authority@, tensors@, i as int) == Ok::<
                Seq<((Seq<char>, Seq<char>), Stored)>,
                Seq<char>,
            >(seen(table.rows(), as_stored())),
            in_order::<TensorIdentity, SourceStorageFact>(old(table).rows()) ==> in_order::<
                TensorIdentity,
                SourceStorageFact,
            >(table.rows()),
        decreases tensors@.len() - i,
    {
        let row: &SegmentTensor = &tensors[i];
        let id = TensorIdentity::new(authority.object.as_str(), row.name.as_str());
        let fact = SourceStorageFact {
            logical_bytes: LogicalBytes::new(row.len),
            dtype: SourceDType::new(row.dtype.as_str()),
        };
        proof {
            assert(fact@ == stored_as(*row));
            lemma_seen_lookup(table.rows(), as_stored(), id@);
            lemma_seen_with_row::<TensorIdentity, SourceStorageFact, Stored>(
                table.rows(),
                as_stored(),
                id@,
                fact,
            );
        }
        if let Some(held) = table.get(&id) {
            let mut s: String = REFUSED.to_owned();
            s.append(": `");
            s.append(id.path().as_str());
            s.append("` is stored twice — ");
            push_decimal(&mut s, held.logical_bytes.get());
            s.append(" B as ");
            s.append(held.dtype.as_str());
            s.append(" and ");
            push_decimal(&mut s, fact.logical_bytes.get());
            s.append(" B as ");
            s.append(fact.dtype.as_str());
            s.append(", the second by representation `");
            s.append(authority.representation.as_str());
            s.append("`. Which one is the source is not a fact this procedure holds");
            proof {
                lemma_first_tensor_refusal(
                    before,
                    authority@,
                    tensors@,
                    i as int + 1,
                    tensors@.len() as int,
                );
            }
            return Err(VindexError::Parse(s));
        }
        table.insert(id, fact);
        i = i + 1;
    }
    Ok(())
}

/// **Read every stored tensor's source facts out of the segments an identity
/// seals.** `segments` holds the segment each representation names, in the
/// identity's order.
pub fn read_source_storage(segments: &Vec<Segment>, identity: &SourceIdentity) -> (r: Result<
    PhysicalAccountingFacts,
    VindexError,
>)
    requires
        segments@.len() == identity@.semantic.representations.len(),
    ensures
        match storage_read(
            identity@.semantic.representations,
            segments@,
            segments@.len() as int,
        ) {
            Ok(rows) => r matches Ok(facts) && facts@ == (Accounted {
                semantics: logical_bytes_v1_id(),
                source: identity@.semantic.digest(),
                storage: rows,
            }) && in_order::<TensorIdentity, Stored>(rows),
            Err(t) => r matches Err(e) && e.text() == t,
        },
{
    let ghost authorities = identity@.semantic.representations;
    let mut table: Table<TensorIdentity, SourceStorageFact> = Table::new();
    let mut i: usize = 0;
    assert(seen(table.rows(), as_stored()) =~= Seq::<((Seq<char>, Seq<char>), Stored)>::empty());
    while i < segments.len()
        invariant
            i <= segments@.len(),
            authorities == identity@.semantic.representations,
            segments@.len() == authorities.len(),
            authorities == crate::source_identity::authorities(identity.semantic.representations@),
            storage_read(authorities, segments@, i as int) == Ok::<
                Seq<((Seq<char>, Seq<char>), Stored)>,
                Seq<char>,
            >(seen(table.rows(), as_stored())),
            in_order::<TensorIdentity, SourceStorageFact>(table.rows()),
        decreases segments@.len() - i,
    {
        let authority: &CanonicalRepresentationAuthority = &identity.semantic.representations[i];
        let segment: &Segment = &segments[i];
        proof {
            assert(authorities[i as int] == authority@);
            if storage_read(authorities, segments@, i as int + 1) is Err {
                lemma_first_refusal(authorities, segments@, i as int + 1, segments@.len() as int);
            }
        }
        match verify_seal(segment, authority) {
            Ok(()) => {},
            Err(e) => {
                return Err(e);
            },
        }
        if segment.tensors.len() != authority.tensor_count {
            let mut s: String = REFUSED.to_owned();
            s.append(": representation `");
            s.append(authority.representation.as_str());
            s.append("` declares ");
            push_decimal(&mut s, authority.tensor_count as u64);
            s.append(" tensors and its sealed table holds ");
            push_decimal(&mut s, segment.tensors.len() as u64);
            s.append(" — two sealed facts about one segment disagree");
            return Err(VindexError::Parse(s));
        }
        match store_tensors(&mut table, authority, &segment.tensors) {
            Ok(()) => {},
            Err(e) => {
                return Err(e);
            },
        }
        i = i + 1;
    }
    proof {
        crate::table::lemma_seen_in_order::<TensorIdentity, SourceStorageFact, Stored>(
            table.rows(),
            as_stored(),
        );
    }
    Ok(
        PhysicalAccountingFacts {
            semantics: PhysicalAccountingSemantics::logical_bytes_v1().id(),
            source: identity.semantic_digest(),
            source_storage: table,
        },
    )
}

proof fn lemma_tensors_stored(
    rows: Seq<((Seq<char>, Seq<char>), Stored)>,
    a: Authority,
    tensors: Seq<SegmentTensor>,
    n: int,
    id: (Seq<char>, Seq<char>),
)
    requires
        0 <= n <= tensors.len(),
        tensors_stored(rows, a, tensors, n) is Ok,
    ensures
        ({
            let after = tensors_stored(rows, a, tensors, n)->Ok_0;
            &&& lookup(rows, id) matches Some(held) ==> lookup(after, id) == Some(held)
            &&& forall|k: int|
                0 <= k < n && id == (a.object, (#[trigger] tensors[k]).name@) ==> (lookup(
                    after,
                    id,
                ) matches Some(s) && s.bytes == tensors[k].len && s.dtype == tensors[k].dtype@)
            &&& lookup(after, id) is Some && lookup(rows, id) is None ==> exists|k: int|
                0 <= k < n && id == (a.object, (#[trigger] tensors[k]).name@)
        }),
    decreases n,
{
    if n > 0 {
        lemma_tensors_stored(rows, a, tensors, n - 1, id);
        let held = tensors_stored(rows, a, tensors, n - 1)->Ok_0;
        let name = (a.object, tensors[n - 1].name@);
        crate::table::lemma_with_row_lookup::<TensorIdentity, Stored>(
            held,
            name,
            stored_as(tensors[n - 1]),
            id,
        );
        let after = tensors_stored(rows, a, tensors, n)->Ok_0;
        assert forall|k: int|
            0 <= k < n && id == (a.object, (#[trigger] tensors[k]).name@) implies (lookup(
            after,
            id,
        ) matches Some(s) && s.bytes == tensors[k].len && s.dtype == tensors[k].dtype@) by {
            if k < n - 1 {
                assert(lookup(held, id) is Some);
            }
        }
        if lookup(after, id) is Some && lookup(rows, id) is None {
            if id == name {
                assert(id == (a.object, tensors[n - 1].name@));
            } else {
                assert(lookup(held, id) is Some);
                let k = choose|k: int|
                    0 <= k < n - 1 && id == (a.object, (#[trigger] tensors[k]).name@);
                assert(id == (a.object, tensors[k].name@));
            }
        }
    }
}

/// **What is read is what the sealed segments store.** Where reading
/// succeeds, every segment hashes to its seal and holds as many tensors as it
/// declares; every tensor of every segment is on record with its own length
/// and type; and nothing else is.
pub proof fn law_what_is_read_is_what_is_stored(
    authorities: Seq<Authority>,
    segments: Seq<Segment>,
    n: int,
    id: (Seq<char>, Seq<char>),
)
    requires
        0 <= n,
        storage_read(authorities, segments, n) is Ok,
    ensures
        ({
            let rows = storage_read(authorities, segments, n)->Ok_0;
            &&& forall|i: int|
                0 <= i < n ==> hex(sha256_of((#[trigger] segments[i]).bytes@))
                    == authorities[i].segment_sha256 && segments[i].tensors@.len()
                    == authorities[i].tensor_count
            &&& forall|i: int, k: int|
                0 <= i < n && 0 <= k < (#[trigger] segments[i]).tensors@.len() && id == (
                    authorities[i].object,
                    (#[trigger] segments[i].tensors@[k]).name@,
                ) ==> (lookup(rows, id) matches Some(s) && s.bytes == segments[i].tensors@[k].len
                    && s.dtype == segments[i].tensors@[k].dtype@)
            &&& lookup(rows, id) is Some ==> exists|i: int, k: int|
                0 <= i < n && 0 <= k < (#[trigger] segments[i]).tensors@.len() && id == (
                    authorities[i].object,
                    (#[trigger] segments[i].tensors@[k]).name@,
                )
        }),
    decreases n,
{
    if n > 0 {
        law_what_is_read_is_what_is_stored(authorities, segments, n - 1, id);
        let held = storage_read(authorities, segments, n - 1)->Ok_0;
        let a = authorities[n - 1];
        let tensors = segments[n - 1].tensors@;
        lemma_tensors_stored(held, a, tensors, tensors.len() as int, id);
        let rows = storage_read(authorities, segments, n)->Ok_0;
        assert(rows == tensors_stored(held, a, tensors, tensors.len() as int)->Ok_0);
        assert forall|i: int, k: int|
            0 <= i < n && 0 <= k < (#[trigger] segments[i]).tensors@.len() && id == (
                authorities[i].object,
                (#[trigger] segments[i].tensors@[k]).name@,
            ) implies (lookup(rows, id) matches Some(s) && s.bytes == segments[i].tensors@[k].len
            && s.dtype == segments[i].tensors@[k].dtype@) by {
            if i == n - 1 {
                assert(id == (a.object, tensors[k].name@));
            } else {
                assert(lookup(held, id) is Some);
            }
        }
        if lookup(rows, id) is Some {
            if lookup(held, id) is Some {
                let (i, k) = choose|i: int, k: int|
                    0 <= i < n - 1 && 0 <= k < (#[trigger] segments[i]).tensors@.len() && id == (
                        authorities[i].object,
                        (#[trigger] segments[i].tensors@[k]).name@,
                    );
                assert(id == (authorities[i].object, segments[i].tensors@[k].name@));
            } else {
                let k = choose|k: int|
                    0 <= k < tensors.len() && id == (a.object, (#[trigger] tensors[k]).name@);
                assert(id == (authorities[n - 1].object, segments[n - 1].tensors@[k].name@));
            }
        }
    } else {
        crate::table::lemma_row_of(Seq::<((Seq<char>, Seq<char>), Stored)>::empty(), id);
    }
}

} // verus!

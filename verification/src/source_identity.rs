//! What a source container is, apart from how it was exported.
//!
//! The bytes of an index are provenance: re-exporting, reformatting or
//! reordering it changes them and changes nothing else. The identity is read
//! from the values: the graph by content, every representation's authority,
//! and the rest of the index, sealed.
use crate::canon::{
    clear, free_of, joined, lemma_first_part, lemma_free_of_both, lemma_free_of_joined,
    lemma_joined_identify, lemma_joined_push, lemma_joined_records_identify, lemma_label,
    lemma_next_part, lemma_only_nothing_joins_to_nothing, plain, texts, FIELD, RECORD, SECTION,
};
use crate::digest::{digest_of, digest_text, hash_bytes, hex, sha256_of};
use crate::error::VindexError;
use crate::experiment::{copy_option, named, same_option};
use crate::json::{
    canonical_json, json_text, lemma_object_text, member, object_text, without, write_object, Json,
};
use crate::table::{lemma_seen_with_row, lemma_with_row_lookup, lookup, seen, with_row, Table};
use crate::text::{
    decimal, lemma_decimal_identifies, lemma_decimal_is_digits, push_decimal, same,
};
use vstd::prelude::*;
use vstd::string::*;

verus! {

/// The canonical-form version the semantic identity is computed under.
pub const SOURCE_SEMANTIC_ID_VERSION: &'static str = "source-semantic-id/v1";

/// The section that seals the rest of the index.
pub const CATALOGUE: &'static str = "catalogue";

/// What every refusal here begins with.
pub const REFUSED: &'static str = "source identity refused";

/// The index member that holds the representations.
pub const INDEX_REPRESENTATIONS: &'static str = "representations";

/// The index member that names the semantic graph.
pub const INDEX_SYSTEM_GRAPH: &'static str = "system_graph";

/// The index member that says where the model came from.
pub const INDEX_DERIVED_FROM_MODEL: &'static str = "derived_from_model";

/// The members the catalogue leaves out: the entries, which are sealed one by
/// one; the graph's file name, which is sealed by content; and a locator.
pub open spec fn removals() -> Seq<Seq<char>> {
    seq![INDEX_REPRESENTATIONS@, INDEX_SYSTEM_GRAPH@, INDEX_DERIVED_FROM_MODEL@]
}

/// The members the catalogue leaves out.
pub fn catalogue_removals() -> (r: Vec<String>)
    ensures
        texts(r@) == removals(),
{
    let mut v: Vec<String> = Vec::new();
    v.push(INDEX_REPRESENTATIONS.to_owned());
    v.push(INDEX_SYSTEM_GRAPH.to_owned());
    v.push(INDEX_DERIVED_FROM_MODEL.to_owned());
    assert(texts(v@) =~= removals());
    v
}

/// The digest of an index as exported. Provenance, and nothing else.
#[derive(Debug, PartialEq, Eq, PartialOrd, Ord, Hash)]
pub struct ContainerArtifactDigest {
    digest: String,
}

impl View for ContainerArtifactDigest {
    type V = Seq<char>;

    closed spec fn view(&self) -> Seq<char> {
        self.digest@
    }
}

impl Default for ContainerArtifactDigest {
    fn default() -> (r: Self)
        ensures
            r@ == Seq::<char>::empty(),
    {
        let digest: String = String::new();
        assert(digest@ =~= Seq::<char>::empty());
        ContainerArtifactDigest { digest }
    }
}

impl Clone for ContainerArtifactDigest {
    fn clone(&self) -> (r: Self)
        ensures
            r@ == self@,
    {
        ContainerArtifactDigest { digest: self.digest.clone() }
    }
}

impl ContainerArtifactDigest {
    /// A digest taken elsewhere.
    pub fn new(digest: &str) -> (r: ContainerArtifactDigest)
        ensures
            r@ == digest@,
    {
        ContainerArtifactDigest { digest: digest.to_owned() }
    }

    /// The digest.
    pub fn as_str(&self) -> (r: &str)
        ensures
            r@ == self@,
    {
        self.digest.as_str()
    }
}

/// One representation as an index records it.
#[derive(Debug, PartialEq, Eq)]
pub struct RepresentationEntry {
    pub object: String,
    pub encoding: String,
    pub segment: String,
    pub tensor_count: usize,
    pub payload_bytes: u64,
    pub payload_sha256: String,
    pub segment_sha256: String,
    /// The decode contract, as a document.
    pub codec: Option<Json>,
}

/// The parts of a parsed index an identity reads.
#[derive(Debug, PartialEq, Eq)]
pub struct Vindex3Index {
    /// The file that holds the semantic graph.
    pub system_graph: Option<String>,
    /// The representations, by id.
    pub representations: Table<String, RepresentationEntry>,
    /// The whole index, rendered again from what was parsed.
    pub document: Json,
}

/// One representation entry's authority, as facts rather than text.
#[derive(Debug, PartialEq, Eq)]
pub struct CanonicalRepresentationAuthority {
    /// The index's own key.
    pub representation: String,
    pub object: String,
    pub encoding: String,
    /// Where the sealed bytes are, below the container's root.
    pub segment: String,
    pub tensor_count: usize,
    pub payload_bytes: u64,
    /// SHA-256 over the payload region.
    pub payload_sha256: String,
    /// SHA-256 over the whole segment file, header table included.
    pub segment_sha256: String,
    /// The decode contract, in canonical form.
    pub codec: Option<String>,
}

/// One representation entry's authority, by its texts.
pub struct Authority {
    pub representation: Seq<char>,
    pub object: Seq<char>,
    pub encoding: Seq<char>,
    pub segment: Seq<char>,
    pub tensor_count: usize,
    pub payload_bytes: u64,
    pub payload_sha256: Seq<char>,
    pub segment_sha256: Seq<char>,
    pub codec: Option<Seq<char>>,
}

impl Authority {
    /// The record the semantic identity seals. Every field appears.
    pub open spec fn record(self) -> Seq<char> {
        self.representation + FIELD@ + self.object + FIELD@ + self.encoding + FIELD@ + self.segment
            + FIELD@ + decimal(self.tensor_count as nat) + FIELD@ + decimal(
            self.payload_bytes as nat,
        ) + FIELD@ + self.payload_sha256 + FIELD@ + self.segment_sha256 + FIELD@ + (
        match self.codec {
            Some(c) => c,
            None => Seq::empty(),
        })
    }
}

impl View for CanonicalRepresentationAuthority {
    type V = Authority;

    open spec fn view(&self) -> Authority {
        Authority {
            representation: self.representation@,
            object: self.object@,
            encoding: self.encoding@,
            segment: self.segment@,
            tensor_count: self.tensor_count,
            payload_bytes: self.payload_bytes,
            payload_sha256: self.payload_sha256@,
            segment_sha256: self.segment_sha256@,
            codec: named(self.codec),
        }
    }
}

impl Default for CanonicalRepresentationAuthority {
    fn default() -> (r: Self)
        ensures
            r@ == synthetic_authority(Seq::empty(), Seq::empty()),
    {
        CanonicalRepresentationAuthority {
            representation: String::new(),
            object: String::new(),
            encoding: String::new(),
            segment: String::new(),
            tensor_count: 0,
            payload_bytes: 0,
            payload_sha256: String::new(),
            segment_sha256: String::new(),
            codec: None,
        }
    }
}

impl Clone for CanonicalRepresentationAuthority {
    fn clone(&self) -> (r: Self)
        ensures
            r@ == self@,
    {
        CanonicalRepresentationAuthority {
            representation: self.representation.clone(),
            object: self.object.clone(),
            encoding: self.encoding.clone(),
            segment: self.segment.clone(),
            tensor_count: self.tensor_count,
            payload_bytes: self.payload_bytes,
            payload_sha256: self.payload_sha256.clone(),
            segment_sha256: self.segment_sha256.clone(),
            codec: copy_option(&self.codec),
        }
    }
}

/// The authority an index entry states.
pub open spec fn authority_of(id: Seq<char>, entry: RepresentationEntry) -> Authority {
    Authority {
        representation: id,
        object: entry.object@,
        encoding: entry.encoding@,
        segment: entry.segment@,
        tensor_count: entry.tensor_count,
        payload_bytes: entry.payload_bytes,
        payload_sha256: entry.payload_sha256@,
        segment_sha256: entry.segment_sha256@,
        codec: match entry.codec {
            Some(c) => Some(json_text(c)),
            None => None,
        },
    }
}

impl CanonicalRepresentationAuthority {
    fn read(representation: &str, entry: &RepresentationEntry) -> (r: Self)
        ensures
            r@ == authority_of(representation@, *entry),
    {
        CanonicalRepresentationAuthority {
            representation: representation.to_owned(),
            object: entry.object.clone(),
            encoding: entry.encoding.clone(),
            segment: entry.segment.clone(),
            tensor_count: entry.tensor_count,
            payload_bytes: entry.payload_bytes,
            payload_sha256: entry.payload_sha256.clone(),
            segment_sha256: entry.segment_sha256.clone(),
            codec: match &entry.codec {
                Some(c) => Some(canonical_json(c)),
                None => None,
            },
        }
    }

    /// The record the semantic identity seals.
    pub fn canonical(&self) -> (r: String)
        ensures
            r@ == self@.record(),
    {
        let mut s: String = self.representation.clone();
        s.append(FIELD);
        s.append(self.object.as_str());
        s.append(FIELD);
        s.append(self.encoding.as_str());
        s.append(FIELD);
        s.append(self.segment.as_str());
        s.append(FIELD);
        push_decimal(&mut s, self.tensor_count as u64);
        s.append(FIELD);
        push_decimal(&mut s, self.payload_bytes);
        s.append(FIELD);
        s.append(self.payload_sha256.as_str());
        s.append(FIELD);
        s.append(self.segment_sha256.as_str());
        s.append(FIELD);
        match &self.codec {
            Some(c) => s.append(c.as_str()),
            None => {
                assert(s@ =~= s@ + Seq::<char>::empty());
            },
        }
        s
    }

    /// Whether two authorities state the same facts.
    pub fn same_authority(&self, other: &Self) -> (r: bool)
        ensures
            r == (self@ == other@),
    {
        same(self.representation.as_str(), other.representation.as_str()) && same(
            self.object.as_str(),
            other.object.as_str(),
        ) && same(self.encoding.as_str(), other.encoding.as_str()) && same(
            self.segment.as_str(),
            other.segment.as_str(),
        ) && self.tensor_count == other.tensor_count && self.payload_bytes == other.payload_bytes
            && same(self.payload_sha256.as_str(), other.payload_sha256.as_str()) && same(
            self.segment_sha256.as_str(),
            other.segment_sha256.as_str(),
        ) && same_option(&self.codec, &other.codec)
    }
}

/// **What a source container is.**
#[derive(Debug, PartialEq, Eq)]
pub struct SourceSemanticIdentity {
    /// The digest of the semantic graph's content.
    pub graph_hash: String,
    /// Every representation's authority.
    pub representations: Vec<CanonicalRepresentationAuthority>,
    /// The rest of the index, sealed.
    pub catalogue_hash: String,
}

/// What a source container is, by its texts.
#[verifier::ext_equal]
pub struct Semantic {
    pub graph_hash: Seq<char>,
    pub representations: Seq<Authority>,
    pub catalogue_hash: Seq<char>,
}

/// What some authorities state.
pub open spec fn authorities(s: Seq<CanonicalRepresentationAuthority>) -> Seq<Authority> {
    s.map_values(|a: CanonicalRepresentationAuthority| a@)
}

impl View for SourceSemanticIdentity {
    type V = Semantic;

    open spec fn view(&self) -> Semantic {
        Semantic {
            graph_hash: self.graph_hash@,
            representations: authorities(self.representations@),
            catalogue_hash: self.catalogue_hash@,
        }
    }
}

impl Semantic {
    /// What the semantic digest is taken over.
    pub open spec fn canonical(self) -> Seq<char> {
        SOURCE_SEMANTIC_ID_VERSION@ + SECTION@ + "graph="@ + self.graph_hash + SECTION@ + CATALOGUE@
            + "="@ + self.catalogue_hash + SECTION@ + "representations="@ + joined(
            self.representations.map_values(|a: Authority| a.record()),
            RECORD@,
        )
    }

    /// The semantic digest.
    pub open spec fn digest(self) -> Seq<char> {
        digest_of(self.canonical())
    }

    /// Each segment and the payload digest the last representation that names
    /// it records.
    pub open spec fn segments(self) -> Seq<(Seq<char>, Seq<char>)> {
        segment_rows(self.representations)
    }
}

/// Each segment and the payload digest the last authority that names it
/// records.
pub open spec fn segment_rows(s: Seq<Authority>) -> Seq<(Seq<char>, Seq<char>)>
    decreases s.len(),
{
    if s.len() == 0 {
        Seq::empty()
    } else {
        with_row::<String, Seq<char>>(
            segment_rows(s.drop_last()),
            s.last().segment,
            s.last().payload_sha256,
        )
    }
}

/// How a table of texts is read.
pub open spec fn as_text() -> spec_fn(String) -> Seq<char> {
    |s: String| s@
}

impl Default for SourceSemanticIdentity {
    fn default() -> (r: Self)
        ensures
            r@ == (Semantic {
                graph_hash: Seq::empty(),
                representations: Seq::empty(),
                catalogue_hash: Seq::empty(),
            }),
    {
        let r = SourceSemanticIdentity {
            graph_hash: String::new(),
            representations: Vec::new(),
            catalogue_hash: String::new(),
        };
        assert(r@.representations =~= Seq::<Authority>::empty());
        r
    }
}

impl Clone for SourceSemanticIdentity {
    fn clone(&self) -> (r: Self)
        ensures
            r@ == self@,
    {
        let mut representations: Vec<CanonicalRepresentationAuthority> = Vec::new();
        let mut i: usize = 0;
        let ghost all = authorities(self.representations@);
        while i < self.representations.len()
            invariant
                i <= self.representations@.len(),
                all == authorities(self.representations@),
                authorities(representations@) == all.take(i as int),
            decreases self.representations@.len() - i,
        {
            let ghost held = representations@;
            let copy: CanonicalRepresentationAuthority = self.representations[i].clone();
            representations.push(copy);
            assert(authorities(representations@) =~= authorities(held).push(copy@));
            assert(authorities(representations@) =~= all.take(i as int + 1));
            i = i + 1;
        }
        assert(authorities(representations@) =~= all);
        SourceSemanticIdentity {
            graph_hash: self.graph_hash.clone(),
            representations,
            catalogue_hash: self.catalogue_hash.clone(),
        }
    }
}

impl SourceSemanticIdentity {
    /// What the digest is taken over.
    pub fn canonical(&self) -> (r: String)
        ensures
            r@ == self@.canonical(),
    {
        let mut s: String = SOURCE_SEMANTIC_ID_VERSION.to_owned();
        s.append(SECTION);
        s.append("graph=");
        s.append(self.graph_hash.as_str());
        s.append(SECTION);
        s.append(CATALOGUE);
        s.append("=");
        s.append(self.catalogue_hash.as_str());
        s.append(SECTION);
        s.append("representations=");
        let ghost start = s@;
        let ghost parts = self@.representations.map_values(|a: Authority| a.record());
        let mut i: usize = 0;
        assert(parts.take(0) =~= Seq::<Seq<char>>::empty());
        assert(s@ =~= start + joined(parts.take(0), RECORD@));
        while i < self.representations.len()
            invariant
                i <= self.representations@.len(),
                parts == self@.representations.map_values(|a: Authority| a.record()),
                parts.len() == self.representations@.len(),
                s@ == start + joined(parts.take(i as int), RECORD@),
            decreases self.representations@.len() - i,
        {
            let ghost done = parts.take(i as int);
            if i > 0 {
                s.append(RECORD);
            }
            s.append(self.representations[i].canonical().as_str());
            proof {
                assert(parts[i as int] == self.representations@[i as int]@.record());
                lemma_joined_push(done, RECORD@, parts[i as int]);
                assert(done.push(parts[i as int]) =~= parts.take(i as int + 1));
                assert(s@ =~= start + joined(parts.take(i as int + 1), RECORD@));
            }
            i = i + 1;
        }
        assert(parts.take(parts.len() as int) =~= parts);
        s
    }

    /// The semantic digest.
    pub fn digest(&self) -> (r: String)
        ensures
            r@ == self@.digest(),
            r@.len() == 64,
    {
        digest_text(self.canonical().as_str())
    }

    /// Each segment and its payload digest.
    pub fn segments(&self) -> (r: Table<String, String>)
        ensures
            seen(r.rows(), as_text()) == self@.segments(),
    {
        let mut table: Table<String, String> = Table::new();
        let mut i: usize = 0;
        let ghost all = self@.representations;
        assert(all.take(0) =~= Seq::<Authority>::empty());
        assert(seen(table.rows(), as_text()) =~= Seq::<(Seq<char>, Seq<char>)>::empty());
        while i < self.representations.len()
            invariant
                i <= self.representations@.len(),
                all == authorities(self.representations@),
                seen(table.rows(), as_text()) == segment_rows(all.take(i as int)),
            decreases self.representations@.len() - i,
        {
            let ghost next = all.take(i as int + 1);
            let segment: String = self.representations[i].segment.clone();
            let payload: String = self.representations[i].payload_sha256.clone();
            proof {
                assert(next.drop_last() =~= all.take(i as int));
                assert(next.last() == self.representations@[i as int]@);
                lemma_seen_with_row::<String, String, Seq<char>>(
                    table.rows(),
                    as_text(),
                    segment@,
                    payload,
                );
            }
            table.insert(segment, payload);
            i = i + 1;
        }
        assert(all.take(all.len() as int) =~= all);
        table
    }

    /// Whether two identities are the same source.
    pub fn same_source(&self, other: &Self) -> (r: bool)
        ensures
            r == (self@ == other@),
    {
        assert(self@.representations.len() == self.representations@.len());
        assert(other@.representations.len() == other.representations@.len());
        if !same(self.graph_hash.as_str(), other.graph_hash.as_str()) || !same(
            self.catalogue_hash.as_str(),
            other.catalogue_hash.as_str(),
        ) || self.representations.len() != other.representations.len() {
            return false;
        }
        let mut i: usize = 0;
        let ghost a = self@.representations;
        let ghost b = other@.representations;
        while i < self.representations.len()
            invariant
                i <= self.representations@.len(),
                self.representations@.len() == other.representations@.len(),
                a == authorities(self.representations@),
                b == authorities(other.representations@),
                self@.representations == a,
                other@.representations == b,
                forall|k: int| 0 <= k < i ==> #[trigger] a[k] == b[k],
            decreases self.representations@.len() - i,
        {
            if !self.representations[i].same_authority(&other.representations[i]) {
                assert(a[i as int] != b[i as int]);
                return false;
            }
            i = i + 1;
        }
        assert(a =~= b);
        true
    }
}

/// A container's identity: what it is, and what it was exported as.
#[derive(Debug, PartialEq, Eq)]
pub struct SourceIdentity {
    /// Provenance. No identity reads it.
    pub artifact: ContainerArtifactDigest,
    pub semantic: SourceSemanticIdentity,
}

/// A container's identity, by its texts.
pub struct Source {
    pub artifact: Seq<char>,
    pub semantic: Semantic,
}

impl View for SourceIdentity {
    type V = Source;

    open spec fn view(&self) -> Source {
        Source { artifact: self.artifact@, semantic: self.semantic@ }
    }
}

impl Default for SourceIdentity {
    fn default() -> (r: Self)
        ensures
            r@ == (Source {
                artifact: Seq::empty(),
                semantic: Semantic {
                    graph_hash: Seq::empty(),
                    representations: Seq::empty(),
                    catalogue_hash: Seq::empty(),
                },
            }),
    {
        SourceIdentity {
            artifact: ContainerArtifactDigest::default(),
            semantic: SourceSemanticIdentity::default(),
        }
    }
}

impl Clone for SourceIdentity {
    fn clone(&self) -> (r: Self)
        ensures
            r@ == self@,
    {
        SourceIdentity { artifact: self.artifact.clone(), semantic: self.semantic.clone() }
    }
}

/// The authority a synthetic identity makes of a segment.
pub open spec fn synthetic_authority(segment: Seq<char>, payload: Seq<char>) -> Authority {
    Authority {
        representation: segment,
        object: Seq::empty(),
        encoding: Seq::empty(),
        segment,
        tensor_count: 0,
        payload_bytes: 0,
        payload_sha256: payload,
        segment_sha256: Seq::empty(),
        codec: None,
    }
}

impl SourceIdentity {
    /// The digest of the semantic graph's content.
    pub fn graph_hash(&self) -> (r: &str)
        ensures
            r@ == self@.semantic.graph_hash,
    {
        self.semantic.graph_hash.as_str()
    }

    /// Each segment and its payload digest.
    pub fn segments(&self) -> (r: Table<String, String>)
        ensures
            seen(r.rows(), as_text()) == self@.semantic.segments(),
    {
        self.semantic.segments()
    }

    /// The semantic digest.
    pub fn semantic_digest(&self) -> (r: String)
        ensures
            r@ == self@.semantic.digest(),
            r@.len() == 64,
    {
        self.semantic.digest()
    }

    /// An identity with one authority for each segment given and every other
    /// fact empty.
    pub fn synthetic(
        artifact: &str,
        graph_hash: &str,
        segments: Vec<(String, String)>,
    ) -> (r: SourceIdentity)
        ensures
            r@ == (Source {
                artifact: artifact@,
                semantic: Semantic {
                    graph_hash: graph_hash@,
                    representations: segments@.map_values(
                        |s: (String, String)| synthetic_authority(s.0@, s.1@),
                    ),
                    catalogue_hash: Seq::empty(),
                },
            }),
    {
        let ghost all = segments@.map_values(
            |s: (String, String)| synthetic_authority(s.0@, s.1@),
        );
        let mut representations: Vec<CanonicalRepresentationAuthority> = Vec::new();
        let mut i: usize = 0;
        while i < segments.len()
            invariant
                i <= segments@.len(),
                all == segments@.map_values(
                    |s: (String, String)| synthetic_authority(s.0@, s.1@),
                ),
                authorities(representations@) == all.take(i as int),
            decreases segments@.len() - i,
        {
            let ghost held = representations@;
            let authority = CanonicalRepresentationAuthority {
                representation: segments[i].0.clone(),
                object: String::new(),
                encoding: String::new(),
                segment: segments[i].0.clone(),
                tensor_count: 0,
                payload_bytes: 0,
                payload_sha256: segments[i].1.clone(),
                segment_sha256: String::new(),
                codec: None,
            };
            representations.push(authority);
            proof {
                assert(authority@.object =~= Seq::<char>::empty());
                assert(authority@ == all[i as int]);
                assert(authorities(representations@) =~= authorities(held).push(authority@));
                assert(authorities(representations@) =~= all.take(i as int + 1));
            }
            i = i + 1;
        }
        assert(authorities(representations@) =~= all);
        let none: String = String::new();
        assert(none@ =~= Seq::<char>::empty());
        SourceIdentity {
            artifact: ContainerArtifactDigest::new(artifact),
            semantic: SourceSemanticIdentity {
                graph_hash: graph_hash.to_owned(),
                representations,
                catalogue_hash: none,
            },
        }
    }
}

/// Two entries name one segment and disagree about what is in it.
pub open spec fn disagree(a: RepresentationEntry, b: RepresentationEntry) -> bool {
    a.segment@ == b.segment@ && (a.payload_sha256@ != b.payload_sha256@ || a.segment_sha256@
        != b.segment_sha256@)
}

/// The refusal of an entry that leaves a fact empty.
pub open spec fn empty_field_text(id: Seq<char>, field: Seq<char>) -> Seq<char> {
    REFUSED@ + ": representation `"@ + id + "` carries an empty `"@ + field
        + "`, which is a missing fact wearing a present field"@
}

/// The refusal of an entry that disagrees with an earlier one.
pub open spec fn disagreement_text(id: Seq<char>, segment: Seq<char>) -> Seq<char> {
    REFUSED@ + ": representation `"@ + id + "` and an earlier one both name segment `"@ + segment
        + "` and disagree about its digests"@
}

/// Why entry `i` is refused.
pub open spec fn entry_fault(rows: Seq<(Seq<char>, RepresentationEntry)>, i: int) -> Option<
    Seq<char>,
> {
    let id = rows[i].0;
    let entry = rows[i].1;
    if entry.segment@.len() == 0 {
        Some(empty_field_text(id, "segment"@))
    } else if entry.payload_sha256@.len() == 0 {
        Some(empty_field_text(id, "payload_sha256"@))
    } else if entry.segment_sha256@.len() == 0 {
        Some(empty_field_text(id, "segment_sha256"@))
    } else if exists|j: int| 0 <= j < i && disagree(#[trigger] rows[j].1, entry) {
        Some(disagreement_text(id, entry.segment@))
    } else {
        None
    }
}

/// Why the first faulty entry among the first `n` is refused.
pub open spec fn first_fault(rows: Seq<(Seq<char>, RepresentationEntry)>, n: int) -> Option<
    Seq<char>,
>
    decreases n,
{
    if n <= 0 {
        None
    } else {
        match first_fault(rows, n - 1) {
            Some(t) => Some(t),
            None => entry_fault(rows, n - 1),
        }
    }
}

/// Why an index has no identity.
pub open spec fn identity_fault(index: Vindex3Index) -> Option<Seq<char>> {
    let rows = index.representations.rows();
    if index.system_graph is None {
        Some(
            REFUSED@ + ": the index declares no `"@ + INDEX_SYSTEM_GRAPH@
                + "`, and the semantic graph is one of the three things a source identity seals"@,
        )
    } else if rows.len() == 0 {
        Some(
            REFUSED@
                + ": the index declares no representations, so this identity would seal no payload bytes at all"@,
        )
    } else if first_fault(rows, rows.len() as int) is Some {
        first_fault(rows, rows.len() as int)
    } else if !(index.document is Object) {
        Some(REFUSED@ + ": an index is a JSON object"@)
    } else {
        None
    }
}

/// The catalogue: the index without the members sealed elsewhere.
pub open spec fn catalogue_text(document: Json) -> Seq<char> {
    object_text(without(document->Object_0@, removals()))
}

/// The identity an index, its text and its graph state.
pub open spec fn identity_of(
    index: Vindex3Index,
    index_text: Seq<char>,
    graph: Seq<u8>,
) -> Source {
    Source {
        artifact: digest_of(index_text),
        semantic: Semantic {
            graph_hash: hex(sha256_of(graph)),
            representations: index.representations.rows().map_values(
                |r: (Seq<char>, RepresentationEntry)| authority_of(r.0, r.1),
            ),
            catalogue_hash: digest_of(catalogue_text(index.document)),
        },
    }
}

fn empty_field(id: &str, field: &str) -> (r: VindexError)
    ensures
        r.text() == empty_field_text(id@, field@),
{
    let mut s: String = REFUSED.to_owned();
    s.append(": representation `");
    s.append(id);
    s.append("` carries an empty `");
    s.append(field);
    s.append("`, which is a missing fact wearing a present field");
    VindexError::Parse(s)
}

/// **Read a container's identity from what its index states**, refusing an
/// index that leaves a sealed fact open.
pub fn read_source_identity(
    index: &Vindex3Index,
    index_text: &str,
    graph: &[u8],
) -> (r: Result<SourceIdentity, VindexError>)
    ensures
        r matches Ok(id) ==> identity_fault(*index) is None && id@ == identity_of(
            *index,
            index_text@,
            graph@,
        ),
        r matches Err(e) ==> identity_fault(*index) == Some(e.text()),
{
    if index.system_graph.is_none() {
        let mut s: String = REFUSED.to_owned();
        s.append(": the index declares no `");
        s.append(INDEX_SYSTEM_GRAPH);
        s.append("`, and the semantic graph is one of the three things a source identity seals");
        return Err(VindexError::Parse(s));
    }
    if index.representations.is_empty() {
        let mut s: String = REFUSED.to_owned();
        s.append(
            ": the index declares no representations, so this identity would seal no payload bytes at all",
        );
        return Err(VindexError::Parse(s));
    }
    let ghost rows = index.representations.rows();
    let ghost all = rows.map_values(|r: (Seq<char>, RepresentationEntry)| authority_of(r.0, r.1));
    let mut representations: Vec<CanonicalRepresentationAuthority> = Vec::new();
    let mut i: usize = 0;
    while i < index.representations.len()
        invariant
            i <= rows.len(),
            rows == index.representations.rows(),
            rows.len() > 0,
            index.system_graph is Some,
            all == rows.map_values(
                |r: (Seq<char>, RepresentationEntry)| authority_of(r.0, r.1),
            ),
            first_fault(rows, i as int) is None,
            authorities(representations@) == all.take(i as int),
        decreases rows.len() - i,
    {
        let id: &String = index.representations.key_at(i);
        let entry: &RepresentationEntry = index.representations.value_at(i);
        proof {
            lemma_first_fault(rows, i as int, rows.len() as int);
        }
        if entry.segment.as_str().unicode_len() == 0 {
            return Err(empty_field(id.as_str(), "segment"));
        }
        if entry.payload_sha256.as_str().unicode_len() == 0 {
            return Err(empty_field(id.as_str(), "payload_sha256"));
        }
        if entry.segment_sha256.as_str().unicode_len() == 0 {
            return Err(empty_field(id.as_str(), "segment_sha256"));
        }
        let mut j: usize = 0;
        while j < i
            invariant
                j <= i < rows.len(),
                rows == index.representations.rows(),
                rows.len() > 0,
                index.system_graph is Some,
                id@ == rows[i as int].0,
                *entry == rows[i as int].1,
                entry.segment@.len() > 0,
                entry.payload_sha256@.len() > 0,
                entry.segment_sha256@.len() > 0,
                entry_fault(rows, i as int) is Some ==> first_fault(rows, rows.len() as int)
                    == entry_fault(rows, i as int),
                forall|k: int| 0 <= k < j ==> !disagree(#[trigger] rows[k].1, *entry),
            decreases i - j,
        {
            let other: &RepresentationEntry = index.representations.value_at(j);
            if same(other.segment.as_str(), entry.segment.as_str()) && (!same(
                other.payload_sha256.as_str(),
                entry.payload_sha256.as_str(),
            ) || !same(other.segment_sha256.as_str(), entry.segment_sha256.as_str())) {
                let mut s: String = REFUSED.to_owned();
                s.append(": representation `");
                s.append(id.as_str());
                s.append("` and an earlier one both name segment `");
                s.append(entry.segment.as_str());
                s.append("` and disagree about its digests");
                assert(disagree(rows[j as int].1, *entry));
                return Err(VindexError::Parse(s));
            }
            j = j + 1;
        }
        let ghost held = representations@;
        let authority = CanonicalRepresentationAuthority::read(id.as_str(), entry);
        representations.push(authority);
        proof {
            assert(authorities(representations@) =~= authorities(held).push(authority@));
            assert(authorities(representations@) =~= all.take(i as int + 1));
        }
        i = i + 1;
    }
    assert(authorities(representations@) =~= all);
    match &index.document {
        Json::Object(members) => {
            let mut catalogue: String = String::new();
            write_object(members, &catalogue_removals(), &mut catalogue);
            assert(catalogue@ =~= catalogue_text(index.document));
            Ok(
                SourceIdentity {
                    artifact: ContainerArtifactDigest::new(digest_text(index_text).as_str()),
                    semantic: SourceSemanticIdentity {
                        graph_hash: hash_bytes(graph),
                        representations,
                        catalogue_hash: digest_text(catalogue.as_str()),
                    },
                },
            )
        },
        _ => {
            let mut s: String = REFUSED.to_owned();
            s.append(": an index is a JSON object");
            Err(VindexError::Parse(s))
        },
    }
}

proof fn lemma_first_fault(rows: Seq<(Seq<char>, RepresentationEntry)>, i: int, n: int)
    requires
        0 <= i < n,
        first_fault(rows, i) is None,
    ensures
        entry_fault(rows, i) is Some ==> first_fault(rows, n) == entry_fault(rows, i),
    decreases n,
{
    if n > i + 1 {
        lemma_first_fault(rows, i, n - 1);
    }
}

proof fn lemma_member_without(members: Seq<(String, Json)>, dropped: Seq<Seq<char>>, key: Seq<char>)
    ensures
        member(without(members, dropped), key) == (if dropped.contains(key) {
            None
        } else {
            member(members, key)
        }),
    decreases members.len(),
{
    if members.len() > 0 {
        let init = members.drop_last();
        lemma_member_without(init, dropped, key);
        let kept = without(init, dropped);
        if !dropped.contains(members.last().0@) {
            assert(kept.push(members.last()).drop_last() =~= kept);
        }
    }
}

/// **Re-exporting an index keeps the identity.** Two indexes that state the
/// same representations and give every member the same value are one source,
/// whatever text they were exported as and whatever order their members are
/// in.
pub proof fn law_export_is_no_part_of_identity(
    a: Vindex3Index,
    a_text: Seq<char>,
    b: Vindex3Index,
    b_text: Seq<char>,
    graph: Seq<u8>,
)
    requires
        a.representations.rows().len() == b.representations.rows().len(),
        forall|i: int|
            0 <= i < a.representations.rows().len() ==> authority_of(
                (#[trigger] a.representations.rows()[i]).0,
                a.representations.rows()[i].1,
            ) == authority_of(b.representations.rows()[i].0, b.representations.rows()[i].1),
        a.document is Object,
        b.document is Object,
        forall|key: Seq<char>|
            member(a.document->Object_0@, key) == member(b.document->Object_0@, key),
    ensures
        identity_of(a, a_text, graph).semantic == identity_of(b, b_text, graph).semantic,
{
    let x = without(a.document->Object_0@, removals());
    let y = without(b.document->Object_0@, removals());
    assert forall|key: Seq<char>| member(x, key) == member(y, key) by {
        lemma_member_without(a.document->Object_0@, removals(), key);
        lemma_member_without(b.document->Object_0@, removals(), key);
        assert(member(a.document->Object_0@, key) == member(b.document->Object_0@, key));
    }
    lemma_object_text(x, y);
    assert(identity_of(a, a_text, graph).semantic.representations =~= identity_of(
        b,
        b_text,
        graph,
    ).semantic.representations);
}

/// A codec as a record writes it.
spec fn codec_text(a: Authority) -> Seq<char> {
    match a.codec {
        Some(c) => c,
        None => Seq::empty(),
    }
}

/// The fields of an authority's record.
spec fn sealed_fields(a: Authority) -> Seq<Seq<char>> {
    seq![a.representation].push(a.object).push(a.encoding).push(a.segment).push(
        decimal(a.tensor_count as nat),
    ).push(decimal(a.payload_bytes as nat)).push(a.payload_sha256).push(a.segment_sha256).push(
        codec_text(a),
    )
}

proof fn lemma_sealed_fields(a: Authority)
    ensures
        a.record() == joined(sealed_fields(a), FIELD@),
{
    let p1 = seq![a.representation];
    let p2 = p1.push(a.object);
    let p3 = p2.push(a.encoding);
    let p4 = p3.push(a.segment);
    let p5 = p4.push(decimal(a.tensor_count as nat));
    let p6 = p5.push(decimal(a.payload_bytes as nat));
    let p7 = p6.push(a.payload_sha256);
    let p8 = p7.push(a.segment_sha256);
    lemma_joined_push(p1, FIELD@, a.object);
    lemma_joined_push(p2, FIELD@, a.encoding);
    lemma_joined_push(p3, FIELD@, a.segment);
    lemma_joined_push(p4, FIELD@, decimal(a.tensor_count as nat));
    lemma_joined_push(p5, FIELD@, decimal(a.payload_bytes as nat));
    lemma_joined_push(p6, FIELD@, a.payload_sha256);
    lemma_joined_push(p7, FIELD@, a.segment_sha256);
    lemma_joined_push(p8, FIELD@, codec_text(a));
}

/// No separator stands in what an authority states, and a codec is not empty.
pub open spec fn authority_is_clear(a: Authority) -> bool {
    &&& clear(a.representation)
    &&& clear(a.object)
    &&& clear(a.encoding)
    &&& clear(a.segment)
    &&& clear(a.payload_sha256)
    &&& clear(a.segment_sha256)
    &&& a.codec matches Some(c) ==> clear(c) && c.len() > 0
}

/// No separator stands in what an identity states.
pub open spec fn semantic_is_clear(s: Semantic) -> bool {
    &&& clear(s.graph_hash)
    &&& clear(s.catalogue_hash)
    &&& forall|i: int|
        0 <= i < s.representations.len() ==> authority_is_clear(#[trigger] s.representations[i])
}

proof fn lemma_sealed_fields_are_free(a: Authority, c: char)
    requires
        authority_is_clear(a),
        c == '\u{1d}' || c == '\u{1e}' || c == '\u{1f}',
    ensures
        forall|i: int|
            0 <= i < sealed_fields(a).len() ==> free_of(#[trigger] sealed_fields(a)[i], c),
{
    lemma_decimal_is_digits(a.tensor_count as nat);
    lemma_decimal_is_digits(a.payload_bytes as nat);
    assert(free_of(decimal(a.tensor_count as nat), c));
    assert(free_of(decimal(a.payload_bytes as nat), c));
    assert(free_of(codec_text(a), c));
}

proof fn lemma_record_is_free(a: Authority, c: char)
    requires
        authority_is_clear(a),
        c == '\u{1d}' || c == '\u{1e}',
    ensures
        free_of(a.record(), c),
{
    reveal_strlit("\u{1f}");
    assert(FIELD@ =~= seq!['\u{1f}']);
    lemma_sealed_fields(a);
    lemma_sealed_fields_are_free(a, c);
    lemma_free_of_joined(sealed_fields(a), FIELD@, c);
}

proof fn lemma_record_is_not_empty(a: Authority)
    ensures
        a.record().len() > 0,
{
    reveal_strlit("\u{1f}");
    assert(FIELD@.len() == 1);
    let head = a.representation + FIELD@ + a.object + FIELD@ + a.encoding + FIELD@ + a.segment
        + FIELD@ + decimal(a.tensor_count as nat) + FIELD@ + decimal(a.payload_bytes as nat)
        + FIELD@ + a.payload_sha256 + FIELD@ + a.segment_sha256;
    assert(a.record() == head + FIELD@ + codec_text(a));
}

proof fn lemma_record_identifies(a: Authority, b: Authority)
    requires
        authority_is_clear(a),
        authority_is_clear(b),
        a.record() == b.record(),
    ensures
        a == b,
{
    reveal_strlit("\u{1f}");
    assert(FIELD@ =~= seq!['\u{1f}']);
    let x = sealed_fields(a);
    let y = sealed_fields(b);
    lemma_sealed_fields(a);
    lemma_sealed_fields(b);
    lemma_sealed_fields_are_free(a, '\u{1f}');
    lemma_sealed_fields_are_free(b, '\u{1f}');
    lemma_joined_identify(x, y, FIELD@, '\u{1f}');
    assert(x[0] == y[0] && x[1] == y[1] && x[2] == y[2] && x[3] == y[3]);
    assert(x[4] == y[4] && x[5] == y[5] && x[6] == y[6] && x[7] == y[7] && x[8] == y[8]);
    if a.tensor_count != b.tensor_count {
        lemma_decimal_identifies(a.tensor_count as nat, b.tensor_count as nat);
    }
    if a.payload_bytes != b.payload_bytes {
        lemma_decimal_identifies(a.payload_bytes as nat, b.payload_bytes as nat);
    }
}

/// The records an identity seals.
spec fn sealed_records(s: Semantic) -> Seq<Seq<char>> {
    s.representations.map_values(|a: Authority| a.record())
}

/// The sections of an identity's canonical text, behind its version.
spec fn sealed_sections(s: Semantic) -> Seq<Seq<char>> {
    seq!["graph="@ + s.graph_hash].push((CATALOGUE@ + "="@) + s.catalogue_hash).push(
        "representations="@ + joined(sealed_records(s), RECORD@),
    )
}

proof fn lemma_sealed_sections(s: Semantic)
    ensures
        s.canonical() == SOURCE_SEMANTIC_ID_VERSION@ + SECTION@ + joined(
            sealed_sections(s),
            SECTION@,
        ),
{
    let head = SOURCE_SEMANTIC_ID_VERSION@ + SECTION@;
    let p1 = seq!["graph="@ + s.graph_hash];
    let p2 = p1.push((CATALOGUE@ + "="@) + s.catalogue_hash);
    lemma_first_part(head, "graph="@, s.graph_hash, SECTION@);
    lemma_next_part(head, p1, CATALOGUE@ + "="@, s.catalogue_hash, SECTION@);
    let t = head + "graph="@ + s.graph_hash + SECTION@;
    assert(t + (CATALOGUE@ + "="@) =~= t + CATALOGUE@ + "="@);
    lemma_next_part(
        head,
        p2,
        "representations="@,
        joined(sealed_records(s), RECORD@),
        SECTION@,
    );
}

proof fn lemma_sealed_sections_are_free(s: Semantic)
    requires
        semantic_is_clear(s),
    ensures
        forall|i: int|
            0 <= i < sealed_sections(s).len() ==> free_of(
                #[trigger] sealed_sections(s)[i],
                '\u{1d}',
            ),
{
    reveal_strlit("graph=");
    reveal_strlit("catalogue");
    reveal_strlit("=");
    reveal_strlit("representations=");
    reveal_strlit("\u{1e}");
    assert(RECORD@ =~= seq!['\u{1e}']);
    let records = sealed_records(s);
    assert forall|i: int| 0 <= i < records.len() implies free_of(
        #[trigger] records[i],
        '\u{1d}',
    ) by {
        assert(authority_is_clear(s.representations[i]));
        lemma_record_is_free(s.representations[i], '\u{1d}');
    }
    lemma_free_of_joined(records, RECORD@, '\u{1d}');
    lemma_free_of_both("graph="@, s.graph_hash, '\u{1d}');
    lemma_free_of_both(CATALOGUE@, "="@, '\u{1d}');
    lemma_free_of_both(CATALOGUE@ + "="@, s.catalogue_hash, '\u{1d}');
    lemma_free_of_both("representations="@, joined(records, RECORD@), '\u{1d}');
}

/// **Every sealed fact is identity.** Identities whose texts hold no separator
/// are written alike only where the graph, the catalogue and every fact of
/// every representation agree.
pub proof fn law_every_sealed_fact_is_identity(a: Semantic, b: Semantic)
    requires
        semantic_is_clear(a),
        semantic_is_clear(b),
        a.canonical() == b.canonical(),
    ensures
        a == b,
{
    reveal_strlit("\u{1d}");
    assert(SECTION@ =~= seq!['\u{1d}']);
    let head = SOURCE_SEMANTIC_ID_VERSION@ + SECTION@;
    let x = sealed_sections(a);
    let y = sealed_sections(b);
    lemma_sealed_sections(a);
    lemma_sealed_sections(b);
    lemma_label(head, joined(x, SECTION@), joined(y, SECTION@));
    lemma_sealed_sections_are_free(a);
    lemma_sealed_sections_are_free(b);
    lemma_joined_identify(x, y, SECTION@, '\u{1d}');
    assert(x[0] == y[0] && x[1] == y[1] && x[2] == y[2]);
    lemma_label("graph="@, a.graph_hash, b.graph_hash);
    lemma_label(CATALOGUE@ + "="@, a.catalogue_hash, b.catalogue_hash);
    let u = sealed_records(a);
    let v = sealed_records(b);
    lemma_label("representations="@, joined(u, RECORD@), joined(v, RECORD@));
    assert forall|i: int| 0 <= i < u.len() implies plain(#[trigger] u[i]) by {
        assert(authority_is_clear(a.representations[i]));
        lemma_record_is_free(a.representations[i], '\u{1e}');
    }
    assert forall|i: int| 0 <= i < v.len() implies plain(#[trigger] v[i]) by {
        assert(authority_is_clear(b.representations[i]));
        lemma_record_is_free(b.representations[i], '\u{1e}');
    }
    if u.len() > 0 && v.len() > 0 {
        lemma_joined_records_identify(u, v);
    } else {
        lemma_only_nothing_joins_to_nothing(u);
        lemma_only_nothing_joins_to_nothing(v);
        if u.len() > 0 {
            lemma_record_is_not_empty(a.representations[0]);
            assert(u[0] == a.representations[0].record());
        }
        if v.len() > 0 {
            lemma_record_is_not_empty(b.representations[0]);
            assert(v[0] == b.representations[0].record());
        }
    }
    assert(u.len() == v.len());
    assert forall|i: int| 0 <= i < a.representations.len() implies a.representations[i]
        == b.representations[i] by {
        assert(u[i] == v[i]);
        assert(authority_is_clear(a.representations[i]));
        assert(authority_is_clear(b.representations[i]));
        lemma_record_identifies(a.representations[i], b.representations[i]);
    }
    assert(a.representations =~= b.representations);
}

/// **When an index has an identity.** It declares a graph and at least one
/// representation; every representation names its segment and both digests;
/// representations that name one segment agree on them; and the document is an
/// object.
pub proof fn law_when_an_index_has_an_identity(index: Vindex3Index)
    ensures
        identity_fault(index) is None <==> {
            let rows = index.representations.rows();
            &&& index.system_graph is Some
            &&& rows.len() > 0
            &&& index.document is Object
            &&& forall|i: int|
                0 <= i < rows.len() ==> {
                    &&& (#[trigger] rows[i]).1.segment@.len() > 0
                    &&& rows[i].1.payload_sha256@.len() > 0
                    &&& rows[i].1.segment_sha256@.len() > 0
                }
            &&& forall|i: int, j: int|
                0 <= j < i < rows.len() && (#[trigger] rows[i]).1.segment@ == (
                #[trigger] rows[j]).1.segment@ ==> rows[i].1.payload_sha256@
                    == rows[j].1.payload_sha256@ && rows[i].1.segment_sha256@
                    == rows[j].1.segment_sha256@
        },
{
    let rows = index.representations.rows();
    let n = rows.len() as int;
    lemma_faults(rows, n);
    if first_fault(rows, n) is None {
        assert forall|i: int, j: int|
            0 <= j < i < rows.len() && (#[trigger] rows[i]).1.segment@ == (
            #[trigger] rows[j]).1.segment@ implies rows[i].1.payload_sha256@
            == rows[j].1.payload_sha256@ && rows[i].1.segment_sha256@
            == rows[j].1.segment_sha256@ by {
            assert(entry_fault(rows, i) is None);
            assert(!disagree(rows[j].1, rows[i].1));
        }
        assert forall|i: int| 0 <= i < rows.len() implies {
            &&& (#[trigger] rows[i]).1.segment@.len() > 0
            &&& rows[i].1.payload_sha256@.len() > 0
            &&& rows[i].1.segment_sha256@.len() > 0
        } by {
            assert(entry_fault(rows, i) is None);
        }
    } else {
        let i = choose|i: int| 0 <= i < n && #[trigger] entry_fault(rows, i) is Some;
        assert(rows[i] == rows[i]);
        if exists|j: int| 0 <= j < i && disagree(#[trigger] rows[j].1, rows[i].1) {
            let j = choose|j: int| 0 <= j < i && disagree(#[trigger] rows[j].1, rows[i].1);
            assert(rows[j].1.segment@ == rows[i].1.segment@);
        }
    }
}

proof fn lemma_faults(rows: Seq<(Seq<char>, RepresentationEntry)>, n: int)
    requires
        0 <= n,
    ensures
        first_fault(rows, n) is None <==> forall|i: int|
            0 <= i < n ==> #[trigger] entry_fault(rows, i) is None,
    decreases n,
{
    if n > 0 {
        lemma_faults(rows, n - 1);
        if first_fault(rows, n) is None {
            assert forall|i: int| 0 <= i < n implies #[trigger] entry_fault(rows, i) is None by {
                if i < n - 1 {
                    assert(first_fault(rows, n - 1) is None);
                }
            }
        } else if first_fault(rows, n - 1) is None {
            assert(entry_fault(rows, n - 1) is Some);
        }
    }
}

/// **What an identity seals.** The text as it was exported, the graph's own
/// bytes, and of every representation all that its entry states.
pub proof fn law_what_an_identity_seals(
    index: Vindex3Index,
    index_text: Seq<char>,
    graph: Seq<u8>,
    i: int,
)
    requires
        0 <= i < index.representations.rows().len(),
    ensures
        ({
            let source = identity_of(index, index_text, graph);
            let row = index.representations.rows()[i];
            let sealed = source.semantic.representations[i];
            &&& source.artifact == digest_of(index_text)
            &&& source.semantic.graph_hash == hex(sha256_of(graph))
            &&& source.semantic.representations.len() == index.representations.rows().len()
            &&& sealed.representation == row.0
            &&& sealed.object == row.1.object@
            &&& sealed.encoding == row.1.encoding@
            &&& sealed.segment == row.1.segment@
            &&& sealed.tensor_count == row.1.tensor_count
            &&& sealed.payload_bytes == row.1.payload_bytes
            &&& sealed.payload_sha256 == row.1.payload_sha256@
            &&& sealed.segment_sha256 == row.1.segment_sha256@
            &&& sealed.codec is Some <==> row.1.codec is Some
            &&& row.1.codec matches Some(c) ==> sealed.codec == Some(json_text(c))
        }),
{
}

/// **A segment's payload is what its last representation records**, and a
/// segment no representation names has none.
pub proof fn law_the_last_representation_records_a_segment(
    s: Seq<Authority>,
    segment: Seq<char>,
    i: int,
)
    ensures
        0 <= i < s.len() && s[i].segment == segment && (forall|j: int|
            i < j < s.len() ==> (#[trigger] s[j]).segment != segment) ==> lookup(
            segment_rows(s),
            segment,
        ) == Some(s[i].payload_sha256),
        (forall|j: int| 0 <= j < s.len() ==> (#[trigger] s[j]).segment != segment) ==> lookup(
            segment_rows(s),
            segment,
        ) is None,
    decreases s.len(),
{
    if s.len() > 0 {
        let init = s.drop_last();
        assert(s[s.len() - 1] == s.last());
        law_the_last_representation_records_a_segment(init, segment, i);
        lemma_with_row_lookup::<String, Seq<char>>(
            segment_rows(init),
            s.last().segment,
            s.last().payload_sha256,
            segment,
        );
        if 0 <= i < s.len() && s[i].segment == segment && (forall|j: int|
            i < j < s.len() ==> (#[trigger] s[j]).segment != segment) {
            if i < init.len() {
                assert(init[i] == s[i]);
                assert forall|j: int| i < j < init.len() implies (#[trigger] init[j]).segment
                    != segment by {
                    assert(init[j] == s[j]);
                }
            }
        }
        if forall|j: int| 0 <= j < s.len() ==> (#[trigger] s[j]).segment != segment {
            assert forall|j: int| 0 <= j < init.len() implies (#[trigger] init[j]).segment
                != segment by {
                assert(init[j] == s[j]);
            }
        }
    } else {
        crate::table::lemma_row_of(segment_rows(s), segment);
    }
}

/// **What the catalogue leaves out**: the representations, the graph and where
/// the model came from, and nothing else.
pub proof fn law_what_the_catalogue_leaves_out(key: Seq<char>)
    ensures
        removals().contains(key) <==> key == "representations"@ || key == "system_graph"@ || key
            == "derived_from_model"@,
{
    let r = removals();
    assert(r[0] == INDEX_REPRESENTATIONS@);
    assert(r[1] == INDEX_SYSTEM_GRAPH@);
    assert(r[2] == INDEX_DERIVED_FROM_MODEL@);
    if r.contains(key) {
        let k = r.index_of(key);
        assert(r[k] == key);
    }
}

} // verus!

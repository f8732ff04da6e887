//! Index policy, entries and the mathematical model of a snapshot.
use vstd::prelude::*;
use vstd::utf8::{encode_utf8, valid_utf8};
use vstd::string::StringSliceAdditionalSpecFns;
use crate::archive::{kind, kind_of};
use crate::error::{Error, Result};
use crate::index::bloom::{bloom_of, trigram_bloom, BLOOM_WORDS};
use crate::index::codec::{hex_text, is_lower_hex, lemma_hex_text, le_u64, sha256, sha256_digest};
use crate::index::format::reopen_fits;
use crate::text::{bytes_lt, is_utf8, string_bytes};

verus! {

/// Most roots one index may hold.
pub const MAX_ROOTS: usize = 4096;

/// Resource and parallelism policy for persistent indexes.
#[derive(Debug, Clone, Copy, PartialEq, Eq, Structural)]
pub struct IndexOptions {
    /// Maximum selected files accepted by one index.
    pub max_entries: u64,
    /// Maximum raw source bytes retained by one index.
    pub max_content_bytes: u64,
    /// Maximum serialized index bytes accepted on load or save.
    pub max_index_bytes: u64,
    /// Maximum encoded bytes accepted for one root or relative path.
    pub max_path_bytes: usize,
    /// Content workers used while building or updating the index.
    pub build_parallelism: usize,
    /// Workers used to verify candidate content during a query.
    pub search_parallelism: usize,
}

/// `workers` limited to between 1 and 32.
pub open spec fn clamp_workers(workers: usize) -> usize {
    if workers < 1 { 1 } else if workers > 32 { 32 } else { workers }
}

impl IndexOptions {
    /// The default limits with `workers` clamped to between 1 and 32 for
    /// both building and searching.
    pub open spec fn spec_for_workers(workers: usize) -> IndexOptions {
        IndexOptions {
            max_entries: 2_000_000,
            max_content_bytes: 68_719_476_736,
            max_index_bytes: 103_079_215_104,
            max_path_bytes: 1_048_576,
            build_parallelism: clamp_workers(workers),
            search_parallelism: clamp_workers(workers),
        }
    }

    /// The default limits for a machine with `available` hardware threads.
    pub fn for_workers(available: usize) -> (options: Self)
        ensures
            options == IndexOptions::spec_for_workers(available),
    {
        let workers = if available < 1 { 1 } else if available > 32 { 32 } else { available };
        IndexOptions {
            max_entries: 2_000_000,
            max_content_bytes: 64 * 1024 * 1024 * 1024,
            max_index_bytes: 96 * 1024 * 1024 * 1024,
            max_path_bytes: 1024 * 1024,
            build_parallelism: workers,
            search_parallelism: workers,
        }
    }

    /// Sets build and query worker counts.
    pub fn with_parallelism(self, workers: usize) -> (options: Self)
        ensures
            options == (IndexOptions { build_parallelism: workers, search_parallelism: workers, ..self }),
    {
        IndexOptions { build_parallelism: workers, search_parallelism: workers, ..self }
    }

    /// Sets content workers used while building or updating.
    pub fn with_build_parallelism(self, workers: usize) -> (options: Self)
        ensures
            options == (IndexOptions { build_parallelism: workers, ..self }),
    {
        IndexOptions { build_parallelism: workers, ..self }
    }

    /// Sets candidate-verification workers used by queries.
    pub fn with_search_parallelism(self, workers: usize) -> (options: Self)
        ensures
            options == (IndexOptions { search_parallelism: workers, ..self }),
    {
        IndexOptions { search_parallelism: workers, ..self }
    }

    /// Sets the maximum selected-file count.
    pub fn with_max_entries(self, max_entries: u64) -> (options: Self)
        ensures
            options == (IndexOptions { max_entries, ..self }),
    {
        IndexOptions { max_entries, ..self }
    }

    /// Sets the maximum retained source bytes.
    pub fn with_max_content_bytes(self, max_content_bytes: u64) -> (options: Self)
        ensures
            options == (IndexOptions { max_content_bytes, ..self }),
    {
        IndexOptions { max_content_bytes, ..self }
    }

    /// Sets the maximum serialized index bytes.
    pub fn with_max_index_bytes(self, max_index_bytes: u64) -> (options: Self)
        ensures
            options == (IndexOptions { max_index_bytes, ..self }),
    {
        IndexOptions { max_index_bytes, ..self }
    }

    /// Sets the maximum encoded length of one root or relative path.
    pub fn with_max_path_bytes(self, max_path_bytes: usize) -> (options: Self)
        ensures
            options == (IndexOptions { max_path_bytes, ..self }),
    {
        IndexOptions { max_path_bytes, ..self }
    }

    /// The complaint about the first unusable setting, if any.
    pub open spec fn complaint(self) -> Option<Seq<char>> {
        if self.build_parallelism == 0 || self.search_parallelism == 0 {
            Some("parallelism must be greater than zero"@)
        } else if self.max_entries == 0 {
            Some("max_entries must be greater than zero"@)
        } else if self.max_content_bytes == 0 || self.max_index_bytes == 0 {
            Some("content and index byte limits must be greater than zero"@)
        } else if self.max_path_bytes == 0 {
            Some("max_path_bytes must be greater than zero"@)
        } else {
            None
        }
    }

    /// Rejects a setting of zero workers or a zero limit.
    pub fn validate(&self, path: &str) -> (result: Result<()>)
        ensures
            match self.complaint() {
                None => result is Ok,
                Some(message) => result matches Err(Error::Index { path: p, message: m }) && p@ == path@ && m@ == message,
            },
    {
        let message = if self.build_parallelism == 0 || self.search_parallelism == 0 {
            "parallelism must be greater than zero"
        } else if self.max_entries == 0 {
            "max_entries must be greater than zero"
        } else if self.max_content_bytes == 0 || self.max_index_bytes == 0 {
            "content and index byte limits must be greater than zero"
        } else if self.max_path_bytes == 0 {
            "max_path_bytes must be greater than zero"
        } else {
            return Ok(());
        };
        Err(Error::Index { path: String::from_str(path), message: String::from_str(message) })
    }
}

impl Default for IndexOptions {
    /// The default limits with one worker; hosts with more hardware threads
    /// use `for_workers`.
    fn default() -> (options: Self)
        ensures
            options == IndexOptions::spec_for_workers(1),
    {
        IndexOptions::for_workers(1)
    }
}

/// Cheap status suitable for health endpoints and live-index diagnostics.
#[derive(Debug, Clone, PartialEq, Eq)]
pub struct IndexStatus {
    /// Encoded indexed roots in insertion order.
    pub roots: Vec<Vec<u8>>,
    /// Selected files retained by the index.
    pub files: u64,
    /// Raw source bytes retained by the index.
    pub content_bytes: u64,
    /// Deterministic root/path/content revision.
    pub revision: String,
}

/// The mathematical form of one indexed file.
pub struct EntryModel {
    pub root_index: usize,
    /// UTF-8 bytes of the root-relative path.
    pub path: Seq<u8>,
    pub content: Seq<u8>,
    /// SHA-256 digest of the content, as recorded.
    pub hash: Seq<u8>,
    pub prefilterable: bool,
    pub bloom: Seq<u64>,
}

/// One selected file held by an index.
#[derive(Debug)]
pub struct IndexEntry {
    pub root_index: usize,
    pub path: String,
    pub content: Vec<u8>,
    pub content_hash: Vec<u8>,
    pub prefilterable: bool,
    pub bloom: Vec<u64>,
}

impl View for IndexEntry {
    type V = EntryModel;

    open spec fn view(&self) -> EntryModel {
        EntryModel {
            root_index: self.root_index,
            path: encode_utf8(self.path@),
            content: self.content@,
            hash: self.content_hash@,
            prefilterable: self.prefilterable,
            bloom: self.bloom@,
        }
    }
}

/// The entry an index builds from a file's bytes: its digest, whether it
/// is UTF-8 text outside any archive, and its trigram filter when it is.
#[verifier::opaque]
pub open spec fn built_entry(root_index: usize, path: Seq<u8>, content: Seq<u8>) -> EntryModel {
    let prefilterable = valid_utf8(content) && kind_of(path) is None;
    EntryModel {
        root_index,
        path,
        content,
        hash: sha256_digest(content),
        prefilterable,
        bloom: if prefilterable { bloom_of(content) } else { Seq::new(BLOOM_WORDS as nat, |i: int| 0u64) },
    }
}

impl IndexEntry {
    /// Builds the entry of one selected file.
    pub fn from_parts(root_index: usize, path: String, content: Vec<u8>) -> (entry: Self)
        ensures
            entry@ == built_entry(root_index, encode_utf8(path@), content@),
            entry.path@ == path@,
            entry@.root_index == root_index,
            entry@.content == content@,
            entry@.hash.len() == 32,
            entry@.bloom.len() == BLOOM_WORDS,
            valid_utf8(entry@.path),
            entry@.content.len() <= usize::MAX,
    {
        let content_hash = sha256(content.as_slice());
        let size = content.len();
        proof {
            vstd::utf8::encode_utf8_valid_utf8(path@);
        }
        let prefilterable = is_utf8(content.as_slice()) && kind(path.as_str()).is_none();
        let bloom = if prefilterable {
            trigram_bloom(content.as_slice())
        } else {
            let zeros: Vec<u64> = vec![0u64, 0u64, 0u64, 0u64, 0u64, 0u64, 0u64, 0u64];
            proof {
                assert(zeros@ =~= Seq::new(BLOOM_WORDS as nat, |i: int| 0u64));
            }
            zeros
        };
        proof {
            reveal(built_entry);
        }
        IndexEntry { root_index, path, content, content_hash, prefilterable, bloom }
    }
}

/// Whether entry `a` sorts strictly before entry `b`: by root, then by path
/// bytes.
pub open spec fn key_before(a: EntryModel, b: EntryModel) -> bool {
    a.root_index < b.root_index || (a.root_index == b.root_index && bytes_lt(a.path, b.path))
}

/// Every entry sorts strictly before the next.
pub open spec fn strictly_ordered(entries: Seq<EntryModel>) -> bool {
    forall|i: int| 0 <= i < entries.len() - 1 ==> key_before(#[trigger] entries[i], entries[i + 1])
}

/// Content bytes of the first `n` entries.
pub open spec fn content_total(entries: Seq<EntryModel>, n: int) -> nat
    decreases n,
{
    if n <= 0 { 0 } else { content_total(entries, n - 1) + entries[n - 1].content.len() }
}

/// The text the revision digest starts with.
pub open spec fn revision_tag() -> Seq<u8> {
    "weavatrix-search-index-revision-v1".spec_bytes()
}

/// The framed roots the revision covers: each root's length, then its
/// encoded bytes.
pub open spec fn root_frames(roots: Seq<Seq<u8>>, n: int) -> Seq<u8>
    decreases n,
{
    if n <= 0 {
        Seq::empty()
    } else {
        root_frames(roots, n - 1) + le_u64(roots[n - 1].len() as u64) + roots[n - 1]
    }
}

/// The framed entries the revision covers: root, path length, path and
/// content digest of each.
pub open spec fn entry_frames(entries: Seq<EntryModel>, n: int) -> Seq<u8>
    decreases n,
{
    if n <= 0 {
        Seq::empty()
    } else {
        let e = entries[n - 1];
        entry_frames(entries, n - 1) + le_u64(e.root_index as u64) + le_u64(e.path.len() as u64) + e.path + e.hash
    }
}

/// The digest identifying the roots, paths and contents of a snapshot.
pub open spec fn revision_digest(roots: Seq<Seq<u8>>, entries: Seq<EntryModel>) -> Seq<u8> {
    sha256_digest(revision_tag() + root_frames(roots, roots.len() as int) + entry_frames(entries, entries.len() as int))
}

/// The byte strings of a list of encoded paths.
pub open spec fn byte_strings(paths: Seq<Vec<u8>>) -> Seq<Seq<u8>> {
    paths.map_values(|p: Vec<u8>| p@)
}

/// The mathematical form of an index snapshot.
pub struct IndexModel {
    /// Encoded roots in insertion order.
    pub roots: Seq<Seq<u8>>,
    /// Encoded absolute roots used to interpret watcher events.
    pub event_roots: Seq<Seq<u8>>,
    /// Entries in key order.
    pub entries: Seq<EntryModel>,
    /// Raw content bytes of every entry.
    pub content_bytes: u64,
}

/// A snapshot an index can hold on `platform`: between one and the most
/// roots, entries of known roots in strict key order with UTF-8 paths,
/// 32-byte digests, full filters and contents that fit memory, and content
/// bytes that add up. On
/// Windows (platform 1) encoded roots are UTF-16 and so of even length.
pub open spec fn model_wf(m: IndexModel, platform: u8) -> bool {
    &&& 1 <= m.roots.len() <= MAX_ROOTS
    &&& m.event_roots.len() == m.roots.len()
    &&& m.entries.len() <= usize::MAX
    &&& forall|i: int| 0 <= i < m.entries.len() ==> {
        &&& (#[trigger] m.entries[i]).root_index < m.roots.len()
        &&& m.entries[i].hash.len() == 32
        &&& m.entries[i].bloom.len() == BLOOM_WORDS
        &&& valid_utf8(m.entries[i].path)
        &&& m.entries[i].content.len() <= usize::MAX
    }
    &&& strictly_ordered(m.entries)
    &&& content_total(m.entries, m.entries.len() as int) == m.content_bytes
    &&& platform == 1 ==> forall|i: int| 0 <= i < m.roots.len() ==> (#[trigger] m.roots[i]).len() % 2 == 0
    &&& platform == 1 ==> forall|i: int| 0 <= i < m.event_roots.len() ==> (#[trigger] m.event_roots[i]).len() % 2 == 0
}

/// Immutable query snapshot of selected files.
#[derive(Debug)]
pub struct PersistentIndex {
    roots: Vec<Vec<u8>>,
    event_roots: Vec<Vec<u8>>,
    entries: Vec<IndexEntry>,
    revision: String,
    content_bytes: u64,
    options: IndexOptions,
    platform: u8,
}

/// The models of a list of entries.
pub open spec fn entry_models(entries: Seq<IndexEntry>) -> Seq<EntryModel> {
    entries.map_values(|e: IndexEntry| e@)
}

impl View for PersistentIndex {
    type V = IndexModel;

    closed spec fn view(&self) -> IndexModel {
        IndexModel {
            roots: byte_strings(self.roots@),
            event_roots: byte_strings(self.event_roots@),
            entries: entry_models(self.entries@),
            content_bytes: self.content_bytes,
        }
    }
}

impl PersistentIndex {
    #[verifier::type_invariant]
    closed spec fn consistent(self) -> bool {
        &&& model_wf(self@, self.platform)
        &&& self.revision@ == hex_text(revision_digest(self@.roots, self@.entries))
        &&& revision_digest(self@.roots, self@.entries).len() == 32
        &&& self@.entries.len() <= self.options.max_entries
        &&& self@.content_bytes <= self.options.max_content_bytes
    }

    /// The platform the snapshot was made for.
    pub closed spec fn platform_id(&self) -> u8 {
        self.platform
    }

    /// The policy the snapshot was opened or built with.
    pub closed spec fn policy(&self) -> IndexOptions {
        self.options
    }

    /// The revision text of the snapshot.
    pub closed spec fn revision_text(&self) -> Seq<char> {
        self.revision@
    }
}

/// A copy of a list of encoded paths.
pub fn copy_paths(paths: &Vec<Vec<u8>>) -> (copy: Vec<Vec<u8>>)
    ensures
        byte_strings(copy@) == byte_strings(paths@),
{
    let mut copy: Vec<Vec<u8>> = Vec::new();
    let mut i: usize = 0;
    while i < paths.len()
        invariant
            i <= paths@.len(),
            copy@.len() == i,
            forall|k: int| 0 <= k < i ==> (#[trigger] copy@[k])@ == paths@[k]@,
        decreases paths@.len() - i,
    {
        copy.push(vstd::slice::slice_to_vec(paths[i].as_slice()));
        i = i + 1;
    }
    proof {
        assert(byte_strings(copy@) =~= byte_strings(paths@));
    }
    copy
}

/// The revision digest of roots and entries.
pub fn revision_bytes(roots: &Vec<Vec<u8>>, entries: &Vec<IndexEntry>) -> (digest: Vec<u8>)
    ensures
        digest@ == revision_digest(byte_strings(roots@), entry_models(entries@)),
        digest@.len() == 32,
{
    let mut message: Vec<u8> = Vec::new();
    crate::text::push_bytes(&mut message, "weavatrix-search-index-revision-v1".as_bytes());
    let ghost rs = byte_strings(roots@);
    let ghost es = entry_models(entries@);
    let mut i: usize = 0;
    while i < roots.len()
        invariant
            i <= roots@.len(),
            rs == byte_strings(roots@),
            message@ == revision_tag() + root_frames(rs, i as int),
        decreases roots@.len() - i,
    {
        let root = &roots[i];
        crate::index::codec::push_u64(&mut message, root.len() as u64);
        crate::text::push_bytes(&mut message, root.as_slice());
        proof {
            assert(rs[i as int] == root@);
            assert(message@ =~= revision_tag() + root_frames(rs, i + 1));
        }
        i = i + 1;
    }
    let ghost head = message@;
    let mut j: usize = 0;
    while j < entries.len()
        invariant
            j <= entries@.len(),
            es == entry_models(entries@),
            head == revision_tag() + root_frames(rs, rs.len() as int),
            message@ == head + entry_frames(es, j as int),
        decreases entries@.len() - j,
    {
        let entry = &entries[j];
        crate::index::codec::push_u64(&mut message, entry.root_index as u64);
        let path = string_bytes(&entry.path);
        crate::index::codec::push_u64(&mut message, path.len() as u64);
        crate::text::push_bytes(&mut message, path);
        crate::text::push_bytes(&mut message, entry.content_hash.as_slice());
        proof {
            assert(es[j as int] == entry@);
            assert(message@ =~= head + entry_frames(es, j + 1));
        }
        j = j + 1;
    }
    sha256(message.as_slice())
}

impl PersistentIndex {
    /// Assembles a snapshot from parts already checked to be consistent.
    pub(crate) fn from_checked(
        roots: Vec<Vec<u8>>,
        event_roots: Vec<Vec<u8>>,
        entries: Vec<IndexEntry>,
        revision: String,
        content_bytes: u64,
        options: IndexOptions,
        platform: u8,
    ) -> (index: Self)
        requires
            model_wf(IndexModel {
                roots: byte_strings(roots@),
                event_roots: byte_strings(event_roots@),
                entries: entry_models(entries@),
                content_bytes,
            }, platform),
            revision@ == hex_text(revision_digest(byte_strings(roots@), entry_models(entries@))),
            revision_digest(byte_strings(roots@), entry_models(entries@)).len() == 32,
            entries@.len() <= options.max_entries,
            content_bytes <= options.max_content_bytes,
        ensures
            index@ == (IndexModel {
                roots: byte_strings(roots@),
                event_roots: byte_strings(event_roots@),
                entries: entry_models(entries@),
                content_bytes,
            }),
            index.platform_id() == platform,
            index.policy() == options,
            index.revision_text() == revision@,
    {
        PersistentIndex { roots, event_roots, entries, revision, content_bytes, options, platform }
    }

    /// The parts of the snapshot, consuming it.
    pub(crate) fn into_parts(self) -> (parts: (Vec<Vec<u8>>, Vec<Vec<u8>>, Vec<IndexEntry>, IndexOptions, u8))
        ensures
            byte_strings(parts.0@) == self@.roots,
            byte_strings(parts.1@) == self@.event_roots,
            entry_models(parts.2@) == self@.entries,
            parts.3 == self.policy(),
            parts.4 == self.platform_id(),
            model_wf(self@, self.platform_id()),
    {
        proof {
            use_type_invariant(&self);
        }
        let PersistentIndex { roots, event_roots, entries, revision, content_bytes, options, platform } = self;
        (roots, event_roots, entries, options, platform)
    }

    /// Moves the snapshot out, leaving in its place one with the same roots,
    /// policy and platform and no entries.
    pub(crate) fn take_snapshot(&mut self) -> (taken: Self)
        ensures
            taken == *old(self),
    {
        proof {
            use_type_invariant(&*self);
        }
        let roots = copy_paths(&self.roots);
        let event_roots = copy_paths(&self.event_roots);
        let entries: Vec<IndexEntry> = Vec::new();
        let digest = revision_bytes(&roots, &entries);
        let revision = crate::index::codec::hex(digest.as_slice());
        proof {
            assert(entry_models(entries@) =~= Seq::<EntryModel>::empty());
        }
        let mut taken = PersistentIndex {
            roots,
            event_roots,
            entries,
            revision,
            content_bytes: 0,
            options: self.options,
            platform: self.platform,
        };
        std::mem::swap(self, &mut taken);
        taken
    }

    /// Returns immutable index health evidence.
    pub fn status(&self) -> (status: IndexStatus)
        ensures
            byte_strings(status.roots@) == self@.roots,
            status.files == self@.entries.len(),
            status.content_bytes == self@.content_bytes,
            status.revision@ == self.revision_text(),
    {
        IndexStatus {
            roots: copy_paths(&self.roots),
            files: self.entries.len() as u64,
            content_bytes: self.content_bytes,
            revision: self.revision.clone(),
        }
    }

    /// Returns the encoded indexed roots in stable insertion order.
    pub fn roots(&self) -> (roots: &Vec<Vec<u8>>)
        ensures
            byte_strings(roots@) == self@.roots,
    {
        &self.roots
    }

    /// Returns the encoded absolute roots used for watcher events.
    pub fn event_roots(&self) -> (roots: &Vec<Vec<u8>>)
        ensures
            byte_strings(roots@) == self@.event_roots,
    {
        &self.event_roots
    }

    /// Returns the selected-file count.
    pub fn len(&self) -> (count: usize)
        ensures
            count == self@.entries.len(),
            count <= self.policy().max_entries,
            reopen_fits(self@, self.policy()),
    {
        proof {
            use_type_invariant(self);
        }
        self.entries.len()
    }

    /// Returns whether the index contains no selected files.
    pub fn is_empty(&self) -> (empty: bool)
        ensures
            empty == (self@.entries.len() == 0),
    {
        self.entries.len() == 0
    }

    /// Returns the deterministic root/path/content revision.
    pub fn revision(&self) -> (revision: &str)
        ensures
            revision@ == self.revision_text(),
            revision@ == hex_text(revision_digest(self@.roots, self@.entries)),
            revision@.len() == 64,
            forall|i: int| 0 <= i < revision@.len() ==> is_lower_hex(#[trigger] revision@[i]),
    {
        proof {
            use_type_invariant(self);
            lemma_hex_text(revision_digest(self@.roots, self@.entries));
        }
        self.revision.as_str()
    }

    /// Raw content bytes of every entry.
    pub fn content_bytes(&self) -> (bytes: u64)
        ensures
            bytes == self@.content_bytes,
    {
        self.content_bytes
    }

    /// The policy the snapshot was opened or built with.
    pub fn options(&self) -> (options: IndexOptions)
        ensures
            options == self.policy(),
    {
        self.options
    }

    /// The platform the snapshot was made for.
    pub fn platform(&self) -> (platform: u8)
        ensures
            platform == self.platform_id(),
    {
        self.platform
    }

    /// The entries, in key order.
    pub fn entries(&self) -> (entries: &Vec<IndexEntry>)
        ensures
            entry_models(entries@) == self@.entries,
            model_wf(self@, self.platform_id()),
    {
        proof {
            use_type_invariant(self);
        }
        &self.entries
    }
}

} // verus!

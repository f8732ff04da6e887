//! The checksummed on-disk format of a persistent index: what a snapshot
//! serializes to, how bytes parse back, and the law that a saved snapshot
//! reopens unchanged.
use vstd::prelude::*;
use vstd::utf8::valid_utf8;
use crate::index::bloom::BLOOM_WORDS;
use crate::index::codec::{le_u16, le_u32, le_u64, lemma_le_round_trip, sha256_digest, u32_at, u64_at};
use crate::index::model::{content_total, model_wf, revision_digest, strictly_ordered, EntryModel, IndexModel, IndexOptions, MAX_ROOTS};

verus! {

/// Bytes of the fixed header.
pub const HEADER_BYTES: usize = 68;

/// The file magic, `WVXIDX01`.
pub open spec fn magic() -> Seq<u8> {
    seq![87u8, 86u8, 88u8, 73u8, 68u8, 88u8, 48u8, 49u8]
}

/// A length-prefixed path.
pub open spec fn path_field(path: Seq<u8>) -> Seq<u8> {
    le_u32(path.len() as u32) + path
}

/// The first `n` paths, each length-prefixed.
pub open spec fn paths_bytes(paths: Seq<Seq<u8>>, n: int) -> Seq<u8>
    decreases n,
{
    if n <= 0 { Seq::empty() } else { paths_bytes(paths, n - 1) + path_field(paths[n - 1]) }
}

/// The first `n` filter words.
pub open spec fn words_bytes(words: Seq<u64>, n: int) -> Seq<u8>
    decreases n,
{
    if n <= 0 { Seq::empty() } else { words_bytes(words, n - 1) + le_u64(words[n - 1]) }
}

/// The prefilter flag byte.
pub open spec fn flag_byte(prefilterable: bool) -> u8 {
    if prefilterable { 1 } else { 0 }
}

/// One serialized entry: root, path, content length, digest, prefilter
/// flag, filter words and content.
pub open spec fn entry_bytes(e: EntryModel) -> Seq<u8> {
    le_u32(e.root_index as u32) + path_field(e.path) + le_u64(e.content.len() as u64) + e.hash
        + seq![flag_byte(e.prefilterable)] + words_bytes(e.bloom, BLOOM_WORDS as int) + e.content
}

/// The first `n` serialized entries.
pub open spec fn entries_bytes(entries: Seq<EntryModel>, n: int) -> Seq<u8>
    decreases n,
{
    if n <= 0 { Seq::empty() } else { entries_bytes(entries, n - 1) + entry_bytes(entries[n - 1]) }
}

/// The fixed header: magic, format version 1, platform, flags, reserved
/// bits, root and entry counts, content bytes and revision digest.
pub open spec fn header_bytes(m: IndexModel, platform: u8) -> Seq<u8> {
    magic() + le_u32(1) + seq![platform, 0u8] + le_u16(0) + le_u32(m.roots.len() as u32)
        + le_u64(m.entries.len() as u64) + le_u64(m.content_bytes) + revision_digest(m.roots, m.entries)
}

/// Everything the checksum covers.
pub open spec fn body_bytes(m: IndexModel, platform: u8) -> Seq<u8> {
    header_bytes(m, platform) + paths_bytes(m.roots, m.roots.len() as int)
        + paths_bytes(m.event_roots, m.event_roots.len() as int)
        + entries_bytes(m.entries, m.entries.len() as int)
}

/// The whole file: the body and its SHA-256 digest.
pub open spec fn file_bytes(m: IndexModel, platform: u8) -> Seq<u8> {
    body_bytes(m, platform) + sha256_digest(body_bytes(m, platform))
}

/// Why stored bytes are not a usable index.
#[derive(Debug, Clone, Copy, PartialEq, Eq, Structural)]
pub enum IndexFault {
    /// The file is larger than the index byte limit.
    FileSize(u64),
    /// The count of bytes read overflowed.
    CountOverflow,
    /// Reading on would pass the index byte limit.
    TooLarge,
    /// The bytes end before a field does.
    Truncated,
    /// The file does not start with the magic.
    Magic,
    /// The format version is not 1.
    Version(u32),
    /// The file was written for another platform.
    Platform(u8),
    /// The root count is zero or above the most roots.
    RootCount(u32),
    /// More entries than the entry limit.
    EntryCount(u64),
    /// Declared content bytes above the content limit.
    DeclaredContent(u64),
    /// A path longer than the path limit.
    PathLength(u32),
    /// A Windows root of odd byte length.
    OddRoot,
    /// The entry count does not fit in memory.
    EntryCapacity,
    /// An entry names an unknown root.
    RootIndex,
    /// A relative path is not UTF-8.
    PathNotUtf8,
    /// Content bytes overflowed while adding up.
    ContentOverflow,
    /// Content bytes above the content limit.
    ContentLimit,
    /// A prefilter flag other than 0 or 1.
    Flag(u8),
    /// One content does not fit in memory.
    ContentSize,
    /// Bytes follow the checksum.
    Trailing,
    /// The declared content bytes differ from the entries'.
    ContentMismatch,
    /// Entries are not in strict key order.
    Order,
    /// The declared revision differs from the entries'.
    Revision,
    /// The checksum differs from the body's digest.
    Checksum,
}

/// `n` capped at the largest `u64`.
pub open spec fn capped(n: int) -> int {
    if n > u64::MAX { u64::MAX as int } else { n }
}

/// Reading `len` bytes at `pos`: the end position, or why the read fails.
/// The byte count may not overflow, must leave room for the checksum within
/// `limit`, and must be present.
pub open spec fn take(data: Seq<u8>, pos: int, len: int, limit: u64) -> Result<int, IndexFault> {
    if pos + len > u64::MAX {
        Err(IndexFault::CountOverflow)
    } else if capped(pos + len + 32) > limit {
        Err(IndexFault::TooLarge)
    } else if pos + len > data.len() {
        Err(IndexFault::Truncated)
    } else {
        Ok(pos + len)
    }
}

/// The `len` bytes at `pos`.
pub open spec fn field(data: Seq<u8>, pos: int, len: int) -> Seq<u8> {
    data.subrange(pos, pos + len)
}

/// What the header declares.
pub struct Header {
    pub root_count: u32,
    pub entry_count: u64,
    pub content_bytes: u64,
    pub revision: Seq<u8>,
}

/// Parses the fixed header.
pub open spec fn parse_header(data: Seq<u8>, options: IndexOptions, platform: u8) -> Result<Header, IndexFault> {
    let l = options.max_index_bytes;
    if take(data, 0, 8, l) is Err {
        Err(take(data, 0, 8, l)->Err_0)
    } else if field(data, 0, 8) != magic() {
        Err(IndexFault::Magic)
    } else if take(data, 8, 4, l) is Err {
        Err(take(data, 8, 4, l)->Err_0)
    } else if u32_at(field(data, 8, 4)) != 1 {
        Err(IndexFault::Version(u32_at(field(data, 8, 4))))
    } else if take(data, 12, 1, l) is Err {
        Err(take(data, 12, 1, l)->Err_0)
    } else if data[12] != platform {
        Err(IndexFault::Platform(data[12]))
    } else if take(data, 13, 1, l) is Err {
        Err(take(data, 13, 1, l)->Err_0)
    } else if take(data, 14, 2, l) is Err {
        Err(take(data, 14, 2, l)->Err_0)
    } else if take(data, 16, 4, l) is Err {
        Err(take(data, 16, 4, l)->Err_0)
    } else if u32_at(field(data, 16, 4)) == 0 || u32_at(field(data, 16, 4)) > MAX_ROOTS {
        Err(IndexFault::RootCount(u32_at(field(data, 16, 4))))
    } else if take(data, 20, 8, l) is Err {
        Err(take(data, 20, 8, l)->Err_0)
    } else if u64_at(field(data, 20, 8)) > options.max_entries {
        Err(IndexFault::EntryCount(u64_at(field(data, 20, 8))))
    } else if take(data, 28, 8, l) is Err {
        Err(take(data, 28, 8, l)->Err_0)
    } else if u64_at(field(data, 28, 8)) > options.max_content_bytes {
        Err(IndexFault::DeclaredContent(u64_at(field(data, 28, 8))))
    } else if take(data, 36, 32, l) is Err {
        Err(take(data, 36, 32, l)->Err_0)
    } else {
        Ok(Header {
            root_count: u32_at(field(data, 16, 4)),
            entry_count: u64_at(field(data, 20, 8)),
            content_bytes: u64_at(field(data, 28, 8)),
            revision: field(data, 36, 32),
        })
    }
}

/// Parses one length-prefixed path at `pos`.
pub open spec fn parse_path(data: Seq<u8>, pos: int, max_path: usize, limit: u64) -> Result<(Seq<u8>, int), IndexFault> {
    if take(data, pos, 4, limit) is Err {
        Err(take(data, pos, 4, limit)->Err_0)
    } else if u32_at(field(data, pos, 4)) > max_path {
        Err(IndexFault::PathLength(u32_at(field(data, pos, 4))))
    } else if take(data, pos + 4, u32_at(field(data, pos, 4)) as int, limit) is Err {
        Err(take(data, pos + 4, u32_at(field(data, pos, 4)) as int, limit)->Err_0)
    } else {
        let len = u32_at(field(data, pos, 4)) as int;
        Ok((field(data, pos + 4, len), pos + 4 + len))
    }
}

/// Parses `count` roots at `pos`; on Windows a root must have even length.
pub open spec fn parse_roots(data: Seq<u8>, pos: int, count: nat, max_path: usize, limit: u64, platform: u8)
    -> Result<(Seq<Seq<u8>>, int), IndexFault>
    decreases count,
{
    if count == 0 {
        Ok((Seq::empty(), pos))
    } else {
        match parse_path(data, pos, max_path, limit) {
            Err(f) => Err(f),
            Ok((path, next)) => if platform == 1 && path.len() % 2 == 1 {
                Err(IndexFault::OddRoot)
            } else {
                match parse_roots(data, next, (count - 1) as nat, max_path, limit, platform) {
                    Err(f) => Err(f),
                    Ok((rest, end)) => Ok((seq![path] + rest, end)),
                }
            },
        }
    }
}

/// Parses `count` filter words at `pos`.
pub open spec fn parse_words(data: Seq<u8>, pos: int, count: nat, limit: u64) -> Result<(Seq<u64>, int), IndexFault>
    decreases count,
{
    if count == 0 {
        Ok((Seq::empty(), pos))
    } else if take(data, pos, 8, limit) is Err {
        Err(take(data, pos, 8, limit)->Err_0)
    } else {
        match parse_words(data, pos + 8, (count - 1) as nat, limit) {
            Err(f) => Err(f),
            Ok((rest, end)) => Ok((seq![u64_at(field(data, pos, 8))] + rest, end)),
        }
    }
}

/// Parses one entry at `pos`, after `observed` content bytes.
pub open spec fn parse_entry(data: Seq<u8>, pos: int, options: IndexOptions, root_count: int, observed: int)
    -> Result<(EntryModel, int, int), IndexFault>
{
    let l = options.max_index_bytes;
    if take(data, pos, 4, l) is Err {
        Err(take(data, pos, 4, l)->Err_0)
    } else if u32_at(field(data, pos, 4)) >= root_count {
        Err(IndexFault::RootIndex)
    } else {
        match parse_path(data, pos + 4, options.max_path_bytes, l) {
            Err(f) => Err(f),
            Ok((path, p1)) => {
                let content_len = u64_at(field(data, p1, 8)) as int;
                let total = observed + content_len;
                if !valid_utf8(path) {
                    Err(IndexFault::PathNotUtf8)
                } else if take(data, p1, 8, l) is Err {
                    Err(take(data, p1, 8, l)->Err_0)
                } else if total > u64::MAX {
                    Err(IndexFault::ContentOverflow)
                } else if total > options.max_content_bytes {
                    Err(IndexFault::ContentLimit)
                } else if take(data, p1 + 8, 32, l) is Err {
                    Err(take(data, p1 + 8, 32, l)->Err_0)
                } else if take(data, p1 + 40, 1, l) is Err {
                    Err(take(data, p1 + 40, 1, l)->Err_0)
                } else if data[p1 + 40] > 1 {
                    Err(IndexFault::Flag(data[p1 + 40]))
                } else {
                    match parse_words(data, p1 + 41, BLOOM_WORDS as nat, l) {
                        Err(f) => Err(f),
                        Ok((bloom, p2)) => if content_len > usize::MAX {
                            Err(IndexFault::ContentSize)
                        } else if take(data, p2, content_len, l) is Err {
                            Err(take(data, p2, content_len, l)->Err_0)
                        } else {
                            Ok((EntryModel {
                                root_index: u32_at(field(data, pos, 4)) as usize,
                                path,
                                content: field(data, p2, content_len),
                                hash: field(data, p1 + 8, 32),
                                prefilterable: data[p1 + 40] == 1,
                                bloom,
                            }, p2 + content_len, total))
                        },
                    }
                }
            },
        }
    }
}

/// Parses `count` entries at `pos`, after `observed` content bytes.
pub open spec fn parse_entries(data: Seq<u8>, pos: int, count: nat, options: IndexOptions, root_count: int, observed: int)
    -> Result<(Seq<EntryModel>, int, int), IndexFault>
    decreases count,
{
    if count == 0 {
        Ok((Seq::empty(), pos, observed))
    } else {
        match parse_entry(data, pos, options, root_count, observed) {
            Err(f) => Err(f),
            Ok((entry, next, total)) => match parse_entries(data, next, (count - 1) as nat, options, root_count, total) {
                Err(f) => Err(f),
                Ok((rest, end, sum)) => Ok((seq![entry] + rest, end, sum)),
            },
        }
    }
}

/// Parses and validates a whole index file.
pub open spec fn parse_file(data: Seq<u8>, options: IndexOptions, platform: u8) -> Result<IndexModel, IndexFault> {
    let l = options.max_index_bytes;
    if data.len() > l {
        Err(IndexFault::FileSize(data.len() as u64))
    } else {
        match parse_header(data, options, platform) {
            Err(f) => Err(f),
            Ok(h) => match parse_roots(data, HEADER_BYTES as int, h.root_count as nat, options.max_path_bytes, l, platform) {
                Err(f) => Err(f),
                Ok((roots, p1)) => match parse_roots(data, p1, h.root_count as nat, options.max_path_bytes, l, platform) {
                    Err(f) => Err(f),
                    Ok((event_roots, p2)) => if h.entry_count > usize::MAX {
                        Err(IndexFault::EntryCapacity)
                    } else {
                        match parse_entries(data, p2, h.entry_count as nat, options, roots.len() as int, 0) {
                            Err(f) => Err(f),
                            Ok((entries, p3, observed)) => if p3 + 32 > data.len() {
                                Err(IndexFault::Truncated)
                            } else if data.len() > p3 + 32 {
                                Err(IndexFault::Trailing)
                            } else if observed != h.content_bytes {
                                Err(IndexFault::ContentMismatch)
                            } else if !strictly_ordered(entries) {
                                Err(IndexFault::Order)
                            } else if revision_digest(roots, entries) != h.revision {
                                Err(IndexFault::Revision)
                            } else if sha256_digest(data.subrange(0, p3)) != field(data, p3, 32) {
                                Err(IndexFault::Checksum)
                            } else {
                                Ok(IndexModel { roots, event_roots, entries, content_bytes: observed as u64 })
                            }
                        }
                    },
                },
            },
        }
    }
}

/// `piece` is stored in `data` at `pos`.
pub open spec fn holds_at(data: Seq<u8>, pos: int, piece: Seq<u8>) -> bool {
    &&& 0 <= pos
    &&& pos + piece.len() <= data.len()
    &&& data.subrange(pos, pos + piece.len()) == piece
}

proof fn lemma_split(data: Seq<u8>, pos: int, a: Seq<u8>, b: Seq<u8>)
    requires
        holds_at(data, pos, a + b),
    ensures
        holds_at(data, pos, a),
        holds_at(data, pos + a.len(), b),
{
    let whole = data.subrange(pos, pos + a.len() + b.len());
    assert(whole == a + b);
    assert forall|i: int| 0 <= i < a.len() implies data.subrange(pos, pos + a.len())[i] == a[i] by {
        assert(whole[i] == (a + b)[i]);
    }
    assert(data.subrange(pos, pos + a.len()) =~= a);
    assert forall|i: int| 0 <= i < b.len() implies data.subrange(pos + a.len(), pos + a.len() + b.len())[i] == b[i] by {
        assert(whole[a.len() + i] == (a + b)[a.len() + i]);
    }
    assert(data.subrange(pos + a.len(), pos + a.len() + b.len()) =~= b);
}

/// Every path of the list: within the path limit and a `u32` length.
pub open spec fn paths_fit(paths: Seq<Seq<u8>>, max_path: usize) -> bool {
    forall|i: int| 0 <= i < paths.len() ==> (#[trigger] paths[i]).len() <= max_path && paths[i].len() <= u32::MAX
}

/// What saving needs of a snapshot: every root and path within the path
/// limit, and the file within the index byte limit.
pub open spec fn saved_fits(m: IndexModel, options: IndexOptions, platform: u8) -> bool {
    &&& paths_fit(m.roots, options.max_path_bytes)
    &&& paths_fit(m.event_roots, options.max_path_bytes)
    &&& forall|i: int| 0 <= i < m.entries.len() ==> (#[trigger] m.entries[i]).path.len() <= options.max_path_bytes
        && m.entries[i].path.len() <= u32::MAX
    &&& body_bytes(m, platform).len() + 32 <= options.max_index_bytes
}

/// What reopening needs beyond a fitting file: the entry and content
/// limits admit the snapshot.
pub open spec fn reopen_fits(m: IndexModel, options: IndexOptions) -> bool {
    &&& m.entries.len() <= options.max_entries
    &&& m.content_bytes <= options.max_content_bytes
}

/// The digests a file holds are 32 bytes, as every SHA-256 digest is.
pub open spec fn digests_sized(m: IndexModel, platform: u8) -> bool {
    &&& revision_digest(m.roots, m.entries).len() == 32
    &&& sha256_digest(body_bytes(m, platform)).len() == 32
}

proof fn lemma_paths_prefix(data: Seq<u8>, pos: int, paths: Seq<Seq<u8>>, k: int, n: int)
    requires
        0 <= k <= n,
        holds_at(data, pos, paths_bytes(paths, n)),
    ensures
        holds_at(data, pos, paths_bytes(paths, k)),
    decreases n,
{
    if k < n {
        lemma_split(data, pos, paths_bytes(paths, n - 1), path_field(paths[n - 1]));
        lemma_paths_prefix(data, pos, paths, k, n - 1);
    }
}

proof fn lemma_parse_path(data: Seq<u8>, pos: int, path: Seq<u8>, max_path: usize, limit: u64)
    requires
        holds_at(data, pos, path_field(path)),
        path.len() <= max_path,
        path.len() <= u32::MAX,
        pos + 4 + path.len() + 32 <= limit,
    ensures
        parse_path(data, pos, max_path, limit) == Ok::<(Seq<u8>, int), IndexFault>((path, pos + 4 + path.len())),
{
    lemma_split(data, pos, le_u32(path.len() as u32), path);
    lemma_le_round_trip(0, path.len() as u32, 0);
    assert(field(data, pos, 4) == le_u32(path.len() as u32));
}

proof fn lemma_parse_roots(
    data: Seq<u8>,
    pos: int,
    paths: Seq<Seq<u8>>,
    k: int,
    max_path: usize,
    limit: u64,
    platform: u8,
)
    requires
        0 <= k <= paths.len(),
        holds_at(data, pos, paths_bytes(paths, paths.len() as int)),
        pos + paths_bytes(paths, paths.len() as int).len() + 32 <= limit,
        paths_fit(paths, max_path),
        platform == 1 ==> forall|i: int| 0 <= i < paths.len() ==> (#[trigger] paths[i]).len() % 2 == 0,
    ensures
        parse_roots(data, pos + paths_bytes(paths, k).len(), (paths.len() - k) as nat, max_path, limit, platform)
            == Ok::<(Seq<Seq<u8>>, int), IndexFault>((paths.subrange(k, paths.len() as int), pos + paths_bytes(paths, paths.len() as int).len())),
    decreases paths.len() - k,
{
    let n = paths.len() as int;
    if k < n {
        lemma_paths_prefix(data, pos, paths, k + 1, n);
        lemma_split(data, pos, paths_bytes(paths, k), path_field(paths[k]));
        lemma_paths_len_grows(paths, k + 1, n);
        lemma_parse_path(data, pos + paths_bytes(paths, k).len(), paths[k], max_path, limit);
        lemma_parse_roots(data, pos, paths, k + 1, max_path, limit, platform);
        assert(seq![paths[k]] + paths.subrange(k + 1, n) =~= paths.subrange(k, n));
    } else {
        assert(paths.subrange(n, n) =~= Seq::<Seq<u8>>::empty());
    }
}

proof fn lemma_paths_len_grows(paths: Seq<Seq<u8>>, k: int, n: int)
    requires
        0 <= k <= n,
    ensures
        paths_bytes(paths, k).len() <= paths_bytes(paths, n).len(),
    decreases n,
{
    if k < n {
        lemma_paths_len_grows(paths, k, n - 1);
    }
}

proof fn lemma_words_prefix(data: Seq<u8>, pos: int, words: Seq<u64>, k: int, n: int)
    requires
        0 <= k <= n,
        holds_at(data, pos, words_bytes(words, n)),
    ensures
        holds_at(data, pos, words_bytes(words, k)),
        words_bytes(words, k).len() == 8 * k,
    decreases n,
{
    lemma_words_len(words, k);
    if k < n {
        lemma_split(data, pos, words_bytes(words, n - 1), le_u64(words[n - 1]));
        lemma_words_prefix(data, pos, words, k, n - 1);
    }
}

proof fn lemma_words_len(words: Seq<u64>, n: int)
    requires
        n >= 0,
    ensures
        words_bytes(words, n).len() == 8 * n,
    decreases n,
{
    if n > 0 {
        lemma_words_len(words, n - 1);
    }
}

proof fn lemma_parse_words(data: Seq<u8>, pos: int, words: Seq<u64>, k: int, limit: u64)
    requires
        0 <= k <= words.len(),
        holds_at(data, pos, words_bytes(words, words.len() as int)),
        pos + 8 * words.len() + 32 <= limit,
    ensures
        parse_words(data, pos + 8 * k, (words.len() - k) as nat, limit)
            == Ok::<(Seq<u64>, int), IndexFault>((words.subrange(k, words.len() as int), pos + 8 * words.len())),
    decreases words.len() - k,
{
    let n = words.len() as int;
    lemma_words_len(words, n);
    if k < n {
        lemma_words_prefix(data, pos, words, k + 1, n);
        lemma_split(data, pos, words_bytes(words, k), le_u64(words[k]));
        lemma_le_round_trip(0, 0, words[k]);
        assert(field(data, pos + 8 * k, 8) == le_u64(words[k]));
        lemma_parse_words(data, pos, words, k + 1, limit);
        assert(pos + 8 * k + 8 == pos + 8 * (k + 1));
        assert(seq![words[k]] + words.subrange(k + 1, n) =~= words.subrange(k, n));
    } else {
        assert(words.subrange(n, n) =~= Seq::<u64>::empty());
    }
}

/// What one stored entry needs to parse back: a known root, a fitting
/// UTF-8 path, a 32-byte digest, a full filter and content that fits
/// memory.
pub open spec fn entry_fits(e: EntryModel, options: IndexOptions, root_count: int) -> bool {
    &&& e.root_index < root_count
    &&& e.path.len() <= options.max_path_bytes
    &&& e.path.len() <= u32::MAX
    &&& valid_utf8(e.path)
    &&& e.hash.len() == 32
    &&& e.bloom.len() == BLOOM_WORDS
    &&& e.content.len() <= usize::MAX
}

proof fn lemma_parse_entry(data: Seq<u8>, pos: int, e: EntryModel, options: IndexOptions, root_count: int, observed: int)
    requires
        holds_at(data, pos, entry_bytes(e)),
        pos + entry_bytes(e).len() + 32 <= options.max_index_bytes,
        entry_fits(e, options, root_count),
        root_count <= u32::MAX,
        0 <= observed,
        observed + e.content.len() <= options.max_content_bytes,
    ensures
        parse_entry(data, pos, options, root_count, observed)
            == Ok::<(EntryModel, int, int), IndexFault>((e, pos + entry_bytes(e).len(), observed + e.content.len())),
{
    let l = options.max_index_bytes;
    let a = le_u32(e.root_index as u32);
    let b = path_field(e.path);
    let c = le_u64(e.content.len() as u64);
    let d = e.hash;
    let f = seq![flag_byte(e.prefilterable)];
    let w = words_bytes(e.bloom, BLOOM_WORDS as int);
    let g = e.content;
    lemma_words_len(e.bloom, BLOOM_WORDS as int);
    assert(entry_bytes(e) == a + b + c + d + f + w + g);
    lemma_split(data, pos, a + b + c + d + f + w, g);
    lemma_split(data, pos, a + b + c + d + f, w);
    lemma_split(data, pos, a + b + c + d, f);
    lemma_split(data, pos, a + b + c, d);
    lemma_split(data, pos, a + b, c);
    lemma_split(data, pos, a, b);
    let p1 = pos + 8 + e.path.len();
    lemma_le_round_trip(0, e.root_index as u32, e.content.len() as u64);
    assert(field(data, pos, 4) == a);
    assert(u32_at(field(data, pos, 4)) == e.root_index);
    lemma_parse_path(data, pos + 4, e.path, options.max_path_bytes, l);
    assert(field(data, p1, 8) == c);
    assert(field(data, p1 + 8, 32) == d);
    assert(data[p1 + 40] == f[0]);
    lemma_parse_words(data, p1 + 41, e.bloom, 0, l);
    assert(e.bloom.subrange(0, BLOOM_WORDS as int) =~= e.bloom);
    let p2 = p1 + 41 + 8 * BLOOM_WORDS;
    assert(field(data, p2, e.content.len() as int) == g);
    let parsed = EntryModel {
        root_index: u32_at(field(data, pos, 4)) as usize,
        path: e.path,
        content: field(data, p2, e.content.len() as int),
        hash: field(data, p1 + 8, 32),
        prefilterable: data[p1 + 40] == 1,
        bloom: e.bloom,
    };
    assert(parsed == e);
}

proof fn lemma_entries_prefix(data: Seq<u8>, pos: int, entries: Seq<EntryModel>, k: int, n: int)
    requires
        0 <= k <= n,
        holds_at(data, pos, entries_bytes(entries, n)),
    ensures
        holds_at(data, pos, entries_bytes(entries, k)),
        entries_bytes(entries, k).len() <= entries_bytes(entries, n).len(),
    decreases n,
{
    if k < n {
        lemma_split(data, pos, entries_bytes(entries, n - 1), entry_bytes(entries[n - 1]));
        lemma_entries_prefix(data, pos, entries, k, n - 1);
    }
}

proof fn lemma_content_total_grows(entries: Seq<EntryModel>, k: int, n: int)
    requires
        0 <= k <= n,
    ensures
        content_total(entries, k) <= content_total(entries, n),
    decreases n,
{
    if k < n {
        lemma_content_total_grows(entries, k, n - 1);
    }
}

proof fn lemma_parse_entries(data: Seq<u8>, pos: int, entries: Seq<EntryModel>, k: int, options: IndexOptions, root_count: int)
    requires
        0 <= k <= entries.len(),
        holds_at(data, pos, entries_bytes(entries, entries.len() as int)),
        pos + entries_bytes(entries, entries.len() as int).len() + 32 <= options.max_index_bytes,
        forall|i: int| 0 <= i < entries.len() ==> entry_fits(#[trigger] entries[i], options, root_count),
        root_count <= u32::MAX,
        content_total(entries, entries.len() as int) <= options.max_content_bytes,
    ensures
        parse_entries(data, pos + entries_bytes(entries, k).len(), (entries.len() - k) as nat, options, root_count,
            content_total(entries, k) as int)
            == Ok::<(Seq<EntryModel>, int, int), IndexFault>((entries.subrange(k, entries.len() as int),
                pos + entries_bytes(entries, entries.len() as int).len(), content_total(entries, entries.len() as int) as int)),
    decreases entries.len() - k,
{
    let n = entries.len() as int;
    if k < n {
        lemma_entries_prefix(data, pos, entries, k + 1, n);
        lemma_split(data, pos, entries_bytes(entries, k), entry_bytes(entries[k]));
        lemma_content_total_grows(entries, k + 1, n);
        lemma_parse_entry(data, pos + entries_bytes(entries, k).len(), entries[k], options, root_count, content_total(entries, k) as int);
        lemma_parse_entries(data, pos, entries, k + 1, options, root_count);
        assert(seq![entries[k]] + entries.subrange(k + 1, n) =~= entries.subrange(k, n));
    } else {
        assert(entries.subrange(n, n) =~= Seq::<EntryModel>::empty());
    }
}

proof fn lemma_parse_header(data: Seq<u8>, m: IndexModel, platform: u8, options: IndexOptions)
    requires
        holds_at(data, 0, header_bytes(m, platform)),
        revision_digest(m.roots, m.entries).len() == 32,
        HEADER_BYTES + 32 <= options.max_index_bytes,
        1 <= m.roots.len() <= MAX_ROOTS,
        m.entries.len() <= options.max_entries,
        m.content_bytes <= options.max_content_bytes,
    ensures
        header_bytes(m, platform).len() == HEADER_BYTES,
        parse_header(data, options, platform) == Ok::<Header, IndexFault>(Header {
            root_count: m.roots.len() as u32,
            entry_count: m.entries.len() as u64,
            content_bytes: m.content_bytes,
            revision: revision_digest(m.roots, m.entries),
        }),
{
    let h1 = magic();
    let h2 = le_u32(1);
    let h3 = seq![platform, 0u8];
    let h4 = le_u16(0);
    let h5 = le_u32(m.roots.len() as u32);
    let h6 = le_u64(m.entries.len() as u64);
    let h7 = le_u64(m.content_bytes);
    let h8 = revision_digest(m.roots, m.entries);
    assert(header_bytes(m, platform) == h1 + h2 + h3 + h4 + h5 + h6 + h7 + h8);
    lemma_split(data, 0, h1 + h2 + h3 + h4 + h5 + h6 + h7, h8);
    lemma_split(data, 0, h1 + h2 + h3 + h4 + h5 + h6, h7);
    lemma_split(data, 0, h1 + h2 + h3 + h4 + h5, h6);
    lemma_split(data, 0, h1 + h2 + h3 + h4, h5);
    lemma_split(data, 0, h1 + h2 + h3, h4);
    lemma_split(data, 0, h1 + h2, h3);
    lemma_split(data, 0, h1, h2);
    lemma_le_round_trip(0, 1, m.entries.len() as u64);
    lemma_le_round_trip(0, m.roots.len() as u32, m.content_bytes);
    assert(field(data, 0, 8) == h1);
    assert(field(data, 8, 4) == h2);
    assert(data[12] == h3[0]);
    assert(field(data, 16, 4) == h5);
    assert(field(data, 20, 8) == h6);
    assert(field(data, 28, 8) == h7);
    assert(field(data, 36, 32) == h8);
}

/// The body of a snapshot's file is followed by exactly its 32-byte
/// digest, and each part of the body lies where the parser looks for it.
proof fn lemma_file_layout(m: IndexModel, platform: u8)
    requires
        digests_sized(m, platform),
    ensures
        holds_at(file_bytes(m, platform), 0, header_bytes(m, platform)),
        holds_at(file_bytes(m, platform), header_bytes(m, platform).len() as int, paths_bytes(m.roots, m.roots.len() as int)),
        holds_at(file_bytes(m, platform), (header_bytes(m, platform).len() + paths_bytes(m.roots, m.roots.len() as int).len()) as int,
            paths_bytes(m.event_roots, m.event_roots.len() as int)),
        holds_at(file_bytes(m, platform), (header_bytes(m, platform).len() + paths_bytes(m.roots, m.roots.len() as int).len()
            + paths_bytes(m.event_roots, m.event_roots.len() as int).len()) as int, entries_bytes(m.entries, m.entries.len() as int)),
        file_bytes(m, platform).len() == body_bytes(m, platform).len() + 32,
        file_bytes(m, platform).subrange(0, body_bytes(m, platform).len() as int) == body_bytes(m, platform),
        field(file_bytes(m, platform), body_bytes(m, platform).len() as int, 32) == sha256_digest(body_bytes(m, platform)),
{
    let data = file_bytes(m, platform);
    let body = body_bytes(m, platform);
    let header = header_bytes(m, platform);
    let roots = paths_bytes(m.roots, m.roots.len() as int);
    let events = paths_bytes(m.event_roots, m.event_roots.len() as int);
    let stored = entries_bytes(m.entries, m.entries.len() as int);
    assert(data.subrange(0, data.len() as int) =~= data);
    lemma_split(data, 0, body, sha256_digest(body));
    lemma_split(data, 0, header + roots + events, stored);
    lemma_split(data, 0, header + roots, events);
    lemma_split(data, 0, header, roots);
}

proof fn lemma_roots_reopen(m: IndexModel, platform: u8, options: IndexOptions)
    requires
        model_wf(m, platform),
        digests_sized(m, platform),
        saved_fits(m, options, platform),
    ensures
        parse_roots(file_bytes(m, platform), HEADER_BYTES as int, m.roots.len(), options.max_path_bytes,
            options.max_index_bytes, platform) == Ok::<(Seq<Seq<u8>>, int), IndexFault>((m.roots,
            HEADER_BYTES + paths_bytes(m.roots, m.roots.len() as int).len())),
        parse_roots(file_bytes(m, platform), HEADER_BYTES + paths_bytes(m.roots, m.roots.len() as int).len(),
            m.roots.len(), options.max_path_bytes, options.max_index_bytes, platform)
            == Ok::<(Seq<Seq<u8>>, int), IndexFault>((m.event_roots, HEADER_BYTES + paths_bytes(m.roots, m.roots.len() as int).len()
            + paths_bytes(m.event_roots, m.event_roots.len() as int).len())),
{
    let data = file_bytes(m, platform);
    let rc = m.roots.len() as int;
    let l = options.max_index_bytes;
    lemma_file_layout(m, platform);
    lemma_header_len(m, platform);
    lemma_parse_roots(data, HEADER_BYTES as int, m.roots, 0, options.max_path_bytes, l, platform);
    assert(m.roots.subrange(0, rc) =~= m.roots);
    let p1 = HEADER_BYTES + paths_bytes(m.roots, rc).len();
    lemma_parse_roots(data, p1, m.event_roots, 0, options.max_path_bytes, l, platform);
    assert(m.event_roots.subrange(0, rc) =~= m.event_roots);
}

proof fn lemma_header_len(m: IndexModel, platform: u8)
    requires
        revision_digest(m.roots, m.entries).len() == 32,
    ensures
        header_bytes(m, platform).len() == HEADER_BYTES,
{
}

proof fn lemma_entries_reopen(m: IndexModel, platform: u8, options: IndexOptions)
    requires
        model_wf(m, platform),
        digests_sized(m, platform),
        saved_fits(m, options, platform),
        reopen_fits(m, options),
    ensures
        parse_entries(file_bytes(m, platform), HEADER_BYTES + paths_bytes(m.roots, m.roots.len() as int).len()
            + paths_bytes(m.event_roots, m.event_roots.len() as int).len(), m.entries.len(), options, m.roots.len() as int, 0)
            == Ok::<(Seq<EntryModel>, int, int), IndexFault>((m.entries, body_bytes(m, platform).len() as int, m.content_bytes as int)),
{
    let data = file_bytes(m, platform);
    let rc = m.roots.len() as int;
    lemma_file_layout(m, platform);
    lemma_header_len(m, platform);
    let p2 = HEADER_BYTES + paths_bytes(m.roots, rc).len() + paths_bytes(m.event_roots, rc).len();
    assert forall|i: int| 0 <= i < m.entries.len() implies entry_fits(#[trigger] m.entries[i], options, rc) by {
        assert(m.entries[i].root_index < rc);
    }
    lemma_parse_entries(data, p2, m.entries, 0, options, rc);
    assert(m.entries.subrange(0, m.entries.len() as int) =~= m.entries);
}

/// Where each part of a snapshot's file parses to, and what it parses to.
proof fn lemma_parts_reopen(m: IndexModel, platform: u8, options: IndexOptions) -> (ends: (int, int, int))
    requires
        model_wf(m, platform),
        digests_sized(m, platform),
        saved_fits(m, options, platform),
        reopen_fits(m, options),
    ensures
        parse_header(file_bytes(m, platform), options, platform) == Ok::<Header, IndexFault>(Header {
            root_count: m.roots.len() as u32,
            entry_count: m.entries.len() as u64,
            content_bytes: m.content_bytes,
            revision: revision_digest(m.roots, m.entries),
        }),
        parse_roots(file_bytes(m, platform), HEADER_BYTES as int, m.roots.len(), options.max_path_bytes,
            options.max_index_bytes, platform) == Ok::<(Seq<Seq<u8>>, int), IndexFault>((m.roots, ends.0)),
        parse_roots(file_bytes(m, platform), ends.0, m.roots.len(), options.max_path_bytes,
            options.max_index_bytes, platform) == Ok::<(Seq<Seq<u8>>, int), IndexFault>((m.event_roots, ends.1)),
        parse_entries(file_bytes(m, platform), ends.1, m.entries.len(), options, m.roots.len() as int, 0)
            == Ok::<(Seq<EntryModel>, int, int), IndexFault>((m.entries, ends.2, m.content_bytes as int)),
        ends.2 == body_bytes(m, platform).len(),
{
    let data = file_bytes(m, platform);
    let rc = m.roots.len() as int;
    lemma_file_layout(m, platform);
    lemma_header_len(m, platform);
    lemma_parse_header(data, m, platform, options);
    lemma_roots_reopen(m, platform, options);
    lemma_entries_reopen(m, platform, options);
    let p1 = HEADER_BYTES + paths_bytes(m.roots, rc).len();
    let p2 = p1 + paths_bytes(m.event_roots, rc).len();
    (p1 as int, p2 as int, body_bytes(m, platform).len() as int)
}

/// A saved snapshot reopens unchanged: the file bytes of a well-formed
/// snapshot, opened with limits that admit it on the platform it was saved
/// for, parse back to exactly that snapshot.
pub proof fn lemma_saved_index_reopens(m: IndexModel, platform: u8, options: IndexOptions)
    requires
        model_wf(m, platform),
        digests_sized(m, platform),
        saved_fits(m, options, platform),
        reopen_fits(m, options),
    ensures
        parse_file(file_bytes(m, platform), options, platform) == Ok::<IndexModel, IndexFault>(m),
{
    let data = file_bytes(m, platform);
    let ends = lemma_parts_reopen(m, platform, options);
    lemma_file_layout(m, platform);
    assert(data.subrange(0, ends.2) == body_bytes(m, platform));
}

} // verus!

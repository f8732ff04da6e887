//! Opening and saving persistent indexes as checksummed bytes.
use vstd::prelude::*;
use vstd::utf8::valid_utf8;
use crate::error::{Error, Result};
use crate::index::bloom::BLOOM_WORDS;
use crate::index::codec::{le_u32, le_u64, push_u16, push_u32, push_u64, read_u32, read_u64, sha256, hex};
use crate::index::format::{body_bytes, digests_sized, entries_bytes, entry_bytes, field, file_bytes, flag_byte, header_bytes, magic, parse_entries, parse_entry, parse_file, parse_header, parse_path, parse_roots, parse_words, path_field, paths_bytes, paths_fit, saved_fits, take, words_bytes, Header, IndexFault, HEADER_BYTES};
use crate::index::model::{byte_strings, content_total, entry_models, key_before, model_wf, revision_bytes, strictly_ordered, EntryModel, IndexEntry, IndexModel, IndexOptions, PersistentIndex};
use crate::text::{push_bytes, append_decimal, bytes_lt, compare_bytes, decimal_chars, is_utf8, lossy_string, string_bytes};

verus! {

/// The path a fault is reported against: the reader's own label for
/// failures of reading itself, else the index path.
pub open spec fn fault_path(fault: IndexFault, path: Seq<char>) -> Seq<char> {
    match fault {
        IndexFault::CountOverflow | IndexFault::TooLarge | IndexFault::Truncated | IndexFault::PathLength(_)
        | IndexFault::Trailing => "<reader>"@,
        _ => path,
    }
}

/// The detail reported for a fault.
pub open spec fn fault_message(fault: IndexFault, options: IndexOptions, platform: u8) -> Seq<char> {
    match fault {
        IndexFault::FileSize(n) => "file size "@ + decimal_chars(n as nat) + " exceeds "@
            + decimal_chars(options.max_index_bytes as nat) + " bytes"@,
        IndexFault::CountOverflow => "serialized byte count overflow"@,
        IndexFault::TooLarge => "serialized index exceeds "@ + decimal_chars(options.max_index_bytes as nat) + " bytes"@,
        IndexFault::Truncated => "failed to fill whole buffer"@,
        IndexFault::Magic => "invalid magic"@,
        IndexFault::Version(v) => "format version "@ + decimal_chars(v as nat) + " is not supported"@,
        IndexFault::Platform(p) => "index platform "@ + decimal_chars(p as nat) + " does not match runtime "@
            + decimal_chars(platform as nat),
        IndexFault::RootCount(n) => "invalid root count "@ + decimal_chars(n as nat),
        IndexFault::EntryCount(n) => "entry count "@ + decimal_chars(n as nat) + " exceeds "@
            + decimal_chars(options.max_entries as nat),
        IndexFault::DeclaredContent(n) => "content bytes "@ + decimal_chars(n as nat) + " exceed "@
            + decimal_chars(options.max_content_bytes as nat),
        IndexFault::PathLength(n) => "path length "@ + decimal_chars(n as nat) + " exceeds "@
            + decimal_chars(options.max_path_bytes as nat),
        IndexFault::OddRoot => "Windows root path has an odd byte length"@,
        IndexFault::EntryCapacity => "entry count does not fit usize"@,
        IndexFault::RootIndex => "entry root index is out of range"@,
        IndexFault::PathNotUtf8 => "relative path is not UTF-8"@,
        IndexFault::ContentOverflow => "content byte count overflow"@,
        IndexFault::ContentLimit => "content exceeds "@ + decimal_chars(options.max_content_bytes as nat) + " bytes"@,
        IndexFault::Flag(v) => "invalid prefilter flag "@ + decimal_chars(v as nat),
        IndexFault::ContentSize => "file content does not fit usize"@,
        IndexFault::Trailing => "unexpected trailing bytes"@,
        IndexFault::ContentMismatch => "declared content byte count does not match entries"@,
        IndexFault::Order => "entries are not strictly ordered"@,
        IndexFault::Revision => "revision evidence does not match entries"@,
        IndexFault::Checksum => "checksum mismatch"@,
    }
}

/// `error` reports `fault` for the index at `path`: a read past the end
/// as an I/O failure, anything else as an index failure.
pub open spec fn fault_reported(error: Error, fault: IndexFault, path: Seq<char>, options: IndexOptions, platform: u8) -> bool {
    if fault is Truncated {
        error matches Error::Io { path: p, message: m } && p@ == fault_path(fault, path)
            && m@ == fault_message(fault, options, platform)
    } else {
        error matches Error::Index { path: p, message: m } && p@ == fault_path(fault, path)
            && m@ == fault_message(fault, options, platform)
    }
}

fn text_with_number(head: &str, n: u64, tail: &str) -> (text: String)
    ensures
        text@ == head@ + decimal_chars(n as nat) + tail@,
{
    let mut text = String::from_str(head);
    append_decimal(&mut text, n);
    text.append(tail);
    text
}

fn text_with_numbers(head: &str, n: u64, middle: &str, m: u64, tail: &str) -> (text: String)
    ensures
        text@ == head@ + decimal_chars(n as nat) + middle@ + decimal_chars(m as nat) + tail@,
{
    let mut text = String::from_str(head);
    append_decimal(&mut text, n);
    text.append(middle);
    append_decimal(&mut text, m);
    text.append(tail);
    text
}

/// The error that reports `fault` for the index at `path`.
pub fn fault_error(fault: IndexFault, path: &str, options: &IndexOptions, platform: u8) -> (error: Error)
    ensures
        fault_reported(error, fault, path@, *options, platform),
{
    let message = match fault {
        IndexFault::FileSize(n) => text_with_numbers("file size ", n, " exceeds ", options.max_index_bytes, " bytes"),
        IndexFault::CountOverflow => String::from_str("serialized byte count overflow"),
        IndexFault::TooLarge => text_with_number("serialized index exceeds ", options.max_index_bytes, " bytes"),
        IndexFault::Truncated => String::from_str("failed to fill whole buffer"),
        IndexFault::Magic => String::from_str("invalid magic"),
        IndexFault::Version(v) => text_with_number("format version ", v as u64, " is not supported"),
        IndexFault::Platform(p) => text_with_numbers("index platform ", p as u64, " does not match runtime ", platform as u64, ""),
        IndexFault::RootCount(n) => text_with_number("invalid root count ", n as u64, ""),
        IndexFault::EntryCount(n) => text_with_numbers("entry count ", n, " exceeds ", options.max_entries, ""),
        IndexFault::DeclaredContent(n) => text_with_numbers("content bytes ", n, " exceed ", options.max_content_bytes, ""),
        IndexFault::PathLength(n) => text_with_numbers("path length ", n as u64, " exceeds ", options.max_path_bytes as u64, ""),
        IndexFault::OddRoot => String::from_str("Windows root path has an odd byte length"),
        IndexFault::EntryCapacity => String::from_str("entry count does not fit usize"),
        IndexFault::RootIndex => String::from_str("entry root index is out of range"),
        IndexFault::PathNotUtf8 => String::from_str("relative path is not UTF-8"),
        IndexFault::ContentOverflow => String::from_str("content byte count overflow"),
        IndexFault::ContentLimit => text_with_number("content exceeds ", options.max_content_bytes, " bytes"),
        IndexFault::Flag(v) => text_with_number("invalid prefilter flag ", v as u64, ""),
        IndexFault::ContentSize => String::from_str("file content does not fit usize"),
        IndexFault::Trailing => String::from_str("unexpected trailing bytes"),
        IndexFault::ContentMismatch => String::from_str("declared content byte count does not match entries"),
        IndexFault::Order => String::from_str("entries are not strictly ordered"),
        IndexFault::Revision => String::from_str("revision evidence does not match entries"),
        IndexFault::Checksum => String::from_str("checksum mismatch"),
    };
    proof {
        reveal_strlit("");
        assert(""@ =~= Seq::<char>::empty());
        assert(message@ =~= fault_message(fault, *options, platform));
    }
    let reader = match fault {
        IndexFault::CountOverflow | IndexFault::TooLarge | IndexFault::Truncated | IndexFault::PathLength(_)
        | IndexFault::Trailing => true,
        _ => false,
    };
    let at = if reader { String::from_str("<reader>") } else { String::from_str(path) };
    match fault {
        IndexFault::Truncated => Error::Io { path: at, message },
        _ => Error::Index { path: at, message },
    }
}

/// Reads `len` bytes at `pos`: the end position, or the fault.
fn take_bytes(data: &[u8], pos: usize, len: u64, limit: u64) -> (result: core::result::Result<usize, IndexFault>)
    requires
        pos <= data@.len(),
    ensures
        data@.len() <= usize::MAX,
        match take(data@, pos as int, len as int, limit) {
            Ok(end) => result == Ok::<usize, IndexFault>(end as usize) && end <= data@.len(),
            Err(fault) => result == Err::<usize, IndexFault>(fault),
        },
{
    let total = data.len();
    let start = pos as u64;
    if len > u64::MAX - start {
        return Err(IndexFault::CountOverflow);
    }
    let read = start + len;
    let capped = if read > u64::MAX - 32 { u64::MAX } else { read + 32 };
    if capped > limit {
        return Err(IndexFault::TooLarge);
    }
    if read > data.len() as u64 {
        return Err(IndexFault::Truncated);
    }
    Ok(read as usize)
}

/// The fields a header declares.
pub struct HeaderFields {
    pub root_count: u32,
    pub entry_count: u64,
    pub content_bytes: u64,
    pub revision: Vec<u8>,
}

/// Whether parsed header fields are the header `h`.
pub open spec fn header_is(fields: HeaderFields, h: Header) -> bool {
    &&& fields.root_count == h.root_count
    &&& fields.entry_count == h.entry_count
    &&& fields.content_bytes == h.content_bytes
    &&& fields.revision@ == h.revision
}

fn has_magic(data: &[u8]) -> (found: bool)
    requires
        8 <= data@.len(),
    ensures
        found == (field(data@, 0, 8) == magic()),
{
    let magic_bytes: [u8; 8] = [87u8, 86u8, 88u8, 73u8, 68u8, 88u8, 48u8, 49u8];
    proof {
        assert(magic_bytes@ =~= magic());
    }
    let mut k: usize = 0;
    while k < 8
        invariant
            k <= 8,
            8 <= data@.len(),
            magic_bytes@ == magic(),
            forall|j: int| 0 <= j < k ==> data@[j] == magic()[j],
        decreases 8 - k,
    {
        if data[k] != magic_bytes[k] {
            proof {
                assert(field(data@, 0, 8)[k as int] == data@[k as int]);
            }
            return false;
        }
        k = k + 1;
    }
    proof {
        assert(field(data@, 0, 8) =~= magic());
    }
    true
}

fn read_header(data: &[u8], options: &IndexOptions, platform: u8) -> (result: core::result::Result<HeaderFields, IndexFault>)
    ensures
        match parse_header(data@, *options, platform) {
            Ok(h) => result matches Ok(fields) && header_is(fields, h),
            Err(fault) => result matches Err(f) && f == fault,
        },
{
    let l = options.max_index_bytes;
    if let Err(f) = take_bytes(data, 0, 8, l) {
        return Err(f);
    }
    if !has_magic(data) {
        return Err(IndexFault::Magic);
    }
    if let Err(f) = take_bytes(data, 8, 4, l) {
        return Err(f);
    }
    let version = read_u32(data, 8);
    if version != 1 {
        return Err(IndexFault::Version(version));
    }
    if let Err(f) = take_bytes(data, 12, 1, l) {
        return Err(f);
    }
    if data[12] != platform {
        return Err(IndexFault::Platform(data[12]));
    }
    if let Err(f) = take_bytes(data, 13, 1, l) {
        return Err(f);
    }
    if let Err(f) = take_bytes(data, 14, 2, l) {
        return Err(f);
    }
    if let Err(f) = take_bytes(data, 16, 4, l) {
        return Err(f);
    }
    let root_count = read_u32(data, 16);
    if root_count == 0 || root_count > 4096 {
        return Err(IndexFault::RootCount(root_count));
    }
    if let Err(f) = take_bytes(data, 20, 8, l) {
        return Err(f);
    }
    let entry_count = read_u64(data, 20);
    if entry_count > options.max_entries {
        return Err(IndexFault::EntryCount(entry_count));
    }
    if let Err(f) = take_bytes(data, 28, 8, l) {
        return Err(f);
    }
    let content_bytes = read_u64(data, 28);
    if content_bytes > options.max_content_bytes {
        return Err(IndexFault::DeclaredContent(content_bytes));
    }
    if let Err(f) = take_bytes(data, 36, 32, l) {
        return Err(f);
    }
    let revision = vstd::slice::slice_to_vec(vstd::slice::slice_subrange(data, 36, 68));
    Ok(HeaderFields { root_count, entry_count, content_bytes, revision })
}

fn read_path(data: &[u8], pos: usize, max_path: usize, limit: u64) -> (result: core::result::Result<(Vec<u8>, usize), IndexFault>)
    requires
        pos <= data@.len(),
    ensures
        match parse_path(data@, pos as int, max_path, limit) {
            Ok((path, end)) => result matches Ok((bytes, next)) && bytes@ == path && next == end && next <= data@.len(),
            Err(fault) => result matches Err(f) && f == fault,
        },
{
    if let Err(f) = take_bytes(data, pos, 4, limit) {
        return Err(f);
    }
    let start = pos + 4;
    let len = read_u32(data, pos);
    if len as u64 > max_path as u64 {
        return Err(IndexFault::PathLength(len));
    }
    if let Err(f) = take_bytes(data, start, len as u64, limit) {
        return Err(f);
    }
    let end = start + len as usize;
    let bytes = vstd::slice::slice_to_vec(vstd::slice::slice_subrange(data, start, end));
    Ok((bytes, end))
}

/// `done` followed by what parsing the rest of the roots gave.
pub open spec fn after_roots(done: Seq<Seq<u8>>, rest: core::result::Result<(Seq<Seq<u8>>, int), IndexFault>) -> core::result::Result<(Seq<Seq<u8>>, int), IndexFault> {
    match rest {
        Ok((more, end)) => Ok((done + more, end)),
        Err(f) => Err(f),
    }
}

fn read_roots(data: &[u8], pos: usize, count: u32, max_path: usize, limit: u64, platform: u8)
    -> (result: core::result::Result<(Vec<Vec<u8>>, usize), IndexFault>)
    requires
        pos <= data@.len(),
    ensures
        match parse_roots(data@, pos as int, count as nat, max_path, limit, platform) {
            Ok((roots, end)) => result matches Ok((found, next)) && byte_strings(found@) == roots && next == end
                && next <= data@.len() && found@.len() == count
                && (platform == 1 ==> forall|k: int| 0 <= k < found@.len() ==> (#[trigger] found@[k])@.len() % 2 == 0),
            Err(fault) => result matches Err(f) && f == fault,
        },
{
    let mut found: Vec<Vec<u8>> = Vec::new();
    let mut at = pos;
    let mut i: u32 = 0;
    proof {
        assert(byte_strings(found@) =~= Seq::<Seq<u8>>::empty());
        assert(after_roots(Seq::empty(), parse_roots(data@, pos as int, count as nat, max_path, limit, platform))
            =~= parse_roots(data@, pos as int, count as nat, max_path, limit, platform)) by {
            match parse_roots(data@, pos as int, count as nat, max_path, limit, platform) {
                Ok((r, e)) => { assert(Seq::<Seq<u8>>::empty() + r =~= r); }
                Err(_) => {}
            }
        }
    }
    while i < count
        invariant
            i <= count,
            at <= data@.len(),
            parse_roots(data@, pos as int, count as nat, max_path, limit, platform)
                == after_roots(byte_strings(found@), parse_roots(data@, at as int, (count - i) as nat, max_path, limit, platform)),
            found@.len() == i,
            platform == 1 ==> forall|k: int| 0 <= k < found@.len() ==> (#[trigger] found@[k])@.len() % 2 == 0,
        decreases count - i,
    {
        let ghost rest = parse_roots(data@, at as int, (count - i) as nat, max_path, limit, platform);
        let (path, next) = match read_path(data, at, max_path, limit) {
            Ok(read) => read,
            Err(f) => {
                return Err(f);
            }
        };
        if platform == 1 && path.len() % 2 == 1 {
            return Err(IndexFault::OddRoot);
        }
        let ghost done = byte_strings(found@);
        found.push(path);
        proof {
            let later = parse_roots(data@, next as int, (count - i - 1) as nat, max_path, limit, platform);
            assert(byte_strings(found@) =~= done.push(path@));
            match later {
                Ok((more, e)) => {
                    assert(done + (seq![path@] + more) =~= done.push(path@) + more);
                }
                Err(_) => {}
            }
        }
        at = next;
        i = i + 1;
    }
    proof {
        let last = parse_roots(data@, at as int, 0, max_path, limit, platform);
        assert(byte_strings(found@) + Seq::<Seq<u8>>::empty() =~= byte_strings(found@));
    }
    Ok((found, at))
}

/// `done` followed by what parsing the rest of the words gave.
pub open spec fn after_words(done: Seq<u64>, rest: core::result::Result<(Seq<u64>, int), IndexFault>) -> core::result::Result<(Seq<u64>, int), IndexFault> {
    match rest {
        Ok((more, end)) => Ok((done + more, end)),
        Err(f) => Err(f),
    }
}

fn read_words(data: &[u8], pos: usize, limit: u64) -> (result: core::result::Result<(Vec<u64>, usize), IndexFault>)
    requires
        pos <= data@.len(),
    ensures
        match parse_words(data@, pos as int, BLOOM_WORDS as nat, limit) {
            Ok((words, end)) => result matches Ok((found, next)) && found@ == words && next == end
                && next <= data@.len() && found@.len() == BLOOM_WORDS,
            Err(fault) => result matches Err(f) && f == fault,
        },
{
    let mut found: Vec<u64> = Vec::new();
    let mut at = pos;
    let mut i: usize = 0;
    proof {
        match parse_words(data@, pos as int, BLOOM_WORDS as nat, limit) {
            Ok((r, e)) => { assert(Seq::<u64>::empty() + r =~= r); }
            Err(_) => {}
        }
    }
    while i < BLOOM_WORDS
        invariant
            i <= BLOOM_WORDS,
            at <= data@.len(),
            found@.len() == i,
            parse_words(data@, pos as int, BLOOM_WORDS as nat, limit)
                == after_words(found@, parse_words(data@, at as int, (BLOOM_WORDS - i) as nat, limit)),
        decreases BLOOM_WORDS - i,
    {
        if let Err(f) = take_bytes(data, at, 8, limit) {
            return Err(f);
        }
        let word = read_u64(data, at);
        let ghost done = found@;
        found.push(word);
        proof {
            let later = parse_words(data@, at + 8, (BLOOM_WORDS - i - 1) as nat, limit);
            match later {
                Ok((more, e)) => {
                    assert(done + (seq![word] + more) =~= done.push(word) + more);
                }
                Err(_) => {}
            }
        }
        at = at + 8;
        i = i + 1;
    }
    proof {
        assert(found@ + Seq::<u64>::empty() =~= found@);
    }
    Ok((found, at))
}

/// What one parsed entry is known to satisfy.
pub open spec fn entry_checked(e: EntryModel, root_count: int) -> bool {
    &&& e.root_index < root_count
    &&& e.hash.len() == 32
    &&& e.bloom.len() == BLOOM_WORDS
    &&& valid_utf8(e.path)
    &&& e.content.len() <= usize::MAX
}

fn read_entry(data: &[u8], pos: usize, options: &IndexOptions, root_count: usize, observed: u64)
    -> (result: core::result::Result<(IndexEntry, usize, u64), IndexFault>)
    requires
        pos <= data@.len(),
    ensures
        match parse_entry(data@, pos as int, *options, root_count as int, observed as int) {
            Ok((e, end, total)) => result matches Ok((entry, next, sum)) && entry@ == e && next == end && sum == total
                && next <= data@.len() && entry_checked(entry@, root_count as int)
                && sum == observed + entry@.content.len(),
            Err(fault) => result matches Err(f) && f == fault,
        },
{
    let l = options.max_index_bytes;
    if let Err(f) = take_bytes(data, pos, 4, l) {
        return Err(f);
    }
    let root = read_u32(data, pos);
    if root as usize >= root_count {
        return Err(IndexFault::RootIndex);
    }
    let (path_bytes, p1) = match read_path(data, pos + 4, options.max_path_bytes, l) {
        Ok(read) => read,
        Err(f) => {
            return Err(f);
        }
    };
    if !is_utf8(path_bytes.as_slice()) {
        return Err(IndexFault::PathNotUtf8);
    }
    if let Err(f) = take_bytes(data, p1, 8, l) {
        return Err(f);
    }
    let content_len = read_u64(data, p1);
    if content_len > u64::MAX - observed {
        return Err(IndexFault::ContentOverflow);
    }
    let total = observed + content_len;
    if total > options.max_content_bytes {
        return Err(IndexFault::ContentLimit);
    }
    if let Err(f) = take_bytes(data, p1 + 8, 32, l) {
        return Err(f);
    }
    if let Err(f) = take_bytes(data, p1 + 40, 1, l) {
        return Err(f);
    }
    let flag = data[p1 + 40];
    if flag > 1 {
        return Err(IndexFault::Flag(flag));
    }
    let (bloom, p2) = match read_words(data, p1 + 41, l) {
        Ok(read) => read,
        Err(f) => {
            return Err(f);
        }
    };
    if content_len > usize::MAX as u64 {
        return Err(IndexFault::ContentSize);
    }
    if let Err(f) = take_bytes(data, p2, content_len, l) {
        return Err(f);
    }
    let end = p2 + content_len as usize;
    let content = vstd::slice::slice_to_vec(vstd::slice::slice_subrange(data, p2, end));
    let content_hash = vstd::slice::slice_to_vec(vstd::slice::slice_subrange(data, p1 + 8, p1 + 40));
    let path = lossy_string(path_bytes.as_slice());
    proof {
        vstd::utf8::decode_utf8_encode_utf8(path_bytes@);
    }
    let entry = IndexEntry { root_index: root as usize, path, content, content_hash, prefilterable: flag == 1, bloom };
    Ok((entry, end, total))
}

/// `done` followed by what parsing the rest of the entries gave.
pub open spec fn after_entries(done: Seq<EntryModel>, rest: core::result::Result<(Seq<EntryModel>, int, int), IndexFault>)
    -> core::result::Result<(Seq<EntryModel>, int, int), IndexFault>
{
    match rest {
        Ok((more, end, total)) => Ok((done + more, end, total)),
        Err(f) => Err(f),
    }
}

fn read_entries(data: &[u8], pos: usize, count: u64, options: &IndexOptions, root_count: usize)
    -> (result: core::result::Result<(Vec<IndexEntry>, usize, u64), IndexFault>)
    requires
        pos <= data@.len(),
    ensures
        match parse_entries(data@, pos as int, count as nat, *options, root_count as int, 0) {
            Ok((entries, end, total)) => result matches Ok((found, next, sum)) && entry_models(found@) == entries
                && next == end && sum == total && next <= data@.len()
                && sum == content_total(entries, entries.len() as int)
                && found@.len() == count
                && forall|k: int| 0 <= k < entries.len() ==> entry_checked(#[trigger] entries[k], root_count as int),
            Err(fault) => result matches Err(f) && f == fault,
        },
{
    let mut found: Vec<IndexEntry> = Vec::new();
    let mut at = pos;
    let mut observed: u64 = 0;
    let mut i: u64 = 0;
    proof {
        assert(entry_models(found@) =~= Seq::<EntryModel>::empty());
        match parse_entries(data@, pos as int, count as nat, *options, root_count as int, 0) {
            Ok((r, e, t)) => { assert(Seq::<EntryModel>::empty() + r =~= r); }
            Err(_) => {}
        }
    }
    while i < count
        invariant
            i <= count,
            at <= data@.len(),
            parse_entries(data@, pos as int, count as nat, *options, root_count as int, 0)
                == after_entries(entry_models(found@),
                    parse_entries(data@, at as int, (count - i) as nat, *options, root_count as int, observed as int)),
            observed == content_total(entry_models(found@), found@.len() as int),
            found@.len() == i,
            forall|k: int| 0 <= k < found@.len() ==> entry_checked(#[trigger] entry_models(found@)[k], root_count as int),
        decreases count - i,
    {
        let (entry, next, total) = match read_entry(data, at, options, root_count, observed) {
            Ok(read) => read,
            Err(f) => {
                return Err(f);
            }
        };
        let ghost done = entry_models(found@);
        let ghost model = entry@;
        found.push(entry);
        proof {
            assert(model.content.len() == total - observed);
            assert(entry_models(found@) =~= done.push(model));
            assert(entry_models(found@).drop_last() =~= done);
            assert(content_total(done, done.len() as int) == content_total(entry_models(found@), done.len() as int)) by {
                lemma_content_total_prefix(done, entry_models(found@), done.len() as int);
            }
            let later = parse_entries(data@, next as int, (count - i - 1) as nat, *options, root_count as int, total as int);
            match later {
                Ok((more, e, t)) => {
                    assert(done + (seq![model] + more) =~= done.push(model) + more);
                }
                Err(_) => {}
            }
        }
        at = next;
        observed = total;
        i = i + 1;
    }
    proof {
        assert(entry_models(found@) + Seq::<EntryModel>::empty() =~= entry_models(found@));
    }
    Ok((found, at, observed))
}

pub proof fn lemma_content_total_prefix(a: Seq<EntryModel>, b: Seq<EntryModel>, n: int)
    requires
        0 <= n <= a.len(),
        n <= b.len(),
        forall|i: int| 0 <= i < n ==> a[i] == b[i],
    ensures
        content_total(a, n) == content_total(b, n),
    decreases n,
{
    if n > 0 {
        lemma_content_total_prefix(a, b, n - 1);
    }
}


/// Whether two byte strings are equal.
pub fn same_bytes(a: &[u8], b: &[u8]) -> (same: bool)
    ensures
        same == (a@ == b@),
{
    compare_bytes(a, b) == 0
}

/// Whether entry `a` sorts strictly before entry `b`.
pub fn entry_before(a: &IndexEntry, b: &IndexEntry) -> (before: bool)
    ensures
        before == key_before(a@, b@),
{
    if a.root_index != b.root_index {
        return a.root_index < b.root_index;
    }
    let order = compare_bytes(string_bytes(&a.path), string_bytes(&b.path));
    proof {
        crate::text::lemma_bytes_lt_irreflexive(a@.path);
    }
    order == -1
}

/// Whether every entry sorts strictly before the next.
pub fn entries_in_order(entries: &Vec<IndexEntry>) -> (ordered: bool)
    ensures
        ordered == strictly_ordered(entry_models(entries@)),
{
    let ghost models = entry_models(entries@);
    let mut i: usize = 1;
    while i < entries.len()
        invariant
            1 <= i,
            models == entry_models(entries@),
            forall|k: int| 0 <= k < i - 1 && k < models.len() - 1 ==> key_before(#[trigger] models[k], models[k + 1]),
        decreases entries@.len() - i,
    {
        if !entry_before(&entries[i - 1], &entries[i]) {
            proof {
                assert(models[i - 1] == entries@[i - 1]@);
                assert(!key_before(models[i - 1], models[(i - 1) + 1]));
            }
            return false;
        }
        i = i + 1;
    }
    true
}

fn read_index(bytes: &[u8], options: &IndexOptions, platform: u8) -> (result: core::result::Result<PersistentIndex, IndexFault>)
    ensures
        match parse_file(bytes@, *options, platform) {
            Ok(m) => result matches Ok(index) && index@ == m && index.platform_id() == platform && index.policy() == *options,
            Err(fault) => result matches Err(f) && f == fault,
        },
{
    let l = options.max_index_bytes;
    if bytes.len() as u64 > l {
        return Err(IndexFault::FileSize(bytes.len() as u64));
    }
    let header = match read_header(bytes, options, platform) {
        Ok(header) => header,
        Err(f) => {
            return Err(f);
        }
    };
    let (roots, p1) = match read_roots(bytes, HEADER_BYTES, header.root_count, options.max_path_bytes, l, platform) {
        Ok(read) => read,
        Err(f) => {
            return Err(f);
        }
    };
    let (event_roots, p2) = match read_roots(bytes, p1, header.root_count, options.max_path_bytes, l, platform) {
        Ok(read) => read,
        Err(f) => {
            return Err(f);
        }
    };
    if header.entry_count > usize::MAX as u64 {
        return Err(IndexFault::EntryCapacity);
    }
    let (entries, p3, observed) = match read_entries(bytes, p2, header.entry_count, options, roots.len()) {
        Ok(read) => read,
        Err(f) => {
            return Err(f);
        }
    };
    if bytes.len() - p3 < 32 {
        return Err(IndexFault::Truncated);
    }
    if bytes.len() - p3 > 32 {
        return Err(IndexFault::Trailing);
    }
    if observed != header.content_bytes {
        return Err(IndexFault::ContentMismatch);
    }
    if !entries_in_order(&entries) {
        return Err(IndexFault::Order);
    }
    let digest = revision_bytes(&roots, &entries);
    if !same_bytes(digest.as_slice(), header.revision.as_slice()) {
        return Err(IndexFault::Revision);
    }
    let checksum = sha256(vstd::slice::slice_subrange(bytes, 0, p3));
    if !same_bytes(checksum.as_slice(), vstd::slice::slice_subrange(bytes, p3, p3 + 32)) {
        return Err(IndexFault::Checksum);
    }
    let revision = hex(digest.as_slice());
    proof {
        let m = IndexModel {
            roots: byte_strings(roots@),
            event_roots: byte_strings(event_roots@),
            entries: entry_models(entries@),
            content_bytes: observed,
        };
        assert forall|i: int| 0 <= i < m.entries.len() implies {
            &&& (#[trigger] m.entries[i]).root_index < m.roots.len()
            &&& m.entries[i].hash.len() == 32
            &&& m.entries[i].bloom.len() == BLOOM_WORDS
            &&& valid_utf8(m.entries[i].path)
            &&& m.entries[i].content.len() <= usize::MAX
        } by {
            assert(entry_checked(m.entries[i], roots@.len() as int));
        }
        if platform == 1 {
            assert forall|i: int| 0 <= i < m.roots.len() implies (#[trigger] m.roots[i]).len() % 2 == 0 by {
                assert(m.roots[i] == roots@[i]@);
            }
            assert forall|i: int| 0 <= i < m.event_roots.len() implies (#[trigger] m.event_roots[i]).len() % 2 == 0 by {
                assert(m.event_roots[i] == event_roots@[i]@);
            }
        }
        assert(model_wf(m, platform));
    }
    Ok(PersistentIndex::from_checked(roots, event_roots, entries, revision, observed, *options, platform))
}

impl PersistentIndex {
    /// Opens and fully validates a persistent index from its bytes, as read
    /// from `path`, for the runtime `platform`.
    pub fn open(bytes: &[u8], path: &str, options: IndexOptions, platform: u8) -> (result: Result<PersistentIndex>)
        ensures
            match options.complaint() {
                Some(message) => result matches Err(Error::Index { path: p, message: m }) && p@ == path@ && m@ == message,
                None => match parse_file(bytes@, options, platform) {
                    Ok(m) => result matches Ok(index) && index@ == m && index.platform_id() == platform
                        && index.policy() == options,
                    Err(fault) => result matches Err(error) && fault_reported(error, fault, path@, options, platform),
                },
            },
    {
        if let Err(error) = options.validate(path) {
            return Err(error);
        }
        match read_index(bytes, &options, platform) {
            Ok(index) => Ok(index),
            Err(fault) => Err(fault_error(fault, path, &options, platform)),
        }
    }
}

/// The failure of writing a path longer than the limit, or than a `u32`
/// length prefix holds.
fn long_path_error(len: usize, max: usize) -> (error: Error)
    ensures
        error matches Error::Index { path: p, .. } && p@ == "<writer>"@,
{
    let message = if len > max {
        text_with_numbers("path length ", len as u64, " exceeds ", max as u64, "")
    } else {
        String::from_str("path length exceeds u32")
    };
    Error::Index { path: String::from_str("<writer>"), message }
}

fn check_paths(paths: &Vec<Vec<u8>>, max: usize) -> (result: Result<()>)
    ensures
        result is Ok <==> paths_fit(byte_strings(paths@), max),
        result matches Err(Error::Index { path: p, .. }) && p@ == "<writer>"@ || result is Ok,
{
    let ghost all = byte_strings(paths@);
    let mut i: usize = 0;
    while i < paths.len()
        invariant
            i <= paths@.len(),
            all == byte_strings(paths@),
            forall|k: int| 0 <= k < i ==> (#[trigger] all[k]).len() <= max && all[k].len() <= u32::MAX,
        decreases paths@.len() - i,
    {
        let len = paths[i].len();
        if len > max || len as u64 > u32::MAX as u64 {
            proof {
                assert(all[i as int] == paths@[i as int]@);
            }
            return Err(long_path_error(len, max));
        }
        i = i + 1;
    }
    Ok(())
}

fn check_entry_paths(entries: &Vec<IndexEntry>, max: usize) -> (result: Result<()>)
    ensures
        result is Ok <==> forall|i: int| 0 <= i < entries@.len() ==> (#[trigger] entry_models(entries@)[i]).path.len() <= max
            && entry_models(entries@)[i].path.len() <= u32::MAX,
        result matches Err(Error::Index { path: p, .. }) && p@ == "<writer>"@ || result is Ok,
{
    let ghost all = entry_models(entries@);
    let mut i: usize = 0;
    while i < entries.len()
        invariant
            i <= entries@.len(),
            all == entry_models(entries@),
            forall|k: int| 0 <= k < i ==> (#[trigger] all[k]).path.len() <= max && all[k].path.len() <= u32::MAX,
        decreases entries@.len() - i,
    {
        let len = string_bytes(&entries[i].path).len();
        if len > max || len as u64 > u32::MAX as u64 {
            proof {
                assert(all[i as int] == entries@[i as int]@);
            }
            return Err(long_path_error(len, max));
        }
        i = i + 1;
    }
    Ok(())
}

fn push_paths(out: &mut Vec<u8>, paths: &Vec<Vec<u8>>)
    ensures
        final(out)@ == old(out)@ + paths_bytes(byte_strings(paths@), paths@.len() as int),
{
    let ghost all = byte_strings(paths@);
    let ghost start = out@;
    let mut i: usize = 0;
    while i < paths.len()
        invariant
            i <= paths@.len(),
            all == byte_strings(paths@),
            out@ == start + paths_bytes(all, i as int),
        decreases paths@.len() - i,
    {
        let path = &paths[i];
        push_u32(out, path.len() as u32);
        push_bytes(out, path.as_slice());
        proof {
            assert(all[i as int] == path@);
            assert(out@ =~= start + paths_bytes(all, i + 1));
        }
        i = i + 1;
    }
}

fn push_entry(out: &mut Vec<u8>, entry: &IndexEntry)
    requires
        entry@.bloom.len() == BLOOM_WORDS,
    ensures
        final(out)@ == old(out)@ + entry_bytes(entry@),
        entry@.content.len() <= usize::MAX,
{
    let ghost start = out@;
    push_u32(out, entry.root_index as u32);
    let path = string_bytes(&entry.path);
    push_u32(out, path.len() as u32);
    push_bytes(out, path);
    let content_len = entry.content.len();
    push_u64(out, content_len as u64);
    push_bytes(out, entry.content_hash.as_slice());
    out.push(if entry.prefilterable { 1u8 } else { 0u8 });
    let ghost before_words = out@;
    let mut w: usize = 0;
    while w < entry.bloom.len()
        invariant
            w <= entry.bloom@.len(),
            out@ == before_words + words_bytes(entry.bloom@, w as int),
        decreases entry.bloom@.len() - w,
    {
        push_u64(out, entry.bloom[w]);
        proof {
            assert(out@ =~= before_words + words_bytes(entry.bloom@, w + 1));
        }
        w = w + 1;
    }
    push_bytes(out, entry.content.as_slice());
    proof {
        let e = entry@;
        assert(out@ =~= start + (le_u32(e.root_index as u32) + path_field(e.path) + le_u64(e.content.len() as u64) + e.hash
            + seq![flag_byte(e.prefilterable)] + words_bytes(e.bloom, BLOOM_WORDS as int) + e.content));
    }
}

fn push_entries(out: &mut Vec<u8>, entries: &Vec<IndexEntry>)
    requires
        forall|i: int| 0 <= i < entries@.len() ==> (#[trigger] entries@[i])@.bloom.len() == BLOOM_WORDS,
    ensures
        final(out)@ == old(out)@ + entries_bytes(entry_models(entries@), entries@.len() as int),
        forall|i: int| 0 <= i < entries@.len() ==> (#[trigger] entry_models(entries@)[i]).content.len() <= usize::MAX,
{
    let ghost all = entry_models(entries@);
    let ghost start = out@;
    let mut i: usize = 0;
    while i < entries.len()
        invariant
            i <= entries@.len(),
            all == entry_models(entries@),
            forall|k: int| 0 <= k < entries@.len() ==> (#[trigger] entries@[k])@.bloom.len() == BLOOM_WORDS,
            out@ == start + entries_bytes(all, i as int),
            forall|k: int| 0 <= k < i ==> (#[trigger] all[k]).content.len() <= usize::MAX,
        decreases entries@.len() - i,
    {
        push_entry(out, &entries[i]);
        proof {
            assert(all[i as int] == entries@[i as int]@);
            assert(out@ =~= start + entries_bytes(all, i + 1));
        }
        i = i + 1;
    }
}

impl PersistentIndex {
    /// Serializes this index for `path`: the body and its SHA-256 checksum.
    /// Fails on an unusable policy, a root or path over the path limit, or
    /// a file over the index byte limit.
    pub fn save(&self, path: &str) -> (result: Result<Vec<u8>>)
        ensures
            model_wf(self@, self.platform_id()),
            match self.policy().complaint() {
                Some(message) => result matches Err(Error::Index { path: p, message: m }) && p@ == path@ && m@ == message,
                None => if saved_fits(self@, self.policy(), self.platform_id()) {
                    result matches Ok(bytes) && bytes@ == file_bytes(self@, self.platform_id())
                        && digests_sized(self@, self.platform_id())
                } else {
                    result matches Err(Error::Index { path: p, .. }) && p@ == "<writer>"@
                },
            },
    {
        let options = self.options();
        let platform = self.platform();
        let roots = self.roots();
        let event_roots = self.event_roots();
        let entries = self.entries();
        let ghost m = self@;
        let mut body: Vec<u8> = Vec::new();
        if let Err(error) = options.validate(path) {
            return Err(error);
        }
        if let Err(error) = check_paths(roots, options.max_path_bytes) {
            return Err(error);
        }
        if let Err(error) = check_paths(event_roots, options.max_path_bytes) {
            return Err(error);
        }
        if let Err(error) = check_entry_paths(entries, options.max_path_bytes) {
            return Err(error);
        }
        let magic_bytes: [u8; 8] = [87u8, 86u8, 88u8, 73u8, 68u8, 88u8, 48u8, 49u8];
        push_bytes(&mut body, magic_bytes.as_slice());
        push_u32(&mut body, 1);
        body.push(platform);
        body.push(0u8);
        push_u16(&mut body, 0);
        push_u32(&mut body, roots.len() as u32);
        push_u64(&mut body, entries.len() as u64);
        push_u64(&mut body, self.content_bytes());
        let revision = revision_bytes(roots, entries);
        push_bytes(&mut body, revision.as_slice());
        proof {
            assert(magic_bytes@ =~= magic());
            assert(body@ =~= header_bytes(m, platform));
        }
        push_paths(&mut body, roots);
        push_paths(&mut body, event_roots);
        proof {
            assert forall|i: int| 0 <= i < entries@.len() implies (#[trigger] entries@[i])@.bloom.len() == BLOOM_WORDS by {
                assert(entry_models(entries@)[i] == entries@[i]@);
            }
        }
        push_entries(&mut body, entries);
        proof {
            assert(body@ =~= body_bytes(m, platform));
        }
        let size = body.len() as u64;
        if size > options.max_index_bytes || options.max_index_bytes - size < 32 {
            let message = text_with_number("serialized index exceeds ", options.max_index_bytes, " bytes");
            return Err(Error::Index { path: String::from_str("<writer>"), message });
        }
        let checksum = sha256(body.as_slice());
        push_bytes(&mut body, checksum.as_slice());
        Ok(body)
    }
}

} // verus!

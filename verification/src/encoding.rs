//! Decoding of complete sources and dispatch to line or multiline search.
use vstd::prelude::*;
use vstd::utf8::encode_utf8;
use crate::collector::{rooted, Collector};
use crate::error::{Error, Result};
use crate::line_search::{counters, events_effect, finish_effect, lemma_events_rooted, lemma_finish_rooted, lemma_sat_add_twice, line_counts, LineSearcher, same_state, SearchIdentity, only_warned, starts_source};
use crate::lines::feed;
use crate::multiline::{lemma_multiline_rooted, multiline_outcome};
use crate::multiline;
use crate::options::{BinaryPolicy, EncodingMode, ResultMode, SearchMode, SearchOptions};
use crate::query::{CompiledQuery, QueryCache, cache_matches, query_matcher, SpecMatcher};
use crate::report::{SearchWarning, SearchWarningKind};
use crate::text::find_byte;

verus! {

/// An `encoding_rs` character encoding.
#[verifier::external_type_specification]
#[verifier::external_body]
pub struct ExEncoding(encoding_rs::Encoding);

/// An encoding chosen for a source, with its name.
pub struct ResolvedEncoding {
    encoding: &'static encoding_rs::Encoding,
    name: String,
}

impl ResolvedEncoding {
    /// The encoding's name.
    pub closed spec fn name_view(&self) -> Seq<char> {
        self.name@
    }

    /// The encoding's name.
    pub fn name(&self) -> (name: &String)
        ensures
            name@ == self.name_view(),
    {
        &self.name
    }
}

/// The name of the encoding `encoding_rs` finds for a label, if any.
pub uninterp spec fn label_encoding_name(label: Seq<u8>) -> Option<Seq<char>>;

/// What `decode_with_bom_removal` of the encoding named `encoding` gives
/// for `bytes`: the text, and whether malformed input was replaced.
pub uninterp spec fn decoded(encoding: Seq<char>, bytes: Seq<u8>) -> (Seq<char>, bool);

/// Looks up an encoding label with `Encoding::for_label`.
///
/// Trusted: the result is the encoding the name `label_encoding_name`
/// gives for the label, or `None` exactly when that gives none; the name
/// is the encoding's `name()`.
#[verifier::external_body]
fn encoding_for_label(label: &[u8]) -> (found: Option<ResolvedEncoding>)
    ensures
        match found {
            Some(encoding) => label_encoding_name(label@) == Some(encoding.name_view()),
            None => label_encoding_name(label@) is None,
        },
{
    encoding_rs::Encoding::for_label(label).map(|encoding| ResolvedEncoding { encoding, name: encoding.name().to_string() })
}

/// The name `UTF-8`.
pub open spec fn utf8_name() -> Seq<char> {
    seq!['U', 'T', 'F', '-', '8']
}

/// The name `UTF-16LE`.
pub open spec fn utf16le_name() -> Seq<char> {
    seq!['U', 'T', 'F', '-', '1', '6', 'L', 'E']
}

/// The name `UTF-16BE`.
pub open spec fn utf16be_name() -> Seq<char> {
    seq!['U', 'T', 'F', '-', '1', '6', 'B', 'E']
}

/// `encoding_rs::UTF_8`.
///
/// Trusted: its name is `UTF-8`, as its definition states.
#[verifier::external_body]
fn utf8_encoding() -> (encoding: ResolvedEncoding)
    ensures
        encoding.name_view() == utf8_name(),
{
    ResolvedEncoding { encoding: encoding_rs::UTF_8, name: encoding_rs::UTF_8.name().to_string() }
}

/// `encoding_rs::UTF_16LE`.
///
/// Trusted: its name is `UTF-16LE`, as its definition states.
#[verifier::external_body]
pub(crate) fn utf16le_encoding() -> (encoding: ResolvedEncoding)
    ensures
        encoding.name_view() == utf16le_name(),
{
    ResolvedEncoding { encoding: encoding_rs::UTF_16LE, name: encoding_rs::UTF_16LE.name().to_string() }
}

/// `encoding_rs::UTF_16BE`.
///
/// Trusted: its name is `UTF-16BE`, as its definition states.
#[verifier::external_body]
fn utf16be_encoding() -> (encoding: ResolvedEncoding)
    ensures
        encoding.name_view() == utf16be_name(),
{
    ResolvedEncoding { encoding: encoding_rs::UTF_16BE, name: encoding_rs::UTF_16BE.name().to_string() }
}

/// Decodes with `Encoding::decode_with_bom_removal`.
///
/// Trusted: the text and the malformed-input flag are the name `decoded`
/// of the encoding's name and the bytes; encoding names are unique, so the
/// name stands for the encoding.
#[verifier::external_body]
pub(crate) fn decode_with_bom_removal(encoding: &ResolvedEncoding, bytes: &[u8]) -> (result: (String, bool))
    ensures
        (result.0@, result.1) == decoded(encoding.name_view(), bytes@),
{
    let (text, had_errors) = encoding.encoding.decode_with_bom_removal(bytes);
    (text.into_owned(), had_errors)
}

/// `bytes` starts with `prefix`.
pub open spec fn starts_with(bytes: Seq<u8>, prefix: Seq<u8>) -> bool {
    prefix.len() <= bytes.len() && bytes.subrange(0, prefix.len() as int) == prefix
}

/// Whether an encoding mode decodes UTF-8 as it streams: `Ok(true)` for
/// UTF-8, `Ok(false)` for the other encodings, an error for an unknown
/// label.
pub open spec fn streams_utf8(mode: EncodingMode) -> Option<bool> {
    match mode {
        EncodingMode::Auto | EncodingMode::Utf8 => Some(true),
        EncodingMode::Utf16Le | EncodingMode::Utf16Be => Some(false),
        EncodingMode::Label(label) => match label_encoding_name(encode_utf8(label@)) {
            Some(name) => Some(name == utf8_name()),
            None => None,
        },
    }
}

fn is_utf8_name(name: &String) -> (utf8: bool)
    ensures
        utf8 == (name@ == utf8_name()),
{
    let expected = String::from_str("UTF-8");
    proof {
        reveal_strlit("UTF-8");
        assert(expected@ =~= utf8_name());
    }
    *name == expected
}

/// Whether sources can be searched while they stream as UTF-8.
pub fn is_streaming_utf8(mode: &EncodingMode) -> (result: Result<bool>)
    ensures
        match streams_utf8(*mode) {
            Some(streams) => result == Ok::<bool, Error>(streams),
            None => result matches Err(Error::InvalidEncoding(label)) && *mode == EncodingMode::Label(label),
        },
{
    match mode {
        EncodingMode::Auto | EncodingMode::Utf8 => Ok(true),
        EncodingMode::Utf16Le | EncodingMode::Utf16Be => Ok(false),
        EncodingMode::Label(label) => match encoding_for_label(label.as_str().as_bytes()) {
            Some(encoding) => Ok(is_utf8_name(encoding.name())),
            None => Err(Error::InvalidEncoding(label.clone())),
        },
    }
}

/// The UTF-16 byte-order marks.
pub open spec fn has_utf16_bom(bytes: Seq<u8>) -> bool {
    starts_with(bytes, seq![0xFFu8, 0xFEu8]) || starts_with(bytes, seq![0xFEu8, 0xFFu8])
}

/// Whether automatic decoding sees a UTF-16 byte-order mark.
pub fn auto_is_utf16(bytes: &[u8]) -> (utf16: bool)
    ensures
        utf16 == has_utf16_bom(bytes@),
{
    let little = bytes.len() >= 2 && bytes[0] == 0xFFu8 && bytes[1] == 0xFEu8;
    let big = bytes.len() >= 2 && bytes[0] == 0xFEu8 && bytes[1] == 0xFFu8;
    proof {
        if bytes@.len() >= 2 {
            assert(little == (bytes@.subrange(0, 2) =~= seq![0xFFu8, 0xFEu8]));
            assert(big == (bytes@.subrange(0, 2) =~= seq![0xFEu8, 0xFFu8]));
        }
    }
    little || big
}

/// The length of a UTF-8 byte-order mark at the start of `bytes`.
pub fn utf8_bom_len(bytes: &[u8]) -> (length: usize)
    ensures
        length == if starts_with(bytes@, seq![0xEFu8, 0xBBu8, 0xBFu8]) { 3usize } else { 0usize },
{
    let bom = bytes.len() >= 3 && bytes[0] == 0xEFu8 && bytes[1] == 0xBBu8 && bytes[2] == 0xBFu8;
    proof {
        if bytes@.len() >= 3 {
            assert(bom == (bytes@.subrange(0, 3) =~= seq![0xEFu8, 0xBBu8, 0xBFu8]));
        }
    }
    if bom { 3 } else { 0 }
}

/// The name of the encoding a mode chooses for `bytes`, or `None` for an
/// unknown label.
pub open spec fn resolved_name(mode: EncodingMode, bytes: Seq<u8>) -> Option<Seq<char>> {
    match mode {
        EncodingMode::Auto => if starts_with(bytes, seq![0xFFu8, 0xFEu8]) {
            Some(utf16le_name())
        } else if starts_with(bytes, seq![0xFEu8, 0xFFu8]) {
            Some(utf16be_name())
        } else {
            Some(utf8_name())
        },
        EncodingMode::Utf8 => Some(utf8_name()),
        EncodingMode::Utf16Le => Some(utf16le_name()),
        EncodingMode::Utf16Be => Some(utf16be_name()),
        EncodingMode::Label(label) => label_encoding_name(encode_utf8(label@)),
    }
}

/// An explicit mode chooses the same encoding for any bytes: only
/// automatic detection looks at them.
pub proof fn lemma_explicit_mode_ignores_bytes(mode: EncodingMode, bytes: Seq<u8>, other: Seq<u8>)
    requires
        mode != EncodingMode::Auto,
    ensures
        resolved_name(mode, bytes) == resolved_name(mode, other),
{
}

/// Under automatic detection the byte-order mark names the encoding:
/// bytes that start with FE FF are read as UTF-16BE, bytes that start with
/// FF FE as UTF-16LE, and anything else as UTF-8; an explicit mode is
/// always the encoding it names, whatever the bytes.
pub proof fn lemma_byte_order_mark_names_encoding(bytes: Seq<u8>)
    ensures
        bytes.len() >= 2 && bytes[0] == 0xFEu8 && bytes[1] == 0xFFu8
            ==> resolved_name(EncodingMode::Auto, bytes) == Some(seq!['U', 'T', 'F', '-', '1', '6', 'B', 'E']),
        bytes.len() >= 2 && bytes[0] == 0xFFu8 && bytes[1] == 0xFEu8
            ==> resolved_name(EncodingMode::Auto, bytes) == Some(seq!['U', 'T', 'F', '-', '1', '6', 'L', 'E']),
        !(bytes.len() >= 2 && bytes[0] == 0xFEu8 && bytes[1] == 0xFFu8)
            && !(bytes.len() >= 2 && bytes[0] == 0xFFu8 && bytes[1] == 0xFEu8)
            ==> resolved_name(EncodingMode::Auto, bytes) == Some(seq!['U', 'T', 'F', '-', '8']),
        resolved_name(EncodingMode::Utf16Be, bytes) == Some(seq!['U', 'T', 'F', '-', '1', '6', 'B', 'E']),
        resolved_name(EncodingMode::Utf16Le, bytes) == Some(seq!['U', 'T', 'F', '-', '1', '6', 'L', 'E']),
        resolved_name(EncodingMode::Utf8, bytes) == Some(seq!['U', 'T', 'F', '-', '8']),
{
    if bytes.len() >= 2 {
        assert(starts_with(bytes, seq![0xFEu8, 0xFFu8]) == (bytes.subrange(0, 2) =~= seq![0xFEu8, 0xFFu8]));
        assert(starts_with(bytes, seq![0xFFu8, 0xFEu8]) == (bytes.subrange(0, 2) =~= seq![0xFFu8, 0xFEu8]));
    }
}

/// Chooses the encoding of a source.
pub fn resolve_encoding(mode: &EncodingMode, bytes: &[u8]) -> (result: Result<ResolvedEncoding>)
    ensures
        *mode == EncodingMode::Auto && bytes@.len() >= 2 && bytes@[0] == 0xFEu8 && bytes@[1] == 0xFFu8
            ==> (result matches Ok(encoding) && encoding.name_view() == seq!['U', 'T', 'F', '-', '1', '6', 'B', 'E']),
        *mode == EncodingMode::Auto && bytes@.len() >= 2 && bytes@[0] == 0xFFu8 && bytes@[1] == 0xFEu8
            ==> (result matches Ok(encoding) && encoding.name_view() == seq!['U', 'T', 'F', '-', '1', '6', 'L', 'E']),
        match resolved_name(*mode, bytes@) {
            Some(name) => result matches Ok(encoding) && encoding.name_view() == name,
            None => result matches Err(Error::InvalidEncoding(label)) && *mode == EncodingMode::Label(label),
        },
{
    match mode {
        EncodingMode::Auto => {
            let little = bytes.len() >= 2 && bytes[0] == 0xFFu8 && bytes[1] == 0xFEu8;
            let big = bytes.len() >= 2 && bytes[0] == 0xFEu8 && bytes[1] == 0xFFu8;
            proof {
                if bytes@.len() >= 2 {
                    assert(little == (bytes@.subrange(0, 2) =~= seq![0xFFu8, 0xFEu8]));
                    assert(big == (bytes@.subrange(0, 2) =~= seq![0xFEu8, 0xFFu8]));
                }
            }
            proof {
                lemma_byte_order_mark_names_encoding(bytes@);
            }
            if little {
                Ok(utf16le_encoding())
            } else if big {
                Ok(utf16be_encoding())
            } else {
                Ok(utf8_encoding())
            }
        }
        EncodingMode::Utf8 => Ok(utf8_encoding()),
        EncodingMode::Utf16Le => Ok(utf16le_encoding()),
        EncodingMode::Utf16Be => Ok(utf16be_encoding()),
        EncodingMode::Label(label) => match encoding_for_label(label.as_str().as_bytes()) {
            Some(encoding) => Ok(encoding),
            None => Err(Error::InvalidEncoding(label.clone())),
        },
    }
}

/// The message of the warning for malformed input in `path`.
pub open spec fn decoding_message(path: Seq<char>, encoding: Seq<char>) -> Seq<char> {
    path + seq![' ', 'c', 'o', 'n', 't', 'a', 'i', 'n', 'e', 'd', ' ', 'm', 'a', 'l', 'f', 'o', 'r', 'm', 'e', 'd', ' '] + encoding
        + seq![' ', 's', 'e', 'q', 'u', 'e', 'n', 'c', 'e', 's', ';', ' ', 'r', 'e', 'p', 'l', 'a', 'c', 'e', 'm', 'e', 'n', 't', ' ',
        'c', 'h', 'a', 'r', 'a', 'c', 't', 'e', 'r', 's', ' ', 'w', 'e', 'r', 'e', ' ', 'u', 's', 'e', 'd']
}

/// The message of the warning for a skipped binary source.
pub open spec fn binary_message() -> Seq<char> {
    seq!['b', 'i', 'n', 'a', 'r', 'y', ' ', 'f', 'i', 'l', 'e', ' ', 's', 'k', 'i', 'p', 'p', 'e', 'd', ' ', 'a', 'f', 't', 'e', 'r', ' ',
        'N', 'U', 'L', '-', 'b', 'y', 't', 'e', ' ', 'd', 'e', 't', 'e', 'c', 't', 'i', 'o', 'n']
}

/// `w` is the malformed-input warning for `path` decoded as `encoding`.
pub open spec fn is_decoding_warning(w: SearchWarning, path: String, encoding: Seq<char>) -> bool {
    w.path == path && w.kind == SearchWarningKind::Encoding && w.message@ == decoding_message(path@, encoding)
}

/// `w` is the binary-source warning for `path`.
pub open spec fn is_binary_warning(w: SearchWarning, path: String) -> bool {
    w.path == path && w.kind == SearchWarningKind::Binary && w.message@ == binary_message()
}

/// The bytes inspected for NUL: at most the first 8 KiB of the text.
pub open spec fn binary_probe(text: Seq<u8>) -> Seq<u8> {
    if text.len() < 8192 { text } else { text.subrange(0, 8192) }
}

/// Whether a decoded source is skipped as binary.
pub open spec fn skipped_source(encoding: Seq<char>, bytes: Seq<u8>, options: SearchOptions) -> bool {
    options.binary == BinaryPolicy::Skip && binary_probe(encode_utf8(decoded(encoding, bytes).0)).contains(0u8)
}

/// Decoding warnings and the binary skip of a complete source: the
/// warnings offered, first for malformed input, then for a binary skip.
pub open spec fn decode_outcome(
    old_collector: Collector,
    new_collector: Collector,
    path: String,
    encoding: Seq<char>,
    bytes: Seq<u8>,
    options: SearchOptions,
    warnings: Seq<SearchWarning>,
) -> bool {
    let had_errors = decoded(encoding, bytes).1;
    let skipped = skipped_source(encoding, bytes, options);
    &&& only_warned(old_collector, new_collector, warnings)
    &&& had_errors ==> warnings.len() >= 1 && is_decoding_warning(warnings[0], path, encoding)
    &&& skipped ==> {
        &&& warnings.len() == if had_errors { 2int } else { 1int }
        &&& is_binary_warning(warnings.last(), path)
    }
    &&& !skipped ==> warnings.len() == if had_errors { 1int } else { 0int }
}

/// The identity a source is searched under once it is decoded with the
/// encoding `name`: the given root, path, size and archive flag, the
/// encoding's name, source offsets counted past a UTF-8 byte-order mark
/// (none for other encodings), and whether decoding replaced malformed
/// input.
pub open spec fn decoded_identity(given: SearchIdentity, searched: SearchIdentity, name: Seq<char>, bytes: Seq<u8>) -> bool {
    &&& searched.root_index == given.root_index
    &&& searched.path == given.path
    &&& searched.source_bytes == given.source_bytes
    &&& searched.archive == given.archive
    &&& searched.encoding@ == name
    &&& searched.source_offset_base == if name == utf8_name() {
        Some(if starts_with(bytes, seq![0xEFu8, 0xBBu8, 0xBFu8]) { 3u64 } else { 0u64 })
    } else {
        None
    }
    &&& searched.lossy == decoded(name, bytes).1
}

/// The identity a complete source is handed over with: its root, its
/// path, its size, whether it is an archive member (whose source offsets
/// start at zero), and nothing yet of its encoding.
pub open spec fn given_identity(identity: SearchIdentity, root_index: usize, path: Seq<char>, source_bytes: nat, archive: bool) -> bool {
    &&& identity.root_index == root_index
    &&& identity.path@ == path
    &&& identity.source_bytes == source_bytes
    &&& identity.encoding@ == Seq::<char>::empty()
    &&& identity.archive == archive
    &&& identity.source_offset_base == if archive { Some(0u64) } else { None }
    &&& !identity.lossy
}

/// What searching the decoded text of a source under `identity` does,
/// from `before` on: a multiline search, or a line search of the lines the
/// splitter cuts, event by event from a fresh searcher, then its end.
pub open spec fn text_searched(
    before: Collector,
    after: Collector,
    identity: SearchIdentity,
    encoding: Seq<char>,
    bytes: Seq<u8>,
    query: CompiledQuery,
    options: SearchOptions,
) -> bool {
    let text = decoded(encoding, bytes).0;
    if options.mode == SearchMode::Multiline {
        multiline_outcome(before, after, identity, text, query, options)
    } else {
        exists|selves: Seq<LineSearcher>, collectors: Seq<Collector>| #[trigger] events_effect(selves, collectors,
            feed(options.max_line_bytes as nat, crate::lines::initial_state(), encode_utf8(text)).events, query, options)
            && starts_source(selves[0], identity, options) && collectors[0] == before
            && finish_effect(selves.last(), collectors.last(), after, query, options)
    }
}

/// What searching a complete source handed over as `given` does: an
/// unknown encoding label fails and leaves the collector; anything else is
/// decoded, its warnings offered, and, unless it is skipped as binary, its
/// text searched under its decoded identity.
pub open spec fn complete_outcome(
    before: Collector,
    after: Collector,
    result: Result<()>,
    given: SearchIdentity,
    bytes: Seq<u8>,
    query: CompiledQuery,
    options: SearchOptions,
) -> bool {
    match resolved_name(options.encoding, bytes) {
        None => result matches Err(Error::InvalidEncoding(label)) && options.encoding == EncodingMode::Label(label)
            && after == before,
        Some(name) => result is Ok && exists|warnings: Seq<SearchWarning>, mid: Collector, searched: SearchIdentity|
            #![trigger decode_outcome(before, mid, given.path, name, bytes, options, warnings), decoded_identity(given, searched, name, bytes)]
            decode_outcome(before, mid, given.path, name, bytes, options, warnings)
            && decoded_identity(given, searched, name, bytes)
            && if skipped_source(name, bytes, options) {
                after == mid
            } else {
                text_searched(mid, after, searched, name, bytes, query, options)
            },
    }
}

/// Searching a complete source handed over under a root below `n` keeps
/// every offered root below `n`.
pub proof fn lemma_complete_rooted(before: Collector, after: Collector, result: Result<()>, given: SearchIdentity,
    bytes: Seq<u8>, query: CompiledQuery, options: SearchOptions, n: nat)
    requires
        complete_outcome(before, after, result, given, bytes, query, options),
        rooted(before, n),
        given.root_index < n,
    ensures
        rooted(after, n),
{
    if let Some(name) = resolved_name(options.encoding, bytes) {
        let (warnings, mid, searched) = choose|warnings: Seq<SearchWarning>, mid: Collector, searched: SearchIdentity|
            #![trigger decode_outcome(before, mid, given.path, name, bytes, options, warnings), decoded_identity(given, searched, name, bytes)]
            decode_outcome(before, mid, given.path, name, bytes, options, warnings)
            && decoded_identity(given, searched, name, bytes)
            && if skipped_source(name, bytes, options) {
                after == mid
            } else {
                text_searched(mid, after, searched, name, bytes, query, options)
            };
        assert(rooted(mid, n));
        if !skipped_source(name, bytes, options) {
            let text = decoded(name, bytes).0;
            if options.mode == SearchMode::Multiline {
                lemma_multiline_rooted(mid, after, searched, text, query, options, n);
            } else {
                let events = feed(options.max_line_bytes as nat, crate::lines::initial_state(), encode_utf8(text)).events;
                let (selves, collectors) = choose|selves: Seq<LineSearcher>, collectors: Seq<Collector>|
                    #[trigger] events_effect(selves, collectors, events, query, options)
                    && starts_source(selves[0], searched, options) && collectors[0] == mid
                    && finish_effect(selves.last(), collectors.last(), after, query, options);
                lemma_events_rooted(selves, collectors, events, query, options, n, events.len() as int);
                lemma_finish_rooted(selves.last(), collectors.last(), after, query, options, n);
            }
        }
    }
}

/// The matching lines and matches a line search of a complete source
/// with `matcher` counts: none for an unknown encoding label or a skipped
/// binary source, else those of its decoded text.
pub open spec fn source_line_counts(bytes: Seq<u8>, options: SearchOptions, matcher: SpecMatcher) -> (u64, u64) {
    match resolved_name(options.encoding, bytes) {
        None => (0, 0),
        Some(name) => {
            let text = encode_utf8(decoded(name, bytes).0);
            if options.binary == BinaryPolicy::Skip && binary_probe(text).contains(0u8) {
                (0, 0)
            } else {
                line_counts(text, options.max_line_bytes as nat, matcher)
            }
        }
    }
}

/// How counting one source with `counts` matching lines and matches
/// changes a collector's counters: a source without matches leaves them,
/// any other adds its counts and one matched file.
pub open spec fn counted(before: Collector, after: Collector, counts: (u64, u64)) -> bool {
    &&& counts.1 > 0 ==> counters(after) == (before.matching_line_count().wrapping_add(counts.0),
        before.occurrence_count().wrapping_add(counts.1), before.matched_file_count().wrapping_add(1))
    &&& counts.1 == 0 ==> counters(after) == counters(before)
}

fn decoding_text(path: &String, encoding: &String) -> (message: String)
    ensures
        message@ == decoding_message(path@, encoding@),
{
    let mut message = path.clone();
    message.append(" contained malformed ");
    message.append(encoding.as_str());
    message.append(" sequences; replacement characters were used");
    proof {
        reveal_strlit(" contained malformed ");
        reveal_strlit(" sequences; replacement characters were used");
        assert(message@ =~= decoding_message(path@, encoding@));
    }
    message
}

fn binary_text() -> (message: String)
    ensures
        message@ == binary_message(),
{
    let message = String::from_str("binary file skipped after NUL-byte detection");
    proof {
        reveal_strlit("binary file skipped after NUL-byte detection");
        assert(message@ =~= binary_message());
    }
    message
}

/// Decodes a complete source and searches it: reports malformed input,
/// skips a binary source when asked to, and otherwise searches its lines,
/// or the whole text in multiline mode. Fails only for an unknown
/// encoding label.
pub fn search_complete_bytes(
    identity: SearchIdentity,
    bytes: &[u8],
    query: &CompiledQuery,
    cache: &mut QueryCache,
    options: &SearchOptions,
    collector: &mut Collector,
) -> (result: Result<()>)
    requires
        old(collector).wf(),
        cache_matches(query, old(cache)),
        query is Literal ==> query->Literal_0@.len() > 0,
    ensures
        cache_matches(query, final(cache)),
        final(collector).wf(),
        final(collector).kept_setup(*old(collector)),
        complete_outcome(*old(collector), *final(collector), result, identity, bytes@, *query, *options),
        options.mode == SearchMode::Line && old(collector).mode() != ResultMode::Quiet
            ==> counted(*old(collector), *final(collector), source_line_counts(bytes@, *options, query_matcher(*query))),
{
    let ghost given = identity;
    let encoding = match resolve_encoding(&options.encoding, bytes) {
        Ok(encoding) => encoding,
        Err(error) => {
            return Err(error);
        }
    };
    let decoding = decode_with_bom_removal(&encoding, bytes);
    let text = decoding.0;
    let had_errors = decoding.1;
    let utf8 = is_utf8_name(encoding.name());
    let source_offset_base = if utf8 { Some(utf8_bom_len(bytes) as u64) } else { None };
    let identity = SearchIdentity {
        root_index: identity.root_index,
        path: identity.path,
        source_bytes: identity.source_bytes,
        encoding: encoding.name().clone(),
        archive: identity.archive,
        source_offset_base,
        lossy: had_errors,
    };
    let ghost identity_copy = identity;
    let ghost mut warnings: Seq<SearchWarning> = Seq::empty();
    proof {
        assert(old(collector).warning_ranking().offered() + warnings =~= old(collector).warning_ranking().offered());
    }
    if had_errors {
        let warning = SearchWarning {
            path: identity.path.clone(),
            kind: SearchWarningKind::Encoding,
            message: decoding_text(&identity.path, encoding.name()),
        };
        let ghost w = warning;
        collector.warn(warning);
        proof {
            warnings = seq![w];
            assert(collector.warning_ranking().offered() =~= old(collector).warning_ranking().offered() + warnings);
        }
    }
    let text_bytes = text.as_str().as_bytes();
    let probe_len = if text_bytes.len() < 8192 { text_bytes.len() } else { 8192 };
    let probe = &text_bytes[0..probe_len];
    if options.binary == BinaryPolicy::Skip {
        if let Some(position) = find_byte(0u8, probe) {
            let warning = SearchWarning {
                path: identity.path,
                kind: SearchWarningKind::Binary,
                message: binary_text(),
            };
            let ghost w = warning;
            collector.warn(warning);
            proof {
                let before = warnings;
                warnings = warnings.push(w);
                assert(collector.warning_ranking().offered() =~= old(collector).warning_ranking().offered() + warnings);
                assert(probe@ == binary_probe(encode_utf8(text@)));
                assert(probe@[position as int] == 0u8);
                assert(binary_probe(encode_utf8(text@)).contains(0u8));
                assert(decode_outcome(*old(collector), *collector, given.path, encoding.name_view(), bytes@, *options, warnings));
                assert(decoded_identity(given, identity, encoding.name_view(), bytes@));
                assert(complete_outcome(*old(collector), *collector, Ok::<(), Error>(()), given, bytes@, *query, *options));
            }
            return Ok(());
        }
    }
    proof {
        assert(probe@ == binary_probe(encode_utf8(text@)));
        assert(!(options.binary == BinaryPolicy::Skip && binary_probe(encode_utf8(text@)).contains(0u8)));
        assert(decode_outcome(*old(collector), *collector, given.path, encoding.name_view(), bytes@, *options, warnings));
    }
    let ghost after_decoding = *collector;
    if options.mode == SearchMode::Multiline {
        multiline::search(identity, text.as_str(), query, cache, options, collector);
        proof {
            assert(text@ == decoded(encoding.name_view(), bytes@).0);
            assert(text_searched(after_decoding, *collector, identity_copy, encoding.name_view(), bytes@, *query, *options));
        }
    } else {
        let mut lines = LineSearcher::new(identity, options);
        let ghost fresh = lines;
        lines.push(text_bytes, query, cache, options, collector);
        proof {
            lemma_sat_add_twice(0, 0, 0);
            assert(text_bytes@ == encode_utf8(text@));
            assert(fresh.line_limit() == options.max_line_bytes as nat);
        }
        let ghost pushed = lines;
        let ghost before_finish = *collector;
        lines.finish(query, cache, options, collector);
        proof {
            assert(finish_effect(pushed, before_finish, *collector, *query, *options));
            let cut = feed(fresh.line_limit(), fresh.split_state(), text_bytes@).events;
            assert(cut == feed(options.max_line_bytes as nat, crate::lines::initial_state(), encode_utf8(text@)).events);
            let (selves, collectors) = choose|selves: Seq<LineSearcher>, collectors: Seq<Collector>|
                #[trigger] events_effect(selves, collectors, cut, *query, *options)
                && same_state(selves[0], fresh) && selves.last() == pushed
                && collectors[0] == after_decoding && collectors.last() == before_finish;
            assert(starts_source(selves[0], identity_copy, *options));
            assert(events_effect(selves, collectors, cut, *query, *options));
            assert(text@ == decoded(encoding.name_view(), bytes@).0);
            assert(finish_effect(selves.last(), collectors.last(), *collector, *query, *options));
            assert(text_searched(after_decoding, *collector, identity_copy, encoding.name_view(), bytes@, *query, *options));
        }
    }
    proof {
        assert(decode_outcome(*old(collector), after_decoding, given.path, encoding.name_view(), bytes@, *options, warnings));
        assert(text_searched(after_decoding, *collector, identity_copy, encoding.name_view(), bytes@, *query, *options));
        assert(decoded_identity(given, identity_copy, encoding.name_view(), bytes@));
        assert(complete_outcome(*old(collector), *collector, Ok::<(), Error>(()), given, bytes@, *query, *options));
    }
    Ok(())
}

} // verus!

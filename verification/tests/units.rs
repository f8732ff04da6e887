use weavatrix_search::index::exclusion::{escape_override_literal, is_artifact_name, storage_exclusion_rules};
use weavatrix_search::live::{batch_updates, collect_step, BatchCollection, BatchUpdate, LiveInput, PlanShape};
use weavatrix_search::archive::{decode_lzma, decode_xz, has_suffix, search_archive, kind, read_limited, safe_virtual_path, strip_suffix_ignore_ascii_case, ArchiveKind, PathPart, ReadFailure};
use weavatrix_search::encoding::{auto_is_utf16, is_streaming_utf8, resolve_encoding, utf8_bom_len};
use weavatrix_search::lines::{LineEvent, LineSplitter};
use weavatrix_search::multiline::{group_blocks, logical_line_count, next_line_end, trim_line_end};
use weavatrix_search::output::{display_path, line_and_column, warning_kind};
use weavatrix_search::replace::{append_bounded, append_replacement, parse_group_index, GroupLookup};
use weavatrix_search::text::{append_decimal, compare_bytes, find_byte, find_last_byte, push_decimal};
use weavatrix_search::{CaseMode, EncodingMode, Error, MatchSpan, SearchQuery, SearchWarningKind};

fn line(number: u64, offset: u64, bytes: &[u8]) -> LineEvent {
    LineEvent::Line { number, offset, bytes: bytes.to_vec() }
}

#[test]
fn splitter_joins_chunks_into_lines() {
    let mut splitter = LineSplitter::new(16);
    let first = splitter.push(b"ab\ncd");
    assert_eq!(first, vec![line(1, 0, b"ab")]);
    let second = splitter.push(b"e\n\nfg");
    assert_eq!(second, vec![line(2, 3, b"cde"), line(3, 7, b"")]);
    assert_eq!(splitter.line_number(), 4);
    let (last, total) = splitter.finish();
    assert_eq!(last, Some(line(4, 8, b"fg")));
    assert_eq!(total, 4);
}

#[test]
fn splitter_reports_long_lines_without_their_bytes() {
    let mut splitter = LineSplitter::new(3);
    let events = splitter.push(b"abcdef\nxy\n");
    assert_eq!(events, vec![LineEvent::TooLong { number: 1 }, line(2, 7, b"xy")]);
    let (last, total) = splitter.finish();
    assert_eq!(last, None);
    assert_eq!(total, 2);
}

#[test]
fn literal_and_regex_spans() {
    let literal = SearchQuery::literal("ab".to_string()).compile(CaseMode::Sensitive).unwrap();
    let mut cache = literal.create_cache();
    let spans = literal.find_spans(&mut cache, b"xxabxab");
    assert_eq!(spans, vec![MatchSpan { pattern_index: 0, start: 2, end: 4 }, MatchSpan { pattern_index: 0, start: 5, end: 7 }]);
    assert_eq!(literal.first_span(&mut cache, b"zzab"), Some(MatchSpan { pattern_index: 0, start: 2, end: 4 }));
    assert_eq!(literal.first_span(&mut cache, b"zz"), None);

    let both = SearchQuery::any(vec![SearchQuery::literal("a".to_string()), SearchQuery::regex("b+".to_string())]);
    let compiled = both.compile(CaseMode::Sensitive).unwrap();
    let mut cache = compiled.create_cache();
    let spans = compiled.find_spans(&mut cache, b"abbba");
    assert_eq!(spans.len(), 3);
    assert_eq!(spans[1], MatchSpan { pattern_index: 1, start: 1, end: 4 });
}

#[test]
fn replacement_previews_expand_groups() {
    let literal = SearchQuery::literal("cat".to_string()).compile(CaseMode::Sensitive).unwrap();
    let mut cache = literal.create_cache();
    let preview = literal.replacement_preview(&mut cache, b"a cat, a cat", 0, 12, "dog", 100);
    assert_eq!(preview, Some(b"a dog, a dog".to_vec()));
    assert_eq!(literal.replacement_preview(&mut cache, b"a cat", 0, 5, "dog", 3), None);

    let named = SearchQuery::regex("(?<first>[A-Z][a-z]+) (?<last>[A-Z][a-z]+)".to_string()).compile(CaseMode::Sensitive).unwrap();
    let mut cache = named.create_cache();
    let preview = named.replacement_preview(&mut cache, b"Ada Lovelace", 0, 12, "${last}, ${first} $$1", 100);
    assert_eq!(preview, Some(b"Lovelace, Ada $1".to_vec()));
}

#[test]
fn replacement_expansion_is_bounded() {
    let lookup = GroupLookup { groups: vec![Some((0, 5)), Some((0, 2))], names: vec![None, Some(b"head".to_vec())] };
    let mut out = Vec::new();
    let mut exceeded = false;
    append_replacement(&mut out, "[$1|${head}|$0|$9|$]", b"hello", (0, 5), Some(&lookup), 100, &mut exceeded);
    assert!(!exceeded);
    assert_eq!(out, b"[he|he|hello||$]".to_vec());
    let mut small = Vec::new();
    append_replacement(&mut small, "$0$0", b"hello", (0, 5), Some(&lookup), 7, &mut exceeded);
    assert!(exceeded);
    let mut bounded = b"ab".to_vec();
    let mut over = false;
    append_bounded(&mut bounded, b"cd", 3, &mut over);
    assert!(over);
    assert_eq!(bounded, b"ab".to_vec());
    append_bounded(&mut bounded, b"c", 3, &mut over);
    assert_eq!(bounded, b"abc".to_vec());
}

#[test]
fn group_numbers_parse_like_usize() {
    assert_eq!(parse_group_index(b"12"), Some(12));
    assert_eq!(parse_group_index(b"+3"), Some(3));
    assert_eq!(parse_group_index(b"007"), Some(7));
    assert_eq!(parse_group_index(b""), None);
    assert_eq!(parse_group_index(b"1a"), None);
    assert_eq!(parse_group_index(b"+"), None);
    assert_eq!(parse_group_index(b"99999999999999999999999"), None);
}

#[test]
fn multiline_helpers() {
    let text = b"one\r\ntwo\nthree";
    assert_eq!(next_line_end(text, 0), 5);
    assert_eq!(trim_line_end(text, 5), 3);
    assert_eq!(next_line_end(text, 9), 14);
    assert_eq!(logical_line_count(text), 3);
    assert_eq!(logical_line_count(b"a\n"), 1);
    let spans = vec![
        MatchSpan { pattern_index: 0, start: 0, end: 2 },
        MatchSpan { pattern_index: 0, start: 1, end: 3 },
        MatchSpan { pattern_index: 0, start: 10, end: 12 },
    ];
    let blocks = group_blocks(text, &spans);
    assert_eq!(blocks.len(), 2);
    assert_eq!((blocks[0].start_line, blocks[0].end_line), (1, 1));
    assert_eq!(blocks[0].spans.len(), 2);
    assert_eq!((blocks[1].start_line, blocks[1].end_line), (3, 3));
}

#[test]
fn archive_recognition_and_member_paths() {
    assert_eq!(kind("a.tar.gz"), Some(ArchiveKind::TarGzip));
    assert_eq!(kind("A.TGZ"), Some(ArchiveKind::TarGzip));
    assert_eq!(kind("x.zip"), Some(ArchiveKind::Zip));
    assert_eq!(kind("x.txt.xz"), Some(ArchiveKind::Xz));
    assert_eq!(kind("x.tar.xz"), Some(ArchiveKind::TarXz));
    assert_eq!(kind("notes.txt"), None);
    assert!(has_suffix(b"FILE.BZ2", ".bz2"));
    assert_eq!(strip_suffix_ignore_ascii_case("log.TXT.GZ", &[".gz"]), Some("log.TXT".to_string()));
    assert_eq!(strip_suffix_ignore_ascii_case("log.txt", &[".gz"]), None);
    let safe = vec![PathPart::Normal("a".to_string()), PathPart::CurDir, PathPart::Normal("b.txt".to_string())];
    assert_eq!(safe_virtual_path(&safe), Some("a/b.txt".to_string()));
    assert_eq!(safe_virtual_path(&vec![PathPart::ParentDir, PathPart::Normal("x".to_string())]), None);
    assert_eq!(safe_virtual_path(&vec![PathPart::RootDir, PathPart::Normal("x".to_string())]), None);
    assert_eq!(safe_virtual_path(&vec![PathPart::CurDir]), None);
}

#[test]
fn expansion_limits_and_read_failures() {
    assert_eq!(read_limited(Ok(vec![1, 2, 3]), 3, "p").unwrap(), vec![1, 2, 3]);
    match read_limited(Ok(vec![1, 2, 3, 4]), 3, "p") {
        Err(Error::Archive { path, message }) => {
            assert_eq!(path, "p");
            assert_eq!(message, "expanded content exceeds the 3 byte limit");
        }
        other => panic!("expected an archive error, got {other:?}"),
    }
    match read_limited(Err(ReadFailure::Read("boom".to_string())), 3, "p") {
        Err(Error::Io { message, .. }) => assert_eq!(message, "boom"),
        other => panic!("expected an I/O error, got {other:?}"),
    }
    match read_limited(Err(ReadFailure::Decoder("setup".to_string())), 3, "p") {
        Err(Error::Archive { message, .. }) => assert_eq!(message, "setup"),
        other => panic!("expected an archive error, got {other:?}"),
    }
}

#[test]
fn encoding_detection() {
    assert!(auto_is_utf16(&[0xFF, 0xFE, 0x41, 0x00]));
    assert!(auto_is_utf16(&[0xFE, 0xFF]));
    assert!(!auto_is_utf16(b"ab"));
    assert_eq!(utf8_bom_len(&[0xEF, 0xBB, 0xBF, b'a']), 3);
    assert_eq!(utf8_bom_len(b"abc"), 0);
    assert!(is_streaming_utf8(&EncodingMode::Utf8).unwrap());
    assert!(!is_streaming_utf8(&EncodingMode::Utf16Le).unwrap());
    assert!(!is_streaming_utf8(&EncodingMode::Label("windows-1252".to_string())).unwrap());
    assert!(is_streaming_utf8(&EncodingMode::Label("utf-8".to_string())).unwrap());
    let resolved = resolve_encoding(&EncodingMode::Auto, &[0xFF, 0xFE]).unwrap();
    assert_eq!(resolved.name(), "UTF-16LE");
    let resolved = resolve_encoding(&EncodingMode::Auto, b"plain").unwrap();
    assert_eq!(resolved.name(), "UTF-8");
    match resolve_encoding(&EncodingMode::Label("nope".to_string()), b"") {
        Err(Error::InvalidEncoding(label)) => assert_eq!(label, "nope"),
        other => panic!("expected an encoding error, got {:?}", other.map(|e| e.name().clone())),
    }
}

#[test]
fn text_helpers() {
    let mut out = Vec::new();
    push_decimal(&mut out, 0);
    push_decimal(&mut out, 1234567890);
    assert_eq!(out, b"01234567890".to_vec());
    let mut text = String::from("n=");
    append_decimal(&mut text, u64::MAX);
    assert_eq!(text, "n=18446744073709551615");
    assert_eq!(find_byte(b'/', b"a/b/c"), Some(1));
    assert_eq!(find_last_byte(b'/', b"a/b/c"), Some(3));
    assert_eq!(find_byte(b'x', b"abc"), None);
    assert_eq!(compare_bytes(b"abc", b"abd"), -1);
    assert_eq!(compare_bytes(b"ab", b"ab"), 0);
    assert_eq!(compare_bytes(b"b", b"abc"), 1);
    assert_eq!(compare_bytes(b"ab", b"abc"), -1);
}

#[test]
fn output_paths_and_columns() {
    let one = vec!["root".to_string()];
    assert_eq!(display_path(&one, 0, &"src/a.rs".to_string()), b"src/a.rs".to_vec());
    let two = vec!["one".to_string(), "two".to_string()];
    assert_eq!(display_path(&two, 1, &"a.rs".to_string()), b"two/a.rs".to_vec());
    assert_eq!(display_path(&two, 5, &"a.rs".to_string()), b"5/a.rs".to_vec());
    assert_eq!(line_and_column("ab\ncde", 10, 4), (11, 2));
    assert_eq!(line_and_column("abc", 1, 0), (1, 1));
    assert_eq!(warning_kind(SearchWarningKind::LineTooLong), "line_too_long");
    assert_eq!(warning_kind(SearchWarningKind::Binary), "binary");
}

#[test]
fn override_literals_escape_pattern_syntax() {
    assert_eq!(escape_override_literal("idx\\my index[1].wvx"), "idx/my\\ index\\[1\\].wvx");
    assert_eq!(escape_override_literal("a*b?{c}"), "a\\*b\\?\\{c\\}");
    assert_eq!(escape_override_literal(""), "");
    assert_eq!(
        storage_exclusion_rules(".cache/i x"),
        vec!["!/.cache/i\\ x", "!/.cache/i\\ x.lock", "!/.cache/i\\ x.tmp.*", "!/.cache/i\\ x.backup.*"]
    );
}

#[test]
fn index_artifacts_are_recognized_by_name() {
    assert!(is_artifact_name("index.wvx", "index.wvx"));
    assert!(is_artifact_name("index.wvx.lock", "index.wvx"));
    assert!(is_artifact_name("index.wvx.tmp.42", "index.wvx"));
    assert!(is_artifact_name("index.wvx.backup.1", "index.wvx"));
    assert!(!is_artifact_name("index.wvx.lockx", "index.wvx"));
    assert!(!is_artifact_name("index.wvx.old", "index.wvx"));
    assert!(!is_artifact_name("other.wvx", "index.wvx"));
    assert!(!is_artifact_name("index", "index.wvx"));
}

#[test]
fn live_batches_plan_their_updates() {
    let plans = vec![
        PlanShape { full_rescan: false, empty: true },
        PlanShape { full_rescan: false, empty: false },
        PlanShape { full_rescan: true, empty: false },
        PlanShape { full_rescan: false, empty: false },
    ];
    assert_eq!(
        batch_updates(false, &plans),
        vec![BatchUpdate { root_index: 1, full_rescan: false }, BatchUpdate { root_index: 2, full_rescan: true }]
    );
    assert_eq!(batch_updates(true, &plans), vec![BatchUpdate { root_index: 0, full_rescan: true }]);
    assert_eq!(batch_updates(false, &vec![PlanShape { full_rescan: false, empty: true }]), vec![]);
    let start = BatchCollection { force_rescan: false, stop_after_batch: false, open: true };
    assert_eq!(collect_step(start, LiveInput::Event), start);
    assert!(collect_step(start, LiveInput::LostEvents).force_rescan);
    let stopped = collect_step(start, LiveInput::Stop);
    assert!(stopped.stop_after_batch && !stopped.open);
    let closed = collect_step(start, LiveInput::Timeout);
    assert!(!closed.open && !closed.stop_after_batch);
}

#[test]
fn lzma_streams_decode_within_the_limit() {
    let mut packed = Vec::new();
    lzma_rs::lzma_compress(&mut &b"hello lzma"[..], &mut packed).unwrap();
    assert_eq!(decode_lzma(&packed, 100, 1 << 20, "x.lzma").unwrap(), b"hello lzma".to_vec());
    match decode_lzma(&packed, 4, 1 << 20, "x.lzma").unwrap_err() {
        Error::Archive { path, message } => {
            assert_eq!(path, "x.lzma");
            assert_eq!(message, "expanded content exceeds the 4 byte limit");
        }
        other => panic!("expected an archive error, got {other:?}"),
    }
    match decode_lzma(b"not lzma at all", 100, 1 << 20, "y.lzma").unwrap_err() {
        Error::Archive { path, .. } => assert_eq!(path, "y.lzma"),
        other => panic!("expected an archive error, got {other:?}"),
    }
}

#[test]
fn regex_spans_follow_the_search_iterator() {
    let compiled = SearchQuery::regex("b+".to_string()).compile(CaseMode::Sensitive).unwrap();
    let mut cache = compiled.create_cache();
    let spans = compiled.find_spans(&mut cache, b"abbcb");
    assert_eq!(spans, vec![MatchSpan { pattern_index: 0, start: 1, end: 3 }, MatchSpan { pattern_index: 0, start: 4, end: 5 }]);
    assert_eq!(compiled.first_span(&mut cache, b"abbcb"), Some(MatchSpan { pattern_index: 0, start: 1, end: 3 }));
    assert_eq!(compiled.first_span(&mut cache, b"ccc"), None);

    let empty = SearchQuery::regex("x*".to_string()).compile(CaseMode::Sensitive).unwrap();
    let mut cache = empty.create_cache();
    let spans = empty.find_spans(&mut cache, b"ab");
    let starts: Vec<(usize, usize)> = spans.iter().map(|span| (span.start, span.end)).collect();
    assert_eq!(starts, vec![(0, 0), (1, 1), (2, 2)]);
}

#[test]
fn regex_previews_replace_every_match_within_the_limit() {
    let compiled = SearchQuery::regex("o".to_string()).compile(CaseMode::Sensitive).unwrap();
    let mut cache = compiled.create_cache();
    assert_eq!(compiled.replacement_preview(&mut cache, b"foo", 0, 3, "0", 10), Some(b"f00".to_vec()));
    assert_eq!(compiled.replacement_preview(&mut cache, b"foo", 0, 3, "0", 2), None);
    assert_eq!(compiled.replacement_preview(&mut cache, b"foo boo", 4, 7, "[$0]", 20), Some(b"b[o][o]".to_vec()));
}

#[test]
fn xz_needs_the_minimum_decoder_memory() {
    match decode_xz(b"", 1024, 0, "a.xz") {
        Err(Error::Limit { path, message }) => {
            assert_eq!(path, "a.xz");
            assert_eq!(message, "XZ needs at least 4096 decoder bytes; configured 0");
        }
        other => panic!("expected a limit error, got {other:?}"),
    }
}

#[test]
fn unopenable_zip_fails_without_touching_the_collector() {
    let options = weavatrix_search::SearchOptions::default();
    let query = SearchQuery::literal("zip".to_string()).compile(CaseMode::Sensitive).unwrap();
    let mut cache = query.create_cache();
    let mut collector = weavatrix_search::collector::Collector::new(&options);
    let result = search_archive(ArchiveKind::Zip, 0, "bundle.zip", b"not a zip archive", &query, &mut cache, &options, &mut collector);
    match result {
        Err(Error::Archive { path, .. }) => assert_eq!(path, "bundle.zip"),
        other => panic!("expected an archive error, got {other:?}"),
    }
    let collected = collector.finish();
    assert!(collected.matches.is_empty());
    assert!(collected.files.is_empty());
    assert!(collected.warnings.is_empty());
    assert_eq!(collected.warnings_dropped, 0);
    assert_eq!(collected.matching_lines, 0);
    assert_eq!(collected.occurrences, 0);
    assert_eq!(collected.files_with_matches, 0);
}

#[test]
fn xz_streams_decode_concatenated_with_padding() {
    let mut first = Vec::new();
    lzma_rs::xz_compress(&mut &b"one\n"[..], &mut first).unwrap();
    let mut second = Vec::new();
    lzma_rs::xz_compress(&mut &b"two\n"[..], &mut second).unwrap();
    assert_eq!(decode_xz(&first, 1024, 1 << 24, "a.xz").unwrap(), b"one\n".to_vec());
    let mut joined = first.clone();
    joined.extend_from_slice(&[0, 0, 0, 0]);
    joined.extend_from_slice(&second);
    assert_eq!(decode_xz(&joined, 1024, 1 << 24, "a.xz").unwrap(), b"one\ntwo\n".to_vec());
    let mut padded = first.clone();
    padded.extend_from_slice(&[0, 0]);
    match decode_xz(&padded, 1024, 1 << 24, "a.xz") {
        Err(Error::Archive { path, message }) => {
            assert_eq!(path, "a.xz");
            assert_eq!(message, "XZ stream padding is not a multiple of four bytes");
        }
        other => panic!("expected an archive error, got {other:?}"),
    }
    match decode_xz(&first, 2, 1 << 24, "a.xz") {
        Err(Error::Limit { message, .. }) => assert_eq!(message, "expanded XZ content exceeds 2 bytes"),
        other => panic!("expected a limit error, got {other:?}"),
    }
}

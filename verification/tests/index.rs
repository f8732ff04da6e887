use weavatrix_search::index::bloom::{bloom_contains, trigram_bloom};
use weavatrix_search::index::codec::{hex, push_u16, push_u32, push_u64, read_u16, read_u32, read_u64, sha256};
use weavatrix_search::index::lookup::{prefilter_trigrams, trigrams};
use weavatrix_search::index::model::IndexEntry;
use weavatrix_search::index::stream::{BuildCollector, BuildControl, BuildEvent};
use weavatrix_search::live::LiveCounters;
use weavatrix_search::{
    CaseMode, EncodingMode, Error, FileEvidenceMode, IndexOptions, LiveIndexOptions, PersistentIndex, SearchBackend,
    SearchOptions, SearchQuery, SourceFile,
};

const LINUX: u8 = 2;

fn source(root_index: usize, path: &str, text: &str) -> SourceFile {
    SourceFile { root_index, path: path.to_string(), bytes: text.as_bytes().to_vec() }
}

fn sample_index() -> PersistentIndex {
    PersistentIndex::build_from_sources(
        vec![b"/repo".to_vec()],
        vec![b"/repo".to_vec()],
        vec![source(0, "b.rs", "fn beta() {}\n"), source(0, "a.rs", "let alpha = 1;\n")],
        IndexOptions::default(),
        LINUX,
    )
    .expect("index builds")
}

fn index_message(error: Error) -> (String, String) {
    match error {
        Error::Index { path, message } => (path, message),
        other => panic!("expected an index error, got {other:?}"),
    }
}

#[test]
fn built_index_orders_entries_and_counts_content() {
    let index = sample_index();
    assert_eq!(index.len(), 2);
    assert!(!index.is_empty());
    assert_eq!(index.content_bytes(), 13 + 15);
    let paths: Vec<&str> = index.entries().iter().map(|entry| entry.path.as_str()).collect();
    assert_eq!(paths, vec!["a.rs", "b.rs"]);
    let status = index.status();
    assert_eq!(status.files, 2);
    assert_eq!(status.content_bytes, 28);
    assert_eq!(status.roots, vec![b"/repo".to_vec()]);
    assert_eq!(status.revision, index.revision());
    assert_eq!(index.revision().len(), 64);
}

#[test]
fn saved_index_reopens_unchanged() {
    let index = sample_index();
    let bytes = index.save("/tmp/index.wvx").expect("index saves");
    assert_eq!(&bytes[0..8], b"WVXIDX01");
    let reopened = PersistentIndex::open(&bytes, "/tmp/index.wvx", IndexOptions::default(), LINUX).expect("index opens");
    assert_eq!(reopened.status(), index.status());
    assert_eq!(reopened.revision(), index.revision());
    let again = reopened.save("/tmp/index.wvx").expect("index saves again");
    assert_eq!(again, bytes);
}

#[test]
fn open_rejects_damaged_files() {
    let index = sample_index();
    let bytes = index.save("i").unwrap();

    let mut magic = bytes.clone();
    magic[0] = b'X';
    let (path, message) = index_message(PersistentIndex::open(&magic, "i", IndexOptions::default(), LINUX).unwrap_err());
    assert_eq!((path.as_str(), message.as_str()), ("i", "invalid magic"));

    let (_, message) = index_message(PersistentIndex::open(&bytes, "i", IndexOptions::default(), 3).unwrap_err());
    assert_eq!(message, "index platform 2 does not match runtime 3");

    let mut trailing = bytes.clone();
    trailing.push(0);
    let (path, message) = index_message(PersistentIndex::open(&trailing, "i", IndexOptions::default(), LINUX).unwrap_err());
    assert_eq!((path.as_str(), message.as_str()), ("<reader>", "unexpected trailing bytes"));

    let truncated = &bytes[..bytes.len() - 1];
    match PersistentIndex::open(truncated, "i", IndexOptions::default(), LINUX).unwrap_err() {
        Error::Io { path, message } => {
            assert_eq!(path, "<reader>");
            assert_eq!(message, "failed to fill whole buffer");
        }
        other => panic!("expected an I/O error, got {other:?}"),
    }

    let mut flipped = bytes.clone();
    let last_content = bytes.len() - 33;
    flipped[last_content] ^= 1;
    let (_, message) = index_message(PersistentIndex::open(&flipped, "i", IndexOptions::default(), LINUX).unwrap_err());
    assert_eq!(message, "checksum mismatch");

    let mut version = bytes.clone();
    version[8] = 2;
    let (_, message) = index_message(PersistentIndex::open(&version, "i", IndexOptions::default(), LINUX).unwrap_err());
    assert_eq!(message, "format version 2 is not supported");

    let small = IndexOptions::default().with_max_index_bytes(10);
    let (_, message) = index_message(PersistentIndex::open(&bytes, "i", small, LINUX).unwrap_err());
    assert_eq!(message, format!("file size {} exceeds 10 bytes", bytes.len()));

    let few = IndexOptions::default().with_max_entries(1);
    let (_, message) = index_message(PersistentIndex::open(&bytes, "i", few, LINUX).unwrap_err());
    assert_eq!(message, "entry count 2 exceeds 1");

    let short_paths = IndexOptions::default().with_max_path_bytes(3);
    let (path, message) = index_message(PersistentIndex::open(&bytes, "i", short_paths, LINUX).unwrap_err());
    assert_eq!((path.as_str(), message.as_str()), ("<reader>", "path length 5 exceeds 3"));

    let zero = IndexOptions::default().with_max_entries(0);
    let (path, message) = index_message(PersistentIndex::open(&bytes, "i", zero, LINUX).unwrap_err());
    assert_eq!((path.as_str(), message.as_str()), ("i", "max_entries must be greater than zero"));
}

#[test]
fn save_refuses_files_over_the_limit() {
    let index = PersistentIndex::build_from_sources(
        vec![b"/repo".to_vec()],
        vec![b"/repo".to_vec()],
        vec![source(0, "a.rs", "alpha")],
        IndexOptions::default().with_max_index_bytes(64),
        LINUX,
    )
    .unwrap();
    let (path, message) = index_message(index.save("i").unwrap_err());
    assert_eq!((path.as_str(), message.as_str()), ("<writer>", "serialized index exceeds 64 bytes"));
}

#[test]
fn build_reports_each_failure() {
    let roots = || vec![b"/repo".to_vec()];
    let (_, message) = index_message(
        PersistentIndex::build_from_sources(vec![], vec![], vec![], IndexOptions::default(), LINUX).unwrap_err(),
    );
    assert_eq!(message, "at least one root is required");

    let (path, message) = index_message(
        PersistentIndex::build_from_sources(roots(), roots(), vec![source(1, "x", "y")], IndexOptions::default(), LINUX)
            .unwrap_err(),
    );
    assert_eq!((path.as_str(), message.as_str()), ("x", "entry root index is out of range"));

    let (path, message) = index_message(
        PersistentIndex::build_from_sources(
            roots(),
            roots(),
            vec![source(0, "big", "0123456789")],
            IndexOptions::default().with_max_content_bytes(4),
            LINUX,
        )
        .unwrap_err(),
    );
    assert_eq!((path.as_str(), message.as_str()), ("big", "content exceeds 4 bytes"));

    let (_, message) = index_message(
        PersistentIndex::build_from_sources(
            roots(),
            roots(),
            vec![source(0, "a", "1"), source(0, "b", "2")],
            IndexOptions::default().with_max_entries(1),
            LINUX,
        )
        .unwrap_err(),
    );
    assert_eq!(message, "entry count exceeds 1");

    let (path, message) = index_message(
        PersistentIndex::build_from_sources(
            roots(),
            roots(),
            vec![source(0, "same", "1"), source(0, "same", "2")],
            IndexOptions::default(),
            LINUX,
        )
        .unwrap_err(),
    );
    assert_eq!((path.as_str(), message.as_str()), ("<memory>", "entries are not strictly ordered"));

    let (_, message) = index_message(
        PersistentIndex::build_from_sources(vec![b"abc".to_vec()], vec![b"abc".to_vec()], vec![], IndexOptions::default(), 1)
            .unwrap_err(),
    );
    assert_eq!(message, "Windows root path has an odd byte length");
}

#[test]
fn index_options_validate_and_clamp_workers() {
    let defaults = IndexOptions::default();
    assert_eq!(defaults.max_entries, 2_000_000);
    assert_eq!(defaults.max_content_bytes, 64 * 1024 * 1024 * 1024);
    assert_eq!(defaults.max_index_bytes, 96 * 1024 * 1024 * 1024);
    assert_eq!(defaults.max_path_bytes, 1024 * 1024);
    assert_eq!(IndexOptions::for_workers(0).build_parallelism, 1);
    assert_eq!(IndexOptions::for_workers(100).search_parallelism, 32);
    assert_eq!(IndexOptions::for_workers(7).with_build_parallelism(3).build_parallelism, 3);
    assert!(defaults.validate("p").is_ok());
    let cases = [
        (defaults.with_parallelism(0), "parallelism must be greater than zero"),
        (defaults.with_max_entries(0), "max_entries must be greater than zero"),
        (defaults.with_max_content_bytes(0), "content and index byte limits must be greater than zero"),
        (defaults.with_max_index_bytes(0), "content and index byte limits must be greater than zero"),
        (defaults.with_max_path_bytes(0), "max_path_bytes must be greater than zero"),
    ];
    for (options, expected) in cases {
        let (path, message) = index_message(options.validate("p").unwrap_err());
        assert_eq!(path, "p");
        assert_eq!(message, expected);
    }
}

#[test]
fn index_search_prefilters_literals() {
    let index = sample_index();
    let report = index.search(SearchQuery::literal("alpha".to_string()), SearchOptions::default()).unwrap();
    assert_eq!(report.backend, SearchBackend::PersistentIndex);
    assert_eq!(report.roots, vec!["/repo".to_string()]);
    assert_eq!(report.matches.len(), 1);
    assert_eq!(report.matches[0].path, "a.rs");
    assert_eq!(report.matches[0].line, "let alpha = 1;");
    let evidence = report.index.expect("index evidence");
    assert!(evidence.prefiltered);
    assert_eq!(evidence.indexed_files, 2);
    assert_eq!(evidence.candidate_files, 1);
    assert_eq!(evidence.revision, index.revision());
    assert_eq!(report.files_searched, 1);
}

#[test]
fn index_search_without_prefilter_verifies_every_file() {
    let index = sample_index();
    let report = index.search(SearchQuery::regex("al.ha".to_string()), SearchOptions::default()).unwrap();
    let evidence = report.index.expect("index evidence");
    assert!(!evidence.prefiltered);
    assert_eq!(evidence.candidate_files, 2);
    assert_eq!(report.files_searched, 2);
    assert_eq!(report.matches.len(), 1);

    let all = SearchOptions::default().with_file_evidence(FileEvidenceMode::All);
    let report = index.search(SearchQuery::literal("alpha".to_string()), all).unwrap();
    assert!(!report.index.unwrap().prefiltered);
    assert_eq!(report.file_evidence.len(), 2);
}

#[test]
fn index_search_rejects_zero_workers() {
    let index = sample_index();
    let error = index.search_with_parallelism(SearchQuery::literal("alpha".to_string()), SearchOptions::default(), 0);
    let (path, message) = index_message(error.unwrap_err());
    assert_eq!((path.as_str(), message.as_str()), ("<memory>", "search parallelism must be greater than zero"));
    match index.search(SearchQuery::literal(String::new()), SearchOptions::default()) {
        Err(Error::EmptyQuery) => {}
        other => panic!("expected an empty query error, got {other:?}"),
    }
}

#[test]
fn bloom_holds_every_trigram_of_the_text() {
    let text = b"fn selection_matcher() {}";
    let bloom = trigram_bloom(text);
    assert_eq!(bloom.len(), 8);
    for trigram in trigrams(b"selection_matcher") {
        assert!(bloom_contains(&bloom, trigram));
    }
    assert!(trigrams(b"ab").is_empty());
    assert_eq!(trigrams(b"abcd"), vec![0x0061_6263, 0x0062_6364]);
}

#[test]
fn prefilter_only_for_long_sensitive_literals() {
    let options = SearchOptions::default();
    assert_eq!(prefilter_trigrams(&SearchQuery::literal("abc".to_string()), &options), Some(vec![vec![0x0061_6263]]));
    assert_eq!(prefilter_trigrams(&SearchQuery::literal("ab".to_string()), &options), None);
    assert_eq!(prefilter_trigrams(&SearchQuery::regex("abc".to_string()), &options), None);
    let insensitive = SearchOptions::default().with_case(CaseMode::Insensitive);
    assert_eq!(prefilter_trigrams(&SearchQuery::literal("abc".to_string()), &insensitive), None);
    let both = SearchQuery::any(vec![SearchQuery::literal("abc".to_string()), SearchQuery::literal("wxyz".to_string())]);
    assert_eq!(prefilter_trigrams(&both, &options), Some(vec![vec![0x0061_6263], vec![0x0077_7879, 0x0078_797a]]));
    let _ = EncodingMode::Auto;
}

#[test]
fn entries_record_digest_and_prefilter_flag() {
    let entry = IndexEntry::from_parts(0, "a.txt".to_string(), b"abc".to_vec());
    assert_eq!(hex(&entry.content_hash), "ba7816bf8f01cfea414140de5dae2223b00361a396177a9cb410ff61f20015ad");
    assert!(entry.prefilterable);
    let archive = IndexEntry::from_parts(0, "a.zip".to_string(), b"abc".to_vec());
    assert!(!archive.prefilterable);
    assert_eq!(archive.bloom, vec![0; 8]);
    let binary = IndexEntry::from_parts(0, "a.bin".to_string(), vec![0xff, 0xfe, 0x00]);
    assert!(!binary.prefilterable);
}

#[test]
fn codec_round_trips_fields() {
    let mut out = Vec::new();
    push_u16(&mut out, 0xbeef);
    push_u32(&mut out, 0x0102_0304);
    push_u64(&mut out, 0x1122_3344_5566_7788);
    assert_eq!(&out[0..2], &[0xef, 0xbe]);
    assert_eq!(&out[2..6], &[0x04, 0x03, 0x02, 0x01]);
    assert_eq!(read_u16(&out, 0), 0xbeef);
    assert_eq!(read_u32(&out, 2), 0x0102_0304);
    assert_eq!(read_u64(&out, 6), 0x1122_3344_5566_7788);
    assert_eq!(hex(&[0x00, 0xff, 0x1a]), "00ff1a");
    assert_eq!(hex(&sha256(b"")), "e3b0c44298fc1c149afbf4c8996fb92427ae41e4649b934ca495991b7852b855");
}

#[test]
fn live_options_and_counters() {
    let options = LiveIndexOptions::default();
    assert_eq!(options.debounce, std::time::Duration::from_millis(75));
    assert_eq!(options.event_buffer, 4096);
    assert!(options.rebuild_on_start);
    assert!(!options.persist_each_batch);
    let trusted = options.trust_existing_snapshot().with_persist_each_batch(true).with_event_buffer(8);
    assert!(!trusted.rebuild_on_start);
    assert!(trusted.persist_each_batch);
    assert_eq!(trusted.event_buffer, 8);
    assert_eq!(options.with_debounce(std::time::Duration::from_secs(1)).debounce, std::time::Duration::from_secs(1));

    let mut counters = LiveCounters::new();
    counters.record_update(2, 1, u64::MAX, true);
    assert!(counters.dirty);
    assert_eq!(counters.batches, 1);
    assert_eq!(counters.changed_files, u64::MAX);
    assert_eq!(counters.full_rebuilds, 1);
    assert_eq!(counters.generation, 1);
    counters.record_update(1, 0, 0, false);
    assert_eq!(counters.changed_files, 0);
    assert_eq!(counters.full_rebuilds, 1);
    counters.record_saved();
    assert!(!counters.dirty);
    let status = counters.status(sample_index().status(), None, true);
    assert_eq!(status.batches, 2);
    assert_eq!(status.generation, 2);
    assert!(status.running);
}

#[test]
fn applied_changes_replace_remove_and_add_entries() {
    let mut index = sample_index();
    let before = index.revision().to_string();
    let report = index
        .apply_changed_entries(
            0,
            &vec!["b.rs".to_string(), "gone.rs".to_string()],
            vec![source(0, "c.rs", "let gamma = 3;\n"), source(0, "a.rs", "let alpha = 2;\n")],
        )
        .expect("update applies");
    let paths: Vec<&str> = index.entries().iter().map(|entry| entry.path.as_str()).collect();
    assert_eq!(paths, vec!["a.rs", "c.rs"]);
    assert_eq!(report.added, 1);
    assert_eq!(report.updated, 1);
    assert_eq!(report.removed, 1);
    assert_eq!(report.files, 2);
    assert_eq!(report.content_bytes, 15 + 15);
    assert_eq!(index.content_bytes(), 30);
    assert_eq!(report.revision, index.revision());
    assert_ne!(report.revision, before);
    assert!(!report.full_rebuild);
    assert_eq!(index.entries()[0].content, b"let alpha = 2;\n".to_vec());
}

#[test]
fn unchanged_update_keeps_the_revision() {
    let mut index = sample_index();
    let before = index.revision().to_string();
    let report = index
        .apply_changed_entries(0, &vec!["a.rs".to_string()], vec![source(0, "a.rs", "let alpha = 1;\n")])
        .expect("update applies");
    assert_eq!((report.added, report.updated, report.removed, report.files), (0, 0, 0, 2));
    assert_eq!(index.revision(), before);
}

#[test]
fn failed_updates_leave_the_index_unchanged() {
    let mut index = sample_index();
    let before = index.revision().to_string();
    let (path, message) = index_message(index.apply_changed_entries(3, &vec![], vec![]).unwrap_err());
    assert_eq!((path.as_str(), message.as_str()), ("<memory>", "root index 3 is invalid"));
    let (path, message) =
        index_message(index.apply_changed_entries(0, &vec![], vec![source(1, "x.rs", "x")]).unwrap_err());
    assert_eq!((path.as_str(), message.as_str()), ("x.rs", "entry root index is out of range"));
    let (path, message) = index_message(
        index
            .apply_changed_entries(0, &vec![], vec![source(0, "d.rs", "1"), source(0, "d.rs", "2")])
            .unwrap_err(),
    );
    assert_eq!((path.as_str(), message.as_str()), ("<memory>", "entries are not strictly ordered"));
    let mut small = PersistentIndex::build_from_sources(
        vec![b"/repo".to_vec()],
        vec![b"/repo".to_vec()],
        vec![source(0, "a.rs", "aaaa")],
        IndexOptions::default().with_max_entries(1).with_max_content_bytes(6),
        LINUX,
    )
    .unwrap();
    let (_, message) = index_message(small.apply_changed_entries(0, &vec![], vec![source(0, "b.rs", "b")]).unwrap_err());
    assert_eq!(message, "entry count exceeds 1");
    let (_, message) =
        index_message(small.apply_changed_entries(0, &vec!["a.rs".to_string()], vec![source(0, "b.rs", "bbbbbbb")]).unwrap_err());
    assert_eq!(message, "content exceeds 6 bytes");
    let (path, message) = index_message(
        small.apply_changed_entries(0, &vec!["a.rs".to_string()], vec![source(0, "b.rs", "bbb"), source(0, "c.rs", "ccc")]).unwrap_err(),
    );
    assert_eq!((path.as_str(), message.as_str()), ("b.rs", "entry count exceeds 1"));
    assert_eq!(small.len(), 1);
    assert_eq!(index.revision(), before);
    assert_eq!(index.len(), 2);
}

#[test]
fn adopted_rebuild_reports_changes_by_key() {
    let mut index = sample_index();
    let rebuilt = PersistentIndex::build_from_sources(
        vec![b"/repo".to_vec()],
        vec![b"/repo".to_vec()],
        vec![source(0, "a.rs", "let alpha = 9;\n"), source(0, "c.rs", "c"), source(0, "d.rs", "d")],
        IndexOptions::default(),
        LINUX,
    )
    .unwrap();
    let revision = rebuilt.revision().to_string();
    let report = index.adopt_rebuild(rebuilt);
    assert_eq!((report.added, report.updated, report.removed, report.files), (2, 1, 1, 3));
    assert_eq!(report.content_bytes, 17);
    assert!(report.full_rebuild);
    assert_eq!(report.revision, revision);
    assert_eq!(index.revision(), revision);
}

#[test]
fn index_counts_survive_record_limits() {
    let index = PersistentIndex::build_from_sources(
        vec![b"/repo".to_vec()],
        vec![b"/repo".to_vec()],
        vec![source(0, "a.rs", "alpha\nalpha alpha\nbeta\n"), source(0, "b.rs", "alpha"), source(0, "c.rs", "gamma")],
        IndexOptions::default(),
        LINUX,
    )
    .unwrap();
    let options = SearchOptions::default().with_max_results(1);
    let report = index.search(SearchQuery::literal("alpha".to_string()), options).unwrap();
    assert_eq!(report.matching_lines, 3);
    assert_eq!(report.occurrences, 4);
    assert_eq!(report.files_with_matches, 2);
    assert_eq!(report.matches.len(), 1);
    assert!(report.truncated);
}

#[test]
fn revisions_are_lowercase_hex_and_follow_the_entries() {
    let index = sample_index();
    assert!(index.revision().chars().all(|c| c.is_ascii_digit() || ('a'..='f').contains(&c)));
    let rebuilt = PersistentIndex::build_from_sources(
        vec![b"/repo".to_vec()],
        vec![b"/repo".to_vec()],
        vec![source(0, "a.rs", "let alpha = 1;\n"), source(0, "b.rs", "fn beta() {}\n")],
        IndexOptions::default(),
        LINUX,
    )
    .expect("index builds");
    assert_eq!(rebuilt.revision(), index.revision());
    assert!(index.len() as u64 <= index.options().max_entries);
}

#[test]
fn index_search_refuses_bad_regex_and_keeps_the_entry_roots() {
    let index = sample_index();
    assert!(matches!(index.search(SearchQuery::regex("(".to_string()), SearchOptions::default()), Err(Error::Regex(_))));
    let report = index.search(SearchQuery::regex("be.a".to_string()), SearchOptions::default()).unwrap();
    assert_eq!(report.matches.len(), 1);
    assert_eq!(report.matches[0].root_index, 0);
    assert_eq!(report.matches[0].path, "b.rs");
    assert!(!report.matches[0].archive);
}

#[test]
fn streamed_files_are_kept_whole_and_unchanged() {
    let limits = IndexOptions::default();
    let mut collector = BuildCollector::new();
    let start = BuildEvent::FileStart { root_index: 0, path: "a.rs".to_string(), declared_bytes: 6 };
    assert_eq!(collector.visit(start, &limits), BuildControl::Continue);
    assert_eq!(collector.visit(BuildEvent::Chunk(b"abc".to_vec()), &limits), BuildControl::Continue);
    assert_eq!(collector.visit(BuildEvent::Chunk(b"def".to_vec()), &limits), BuildControl::Continue);
    assert_eq!(collector.visit(BuildEvent::FileEnd { changed: false, bytes_read: 6 }, &limits), BuildControl::Continue);
    assert_eq!(collector.sources.len(), 1);
    assert_eq!(collector.sources[0].bytes, b"abcdef".to_vec());
    assert_eq!(collector.retained_entries, 1);

    let start = BuildEvent::FileStart { root_index: 0, path: "b.rs".to_string(), declared_bytes: 2 };
    assert_eq!(collector.visit(start, &limits), BuildControl::Continue);
    assert_eq!(collector.visit(BuildEvent::Chunk(b"xy".to_vec()), &limits), BuildControl::Continue);
    assert_eq!(collector.visit(BuildEvent::FileEnd { changed: true, bytes_read: 2 }, &limits), BuildControl::Continue);
    assert_eq!(collector.sources.len(), 1);
    assert!(collector.file.is_none());
}

#[test]
fn streamed_files_stop_at_the_limits() {
    let limits = IndexOptions::default().with_max_content_bytes(4);
    let mut collector = BuildCollector::new();
    let start = BuildEvent::FileStart { root_index: 0, path: "big.rs".to_string(), declared_bytes: 5 };
    assert_eq!(collector.visit(start, &limits), BuildControl::Continue);
    assert_eq!(collector.visit(BuildEvent::Chunk(b"12345".to_vec()), &limits), BuildControl::Quit);
    let (path, message) = index_message(collector.failure.take().expect("a failure"));
    assert_eq!((path.as_str(), message.as_str()), ("big.rs", "content exceeds 4 bytes"));

    let limits = IndexOptions::default().with_max_entries(1);
    let mut collector = BuildCollector::new();
    for name in ["a", "b"] {
        let start = BuildEvent::FileStart { root_index: 0, path: name.to_string(), declared_bytes: 0 };
        assert_eq!(collector.visit(start, &limits), BuildControl::Continue);
        let control = collector.visit(BuildEvent::FileEnd { changed: false, bytes_read: 0 }, &limits);
        assert_eq!(control, if name == "a" { BuildControl::Continue } else { BuildControl::Quit });
    }
    assert_eq!(collector.sources.len(), 1);
    let failed = collector.visit(BuildEvent::Chunk(b"z".to_vec()), &limits);
    assert_eq!(failed, BuildControl::Quit);
    let (path, message) = index_message(collector.failure.take().expect("a failure"));
    assert_eq!((path.as_str(), message.as_str()), ("b", "entry count exceeds 1"));
}

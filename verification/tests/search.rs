use std::io::Write;
use weavatrix_search::searcher::search_sources;
use weavatrix_search::{
    search, search_many, write_report, write_warnings, ArchiveOptions, BinaryPolicy, CaseMode, EncodingMode, Error,
    FileEvidenceMode,
    OutputFormat, ResultMode, SearchBackend, SearchErrorPolicy, SearchMode, SearchOptions, SearchQuery,
    SearchWarningKind, SourceFile,
};

fn source(root_index: usize, path: &str, bytes: &[u8]) -> SourceFile {
    SourceFile { root_index, path: path.to_string(), bytes: bytes.to_vec() }
}

fn gzip(bytes: &[u8]) -> Vec<u8> {
    let mut encoder = flate2::write::GzEncoder::new(Vec::new(), flate2::Compression::default());
    encoder.write_all(bytes).unwrap();
    encoder.finish().unwrap()
}

fn zip_of(members: &[(&str, &[u8])]) -> Vec<u8> {
    let mut writer = zip::ZipWriter::new(std::io::Cursor::new(Vec::new()));
    for (name, content) in members {
        let options = zip::write::SimpleFileOptions::default().compression_method(zip::CompressionMethod::Stored);
        writer.start_file(*name, options).unwrap();
        writer.write_all(content).unwrap();
    }
    writer.finish().unwrap().into_inner()
}

fn tar_of(members: &[(&str, &[u8])]) -> Vec<u8> {
    let mut builder = tar::Builder::new(Vec::new());
    for (name, content) in members {
        let mut header = tar::Header::new_gnu();
        header.set_size(content.len() as u64);
        header.set_mode(0o644);
        header.set_cksum();
        builder.append_data(&mut header, name, *content).unwrap();
    }
    builder.into_inner().unwrap()
}

#[test]
fn literal_search_reports_line_spans_and_offsets() {
    let sources = vec![source(0, "src/lib.rs", b"fn main() {}\nlet needle = 1;\nneedle needle\n")];
    let report = search("repo".to_string(), &sources, SearchQuery::literal("needle".to_string())).unwrap();
    assert_eq!(report.backend, SearchBackend::Filesystem);
    assert!(report.index.is_none());
    assert_eq!(report.roots, vec!["repo".to_string()]);
    assert_eq!(report.files_searched, 1);
    assert_eq!(report.bytes_searched, sources[0].bytes.len() as u64);
    assert_eq!(report.matching_lines, 2);
    assert_eq!(report.occurrences, 3);
    assert_eq!(report.files_with_matches, 1);
    assert_eq!(report.matches.len(), 2);
    let first = &report.matches[0];
    assert_eq!(first.line_number, 2);
    assert_eq!(first.line, "let needle = 1;");
    assert_eq!(first.decoded_byte_offset, 13);
    assert_eq!((first.spans[0].start, first.spans[0].end), (4, 10));
    assert_eq!(first.encoding, "UTF-8");
    let second = &report.matches[1];
    assert_eq!(second.spans.len(), 2);
    assert_eq!((second.spans[1].start, second.spans[1].end), (7, 13));
}

#[test]
fn search_many_keeps_root_order() {
    let sources = vec![source(0, "a.txt", b"x marks\n"), source(1, "b.txt", b"x again\n")];
    let report =
        search_many("one".to_string(), vec!["two".to_string()], &sources, SearchQuery::literal("x".to_string())).unwrap();
    assert_eq!(report.roots, vec!["one".to_string(), "two".to_string()]);
    assert_eq!(report.matches.len(), 2);
    assert_eq!(report.matches[0].root_index, 0);
    assert_eq!(report.matches[1].root_index, 1);
    assert_eq!(report.files_searched, 2);
}

#[test]
fn setup_failures_come_before_any_source() {
    let sources = vec![source(0, "a", b"abc")];
    let options = SearchOptions::default();
    match search_sources(vec![], &sources, &SearchQuery::literal(String::new()), &options) {
        Err(Error::EmptyQuery) => {}
        other => panic!("expected an empty query, got {other:?}"),
    }
    match search_sources(vec![], &sources, &SearchQuery::any(vec![]), &options) {
        Err(Error::EmptyQuery) => {}
        other => panic!("expected an empty query, got {other:?}"),
    }
    match search_sources(vec![], &sources, &SearchQuery::regex("(".to_string()), &options) {
        Err(error @ Error::Regex(_)) => assert!(error.describe().starts_with("invalid regular expression: ")),
        other => panic!("expected a regex error, got {other:?}"),
    }
    let labelled = SearchOptions::default().with_encoding(EncodingMode::Label("no-such-label".to_string()));
    match search_sources(vec![], &sources, &SearchQuery::literal("a".to_string()), &labelled) {
        Err(Error::InvalidEncoding(label)) => assert_eq!(label, "no-such-label"),
        other => panic!("expected an encoding error, got {other:?}"),
    }
}

#[test]
fn quiet_mode_stops_after_the_first_match() {
    let sources = vec![source(0, "a", b"hit\n"), source(0, "b", b"hit\n"), source(0, "c", b"hit\n")];
    let options = SearchOptions::default().with_result_mode(ResultMode::Quiet);
    let report = search_sources(vec!["r".to_string()], &sources, &SearchQuery::literal("hit".to_string()), &options).unwrap();
    assert_eq!(report.files_searched, 1);
    assert_eq!(report.files_with_matches, 1);
    assert!(report.matches.is_empty());
}

#[test]
fn count_mode_summarizes_files() {
    let sources = vec![source(0, "a", b"x\nx\ny\n"), source(0, "b", b"y\n")];
    let options = SearchOptions::default().with_result_mode(ResultMode::Count);
    let report = search_sources(vec!["r".to_string()], &sources, &SearchQuery::literal("x".to_string()), &options).unwrap();
    assert_eq!(report.matched_files.len(), 1);
    assert_eq!(report.matched_files[0].path, "a");
    assert_eq!(report.matched_files[0].matching_lines, 2);
    assert_eq!(report.matching_lines, 2);
    let mut out = Vec::new();
    let _ = write_report(&report, OutputFormat::Text, &mut out);
    assert_eq!(String::from_utf8(out).unwrap(), "a:2\n");
}

#[test]
fn binary_sources_are_skipped_with_a_warning() {
    let sources = vec![source(0, "blob", b"needle\0rest")];
    let report = search("r".to_string(), &sources, SearchQuery::literal("needle".to_string())).unwrap();
    assert!(report.matches.is_empty());
    assert_eq!(report.warnings.len(), 1);
    assert_eq!(report.warnings[0].kind, SearchWarningKind::Binary);
    assert_eq!(report.warnings[0].message, "binary file skipped after NUL-byte detection");
    let searched = SearchOptions::default().with_binary_policy(BinaryPolicy::Search);
    let report = search_sources(vec![], &sources, &SearchQuery::literal("needle".to_string()), &searched).unwrap();
    assert_eq!(report.matches.len(), 1);
}

#[test]
fn case_insensitive_and_multiline_modes() {
    let sources = vec![source(0, "a", b"Alpha\nbeta\n")];
    let insensitive = SearchOptions::default().with_case(CaseMode::Insensitive);
    let report = search_sources(vec![], &sources, &SearchQuery::literal("ALPHA".to_string()), &insensitive).unwrap();
    assert_eq!(report.matches.len(), 1);
    let smart = SearchOptions::default().with_case(CaseMode::Smart);
    let report = search_sources(vec![], &sources, &SearchQuery::literal("alpha".to_string()), &smart).unwrap();
    assert_eq!(report.matches.len(), 1);
    let multiline = SearchOptions::default().with_mode(SearchMode::Multiline);
    let report = search_sources(vec![], &sources, &SearchQuery::regex("ha\\nbe".to_string()), &multiline).unwrap();
    assert_eq!(report.matches.len(), 1);
    assert_eq!(report.matches[0].line_number, 1);
    assert_eq!(report.matches[0].end_line_number, 2);
}

#[test]
fn context_lines_surround_matches() {
    let sources = vec![source(0, "a", b"one\ntwo\nthree\nfour\n")];
    let options = SearchOptions::default().with_context(1, 1);
    let report = search_sources(vec![], &sources, &SearchQuery::literal("three".to_string()), &options).unwrap();
    let found = &report.matches[0];
    assert_eq!(found.before.len(), 1);
    assert_eq!(found.before[0].text, "two");
    assert_eq!(found.after.len(), 1);
    assert_eq!(found.after[0].line_number, 4);
    let mut out = Vec::new();
    let _ = write_report(&report, OutputFormat::Text, &mut out);
    assert_eq!(String::from_utf8(out).unwrap(), "a-2-two\na:3:three\na-4-four\n");
}

#[test]
fn gzip_members_are_searched_by_their_stem() {
    let sources = vec![source(0, "notes.txt.gz", &gzip(b"hidden needle\n"))];
    let report = search("r".to_string(), &sources, SearchQuery::literal("needle".to_string())).unwrap();
    assert_eq!(report.matches.len(), 1);
    assert_eq!(report.matches[0].path, "notes.txt.gz!notes.txt");
    assert!(report.matches[0].archive);
    let disabled = SearchOptions::default().with_archives(ArchiveOptions { enabled: false, ..ArchiveOptions::default() });
    let report = search_sources(vec![], &sources, &SearchQuery::literal("needle".to_string()), &disabled).unwrap();
    assert!(report.matches.is_empty());
}

#[test]
fn tar_members_are_searched_and_unsafe_paths_skipped() {
    let archive = tar_of(&[("dir/inner.txt", b"tar needle\n"), ("other.txt", b"nothing\n")]);
    let sources = vec![source(0, "bundle.tar", &archive)];
    let report = search("r".to_string(), &sources, SearchQuery::literal("needle".to_string())).unwrap();
    assert_eq!(report.matches.len(), 1);
    assert_eq!(report.matches[0].path, "bundle.tar!dir/inner.txt");

    let compressed = vec![source(0, "bundle.tgz", &gzip(&archive))];
    let report = search("r".to_string(), &compressed, SearchQuery::literal("needle".to_string())).unwrap();
    assert_eq!(report.matches[0].path, "bundle.tgz!dir/inner.txt");
}

#[test]
fn expansion_limits_stop_oversized_members() {
    let sources = vec![source(0, "big.txt.gz", &gzip(&[b'a'; 4096]))];
    let tight = SearchOptions::default().with_archives(ArchiveOptions { max_entry_bytes: 100, ..ArchiveOptions::default() });
    let report = search_sources(vec![], &sources, &SearchQuery::literal("a".to_string()), &tight).unwrap();
    assert!(report.matches.is_empty());
    assert_eq!(report.warnings.len(), 1);
    assert_eq!(report.warnings[0].kind, SearchWarningKind::Archive);
    assert_eq!(report.warnings[0].message, "failed to search archive big.txt.gz: expanded content exceeds the 100 byte limit");

    let abort = tight.clone().with_error_policy(SearchErrorPolicy::Abort);
    match search_sources(vec![], &sources, &SearchQuery::literal("a".to_string()), &abort) {
        Err(Error::Archive { path, message }) => {
            assert_eq!(path, "big.txt.gz");
            assert_eq!(message, "expanded content exceeds the 100 byte limit");
        }
        other => panic!("expected an archive error, got {other:?}"),
    }
}

#[test]
fn corrupt_archives_warn_under_continue() {
    let sources = vec![source(0, "broken.gz", b"not gzip at all"), source(0, "ok.txt", b"fine\n")];
    let report = search("r".to_string(), &sources, SearchQuery::literal("fine".to_string())).unwrap();
    assert_eq!(report.files_searched, 2);
    assert_eq!(report.matches.len(), 1);
    assert_eq!(report.warnings.len(), 1);
    assert_eq!(report.warnings[0].path, "broken.gz");
    assert_eq!(report.warnings[0].kind, SearchWarningKind::Archive);
}

#[test]
fn json_lines_end_with_a_summary() {
    let sources = vec![source(0, "a", b"x\n")];
    let report = search("r".to_string(), &sources, SearchQuery::literal("x".to_string())).unwrap();
    let mut out = Vec::new();
    let _ = write_report(&report, OutputFormat::JsonLines, &mut out);
    let text = String::from_utf8(out).unwrap();
    let lines: Vec<&str> = text.lines().collect();
    assert_eq!(lines.len(), 2);
    assert!(lines[0].starts_with("{\"type\":\"match\",\"data\":{\"path\":\"a\",\"root_index\":0,\"line_number\":1,"));
    assert_eq!(
        lines[1],
        "{\"type\":\"summary\",\"data\":{\"matching_lines\":1,\"occurrences\":1,\"files_with_matches\":1,\
\"files_searched\":1,\"bytes_searched\":2,\"truncated\":false,\"warnings_dropped\":0,\"backend\":\"filesystem\",\
\"index\":null,\"roots\":[\"r\"]}}"
    );
}

#[test]
fn warnings_are_written_one_per_line() {
    let sources = vec![source(0, "blob", b"\0")];
    let report = search("r".to_string(), &sources, SearchQuery::literal("x".to_string())).unwrap();
    let mut out = Vec::new();
    write_warnings(&report, &mut out);
    let text = String::from_utf8(out).unwrap();
    assert_eq!(text.lines().count(), 1);
    assert!(text.contains("blob"));
}

#[test]
fn result_limits_truncate_records_but_not_counts() {
    let sources = vec![source(0, "a", b"x\nx\nx\n")];
    let options = SearchOptions::default().with_max_results(2);
    let report = search_sources(vec![], &sources, &SearchQuery::literal("x".to_string()), &options).unwrap();
    assert_eq!(report.matches.len(), 2);
    assert!(report.truncated);
    assert_eq!(report.matching_lines, 3);
}

#[test]
fn error_descriptions_name_path_and_detail() {
    let error = Error::Archive { path: "a.zip".to_string(), message: "bad".to_string() };
    assert_eq!(error.describe(), "failed to search archive a.zip: bad");
    assert_eq!(Error::EmptyQuery.describe(), "search query must not be empty");
    assert_eq!(Error::InvalidEncoding("x".to_string()).describe(), "unknown encoding label: x");
    let error = Error::Limit { path: "p".to_string(), message: "m".to_string() };
    assert_eq!(error.describe(), "search limit reached for p: m");
    let error = Error::Io { path: "p".to_string(), message: "m".to_string() };
    assert_eq!(error.describe(), "failed to read p: m");
    let error = Error::Index { path: "p".to_string(), message: "m".to_string() };
    assert_eq!(error.describe(), "invalid index p: m");
}

#[test]
fn lzma_files_are_searched_by_their_stem() {
    let mut packed = Vec::new();
    lzma_rs::lzma_compress(&mut &b"one\nlzma needle\n"[..], &mut packed).unwrap();
    let sources = vec![source(0, "notes.txt.lzma", &packed)];
    let report = search("r".to_string(), &sources, SearchQuery::literal("needle".to_string())).unwrap();
    assert_eq!(report.matches.len(), 1);
    assert_eq!(report.matches[0].path, "notes.txt.lzma!notes.txt");
    assert_eq!(report.matches[0].line_number, 2);
}

#[test]
fn lz4_and_zstd_files_are_searched_by_their_stem() {
    let mut encoder = lz4_flex::frame::FrameEncoder::new(Vec::new());
    encoder.write_all(b"lz4 needle\n").unwrap();
    let lz4 = encoder.finish().unwrap();
    let zstd = ruzstd::encoding::compress_to_vec(&b"first\nzstd needle\n"[..], ruzstd::encoding::CompressionLevel::Fastest);
    let sources = vec![source(0, "a.txt.lz4", &lz4), source(0, "b.txt.zst", &zstd)];
    let report = search("r".to_string(), &sources, SearchQuery::literal("needle".to_string())).unwrap();
    assert_eq!(report.matches.len(), 2);
    assert_eq!(report.matches[0].path, "a.txt.lz4!a.txt");
    assert_eq!(report.matches[1].path, "b.txt.zst!b.txt");
    assert_eq!(report.matches[1].line_number, 2);
}

#[test]
fn zip_members_are_searched_and_unsafe_paths_warned() {
    let archive = zip_of(&[("dir/a.txt", b"zip needle\n"), ("../evil.txt", b"needle\n")]);
    let sources = vec![source(0, "bundle.zip", &archive)];
    let report = search("r".to_string(), &sources, SearchQuery::literal("needle".to_string())).unwrap();
    assert_eq!(report.matches.len(), 1);
    assert_eq!(report.matches[0].path, "bundle.zip!dir/a.txt");
    assert!(report.matches[0].archive);
    assert_eq!(report.warnings.len(), 1);
    assert_eq!(report.warnings[0].path, "bundle.zip");
    assert_eq!(report.warnings[0].kind, SearchWarningKind::Archive);
    assert_eq!(report.warnings[0].message, "unsafe ZIP member path was skipped: ../evil.txt");
}

#[test]
fn zip_entry_limit_warns_and_searches_the_first_members() {
    let archive = zip_of(&[("a.txt", b"needle\n"), ("b.txt", b"needle\n"), ("c.txt", b"needle\n")]);
    let sources = vec![source(0, "bundle.zip", &archive)];
    let options = SearchOptions::default().with_archives(ArchiveOptions { max_entries: 2, ..ArchiveOptions::default() });
    let report = search_sources(vec![], &sources, &SearchQuery::literal("needle".to_string()), &options).unwrap();
    assert_eq!(report.matches.len(), 2);
    assert_eq!(report.matches[0].path, "bundle.zip!a.txt");
    assert_eq!(report.matches[1].path, "bundle.zip!b.txt");
    assert_eq!(report.warnings.len(), 1);
    assert_eq!(report.warnings[0].kind, SearchWarningKind::Limit);
    assert_eq!(report.warnings[0].message, "archive has 3 entries; only the first 2 are searched");
}

#[test]
fn tar_entry_limit_warns_and_stops() {
    let archive = tar_of(&[("a.txt", b"needle\n"), ("b.txt", b"needle\n"), ("c.txt", b"needle\n")]);
    let sources = vec![source(0, "bundle.tar", &archive)];
    let options = SearchOptions::default().with_archives(ArchiveOptions { max_entries: 2, ..ArchiveOptions::default() });
    let report = search_sources(vec![], &sources, &SearchQuery::literal("needle".to_string()), &options).unwrap();
    assert_eq!(report.matches.len(), 2);
    assert_eq!(report.matches[1].path, "bundle.tar!b.txt");
    assert_eq!(report.warnings.len(), 1);
    assert_eq!(report.warnings[0].path, "bundle.tar");
    assert_eq!(report.warnings[0].kind, SearchWarningKind::Limit);
    assert_eq!(report.warnings[0].message, "archive entry count exceeds 2; remaining members were skipped");
}

#[test]
fn archive_members_over_budget_are_warned_about() {
    let archive = tar_of(&[("big.txt", &[b'n'; 64]), ("small.txt", b"needle\n")]);
    let sources = vec![source(0, "bundle.tar", &archive)];
    let options = SearchOptions::default().with_archives(ArchiveOptions { max_entry_bytes: 16, ..ArchiveOptions::default() });
    let report = search_sources(vec![], &sources, &SearchQuery::literal("needle".to_string()), &options).unwrap();
    assert_eq!(report.matches.len(), 1);
    assert_eq!(report.matches[0].path, "bundle.tar!small.txt");
    assert_eq!(report.warnings.len(), 1);
    assert_eq!(report.warnings[0].path, "bundle.tar!big.txt");
    assert_eq!(report.warnings[0].kind, SearchWarningKind::Limit);
    assert_eq!(report.warnings[0].message, "archive member exceeds configured expansion limits");
}

#[test]
fn regex_line_records_carry_the_regex_matches() {
    let sources = vec![source(0, "a", b"x neeedle y needle\n")];
    let report = search("r".to_string(), &sources, SearchQuery::regex("ne+dle".to_string())).unwrap();
    assert_eq!(report.matches.len(), 1);
    let spans: Vec<(usize, usize)> = report.matches[0].spans.iter().map(|span| (span.start, span.end)).collect();
    assert_eq!(spans, vec![(2, 9), (12, 18)]);
    assert_eq!(report.occurrences, 2);
}

#[test]
fn refused_regex_fails_and_accepted_regex_searches_under_continue() {
    let sources = vec![source(0, "a", b"needle\n")];
    let refused = search("r".to_string(), &sources, SearchQuery::regex("(".to_string()));
    assert!(matches!(refused, Err(Error::Regex(_))));
    let lenient = SearchOptions::default().with_error_policy(SearchErrorPolicy::Continue);
    let accepted = search_sources(vec![], &sources, &SearchQuery::regex("ne+dle".to_string()), &lenient).unwrap();
    assert_eq!(accepted.matches.len(), 1);
}

#[test]
fn tar_member_records_carry_the_root_and_the_archive_flag() {
    let archive = tar_of(&[("plain.txt", b"one\nneedle\n")]);
    let sources = vec![source(2, "bundle.tar", &archive)];
    let report = search_sources(vec![], &sources, &SearchQuery::literal("needle".to_string()), &SearchOptions::default()).unwrap();
    assert_eq!(report.matches.len(), 1);
    let found = &report.matches[0];
    assert_eq!(found.root_index, 2);
    assert_eq!(found.path, "bundle.tar!plain.txt");
    assert!(found.archive);
    assert_eq!(found.line_number, 2);
    assert_eq!(found.source_byte_offset, Some(4));
    assert_eq!(found.encoding, "UTF-8");
}

#[test]
fn multiline_count_mode_sums_the_blocks() {
    let sources = vec![source(0, "a", b"ab\ncd\nab\n")];
    let options = SearchOptions::default()
        .with_mode(SearchMode::Multiline)
        .with_result_mode(ResultMode::Count)
        .with_file_evidence(FileEvidenceMode::All);
    let report = search_sources(vec![], &sources, &SearchQuery::regex("ab".to_string()), &options).unwrap();
    assert!(report.matches.is_empty());
    assert_eq!(report.matched_files.len(), 1);
    assert_eq!(report.matched_files[0].matching_lines, 2);
    assert_eq!(report.matched_files[0].occurrences, 2);
    assert_eq!(report.matching_lines, 2);
    assert_eq!(report.occurrences, 2);
    assert_eq!(report.file_evidence.len(), 1);
    assert_eq!(report.file_evidence[0].total_lines, 3);
}

#[test]
fn multiline_blocks_spanning_lines_count_each_line() {
    let sources = vec![source(0, "a", b"x1\nx2\ny\nx3\n")];
    let options = SearchOptions::default().with_mode(SearchMode::Multiline).with_result_mode(ResultMode::Count);
    let report = search_sources(vec![], &sources, &SearchQuery::regex("x\\d\\nx".to_string()), &options).unwrap();
    assert_eq!(report.matched_files[0].occurrences, 1);
    assert_eq!(report.matched_files[0].matching_lines, 2);
}

#[test]
fn source_failures_become_warnings_on_the_source_under_continue() {
    let sources = vec![source(1, "broken.zip", b"not a zip"), source(1, "b", b"needle\n")];
    let lenient = SearchOptions::default().with_error_policy(SearchErrorPolicy::Continue);
    let report = search_sources(vec![], &sources, &SearchQuery::literal("needle".to_string()), &lenient).unwrap();
    assert_eq!(report.files_searched, 2);
    assert_eq!(report.warnings.len(), 1);
    assert_eq!(report.warnings[0].path, "broken.zip");
    assert_eq!(report.warnings[0].kind, SearchWarningKind::Archive);
    assert_eq!(report.matches.len(), 1);
    assert_eq!(report.matches[0].root_index, 1);
    let strict = SearchOptions::default().with_error_policy(SearchErrorPolicy::Abort);
    assert!(search_sources(vec![], &sources, &SearchQuery::literal("needle".to_string()), &strict).is_err());
}

#[test]
fn line_count_mode_records_each_matched_file_with_its_counts() {
    let sources = vec![source(0, "a", b"x x\ny\nx"), source(1, "b", b"none\n")];
    let options = SearchOptions::default().with_result_mode(ResultMode::Count).with_file_evidence(FileEvidenceMode::All);
    let report = search_sources(vec![], &sources, &SearchQuery::literal("x".to_string()), &options).unwrap();
    assert!(report.matches.is_empty());
    assert_eq!(report.matched_files.len(), 1);
    assert_eq!(report.matched_files[0].path, "a");
    assert_eq!(report.matched_files[0].matching_lines, 2);
    assert_eq!(report.matched_files[0].occurrences, 3);
    assert_eq!(report.file_evidence.len(), 2);
    assert_eq!(report.file_evidence[0].total_lines, 3);
    assert_eq!(report.file_evidence[1].root_index, 1);
    assert_eq!(report.file_evidence[1].occurrences, 0);
}

#[test]
fn records_of_several_roots_name_their_roots_in_root_order() {
    let sources = vec![source(0, "a.txt", b"hit\n"), source(1, "b.txt", b"hit\n"), source(2, "c.txt", b"hit\n")];
    let report = search_many(
        "first".to_string(),
        vec!["second".to_string(), "third".to_string()],
        &sources,
        SearchQuery::literal("hit".to_string()),
    )
    .unwrap();
    assert_eq!(report.roots.len(), 3);
    let roots: Vec<usize> = report.matches.iter().map(|found| found.root_index).collect();
    assert_eq!(roots, vec![0, 1, 2]);
    assert!(report.matches.iter().all(|found| found.root_index < 3));
}

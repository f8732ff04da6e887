//! Search of complete in-memory sources into one deterministic report.
use vstd::prelude::*;

use vstd::utf8::encode_utf8;
use crate::archive::{archive_searched, kind, kind_of, lemma_archive_rooted, search_archive, warned_once, ArchiveKind};
use crate::collector::{fresh_collector, lemma_retained_rooted, rooted, Collected, Collector};
use crate::encoding::{complete_outcome, counted, given_identity, is_streaming_utf8, lemma_complete_rooted, search_complete_bytes, source_line_counts, streams_utf8};
use crate::error::{error_text, Error, Result};
use crate::line_search::{counters, SearchIdentity};
use crate::options::{CaseMode, ResultMode, SearchErrorPolicy, SearchMode, SearchOptions};
use crate::query::{cache_matches, prepared, query_matcher, regex_accepts, regex_sources, CompiledQuery, QueryCache, SearchQuery, SpecMatcher, SpecPattern};
use crate::report::{IndexEvidence, SearchBackend, SearchReport, SearchWarning, SearchWarningKind};
use crate::ranking::sorted_by_rank;

verus! {

/// One complete source handed to the searcher.
pub struct SourceFile {
    /// Index of the root the source belongs to.
    pub root_index: usize,
    /// Root-relative display path.
    pub path: String,
    /// Raw source bytes.
    pub bytes: Vec<u8>,
}

/// Total bytes of the first `n` sources.
pub open spec fn total_bytes(sources: Seq<SourceFile>, n: int) -> nat
    decreases n,
{
    if n <= 0 {
        0
    } else {
        total_bytes(sources, n - 1) + sources[n - 1].bytes@.len()
    }
}

/// `n` capped at the largest `u64`.
pub open spec fn saturated(n: nat) -> u64 {
    if n > u64::MAX { u64::MAX } else { n as u64 }
}

/// Whether a query and encoding mode are usable: every pattern is
/// non-empty and an explicit encoding label is known.
pub open spec fn query_usable(query: SearchQuery, options: SearchOptions) -> bool {
    patterns_present(query, options) && streams_utf8(options.encoding) is Some
}

/// Whether the query prepares at least one pattern and none is empty.
pub open spec fn patterns_present(query: SearchQuery, options: SearchOptions) -> bool {
    prepared(query, options.case) matches Some(found) && found.len() > 0
}

/// Whether the patterns of a query go to the regex engine and the engine
/// refuses them.
pub open spec fn regex_refused(query: SearchQuery, case: CaseMode) -> bool {
    search_matcher(query, case) matches Some(SpecMatcher::Regex(sources)) && !regex_accepts(sources)
}

/// The failures a search reports before it reads any source: an empty
/// pattern, then patterns the regex engine refuses, then an unknown
/// encoding label. A regex failure comes from nothing else.
pub open spec fn setup_failure(result: Result<SearchReport>, query: SearchQuery, options: SearchOptions) -> bool {
    &&& !patterns_present(query, options) ==> (result is Err && result->Err_0 is EmptyQuery)
    &&& regex_refused(query, options.case) ==> (result is Err && result->Err_0 is Regex)
    &&& patterns_present(query, options) && !regex_refused(query, options.case) && streams_utf8(options.encoding) is None
        ==> (result is Err && result->Err_0 is InvalidEncoding)
    &&& (result is Err && result->Err_0 is Regex) ==> regex_refused(query, options.case)
}

/// The shape every report of the searcher has.
pub open spec fn report_bounds(report: SearchReport, options: SearchOptions) -> bool {
    &&& report.matches@.len() <= options.max_results
    &&& report.matched_files@.len() <= options.max_results
    &&& report.file_evidence@.len() <= options.max_file_evidence
    &&& report.warnings@.len() <= options.max_warnings
    &&& report.result_mode == options.result_mode
    &&& sorted_by_rank(report.matches@)
    &&& sorted_by_rank(report.matched_files@)
    &&& sorted_by_rank(report.file_evidence@)
    &&& sorted_by_rank(report.warnings@)
}

/// A source searched as plain text: archives are disabled, or its path
/// names no archive.
pub open spec fn plain_source(path: Seq<char>, options: SearchOptions) -> bool {
    !(options.archives.enabled && kind_of(encode_utf8(path)) is Some)
}

/// The needle of a query that prepares to one case-sensitive literal.
pub open spec fn sensitive_literal(query: SearchQuery, case: CaseMode) -> Option<Seq<u8>> {
    match prepared(query, case) {
        Some(found) => if found.len() == 1 && found[0] is SensitiveLiteral {
            Some(encode_utf8(found[0]->SensitiveLiteral_0))
        } else {
            None
        },
        None => None,
    }
}

/// What finds the matches of a query whose patterns are usable: its one
/// case-sensitive literal, or the regex built from its patterns.
pub open spec fn search_matcher(query: SearchQuery, case: CaseMode) -> Option<SpecMatcher> {
    match prepared(query, case) {
        Some(found) => if found.len() == 0 {
            None
        } else if found.len() == 1 && found[0] is SensitiveLiteral {
            Some(SpecMatcher::Literal(encode_utf8(found[0]->SensitiveLiteral_0)))
        } else {
            Some(SpecMatcher::Regex(regex_sources(found)))
        },
        None => None,
    }
}

/// The matching lines, matches and matched files a line search of the
/// first `n` sources with `matcher` counts, each sum wrapping.
pub open spec fn total_counts(sources: Seq<SourceFile>, n: int, options: SearchOptions, matcher: SpecMatcher) -> (u64, u64, u64)
    decreases n,
{
    if n <= 0 {
        (0, 0, 0)
    } else {
        let before = total_counts(sources, n - 1, options, matcher);
        let counts = source_line_counts(sources[n - 1].bytes@, options, matcher);
        if counts.1 > 0 {
            (before.0.wrapping_add(counts.0), before.1.wrapping_add(counts.1), before.2.wrapping_add(1))
        } else {
            before
        }
    }
}

/// Aggregate counts do not depend on how many records, file evidence
/// entries or warnings are retained: the counts of a search with any other
/// retention limits are the same.
pub proof fn lemma_counts_ignore_retention(
    sources: Seq<SourceFile>,
    n: int,
    options: SearchOptions,
    max_results: usize,
    max_file_evidence: usize,
    max_warnings: usize,
    matcher: SpecMatcher,
)
    ensures
        total_counts(sources, n, options, matcher) == total_counts(sources, n,
            SearchOptions { max_results, max_file_evidence, max_warnings, ..options }, matcher),
    decreases n,
{
    if n > 0 {
        lemma_counts_ignore_retention(sources, n - 1, options, max_results, max_file_evidence, max_warnings, matcher);
    }
}

/// The archive kind a source at `path` is expanded as, if any.
pub open spec fn source_archive(path: Seq<char>, options: SearchOptions) -> Option<ArchiveKind> {
    if options.archives.enabled { kind_of(encode_utf8(path)) } else { None }
}

/// What searching one complete source at `path` under root `root_index`
/// does: an archive is searched as `archive_searched` says; anything else
/// is decoded and searched as a plain source (see `complete_outcome`).
pub open spec fn source_searched(
    before: Collector,
    after: Collector,
    result: Result<()>,
    root_index: usize,
    path: Seq<char>,
    bytes: Seq<u8>,
    query: CompiledQuery,
    options: SearchOptions,
) -> bool {
    match source_archive(path, options) {
        Some(archive_kind) => archive_searched(archive_kind, root_index, path, bytes, before, after, result, query, options),
        None => exists|given: SearchIdentity| given_identity(given, root_index, path, bytes.len(), false)
            && #[trigger] complete_outcome(before, after, result, given, bytes, query, options),
    }
}

/// Searches one complete source: a recognized archive is expanded when
/// archives are enabled; anything else is decoded and searched directly.
pub fn search_source(
    root_index: usize,
    path: &String,
    bytes: &[u8],
    query: &CompiledQuery,
    cache: &mut QueryCache,
    options: &SearchOptions,
    collector: &mut Collector,
) -> (result: Result<()>)
    requires
        old(collector).wf(),
        cache_matches(query, old(cache)),
        query is Literal ==> query->Literal_0@.len() > 0,
    ensures
        final(collector).wf(),
        final(collector).kept_setup(*old(collector)),
        cache_matches(query, final(cache)),
        source_searched(*old(collector), *final(collector), result, root_index, path@, bytes@, *query, *options),
        plain_source(path@, *options) && options.mode == SearchMode::Line && old(collector).mode() != ResultMode::Quiet
            ==> counted(*old(collector), *final(collector), source_line_counts(bytes@, *options, query_matcher(*query))),
{
    let found = if options.archives.enabled { kind(path.as_str()) } else { None };
    match found {
        Some(archive_kind) => search_archive(archive_kind, root_index, path.as_str(), bytes, query, cache, options, collector),
        None => {
            let identity = SearchIdentity {
                root_index,
                path: path.clone(),
                source_bytes: bytes.len() as u64,
                encoding: String::new(),
                archive: false,
                source_offset_base: None,
                lossy: false,
            };
            let ghost given = identity;
            let result = search_complete_bytes(identity, bytes, query, cache, options, collector);
            proof {
                assert(given_identity(given, root_index, path@, bytes@.len(), false));
                assert(complete_outcome(*old(collector), *collector, result, given, bytes@, *query, *options));
            }
            result
        }
    }
}

/// The warning kind a source failure is retained as.
pub open spec fn failure_kind(error: Error) -> SearchWarningKind {
    match error {
        Error::Limit { .. } => SearchWarningKind::Limit,
        Error::InvalidEncoding(_) => SearchWarningKind::Encoding,
        _ => SearchWarningKind::Archive,
    }
}

/// How a search handles the failure of the source at `path`: under `Abort`
/// the failure becomes the fatal one unless one was recorded; under
/// `Continue` one warning on the source is offered, with the failure's
/// text. Records and counters stay.
pub open spec fn failure_handled(before: Collector, after: Collector, error: Error, path: Seq<char>, options: SearchOptions) -> bool {
    &&& options.error_policy == SearchErrorPolicy::Abort ==> {
        &&& after.wf()
        &&& after.fatal_failure() == if before.fatal_failure() is None { Some(error) } else { before.fatal_failure() }
        &&& after.warning_ranking() == before.warning_ranking()
        &&& after.match_ranking() == before.match_ranking()
        &&& after.file_ranking() == before.file_ranking()
        &&& after.evidence_ranking() == before.evidence_ranking()
        &&& after.mode() == before.mode()
        &&& after.evidence_mode() == before.evidence_mode()
        &&& counters(after) == counters(before)
        &&& after.dropped_warning_count() == before.dropped_warning_count()
        &&& after.quiet_recorded() == before.quiet_recorded()
    }
    &&& options.error_policy == SearchErrorPolicy::Continue ==> exists|w: SearchWarning| w.path@ == path
        && w.kind == failure_kind(error) && (!(error is Regex) ==> w.message@ == error_text(error))
        && #[trigger] warned_once(before, after, w)
}

/// Handles the failure of one source: under `Abort` it becomes the fatal
/// failure; under `Continue` it is retained as a warning on the source.
pub fn source_failed(error: Error, path: &String, options: &SearchOptions, collector: &mut Collector)
    requires
        old(collector).wf(),
    ensures
        failure_handled(*old(collector), *final(collector), error, path@, *options),
{
    match options.error_policy {
        SearchErrorPolicy::Abort => collector.fail(error),
        SearchErrorPolicy::Continue => {
            let kind = match &error {
                Error::Limit { .. } => SearchWarningKind::Limit,
                Error::InvalidEncoding(_) => SearchWarningKind::Encoding,
                _ => SearchWarningKind::Archive,
            };
            let message = error.describe();
            let warning = SearchWarning { path: path.clone(), kind, message };
            let ghost w = warning;
            collector.warn(warning);
            proof {
                assert(old(collector).warning_ranking().offered().push(w) =~= old(collector).warning_ranking().offered() + seq![w]);
                assert(warned_once(*old(collector), *collector, w));
            }
        }
    }
}

/// Assembles a report from what the collector retained.
pub fn build_report(
    collected: Collected,
    roots: Vec<String>,
    files_searched: u64,
    bytes_searched: u64,
    result_mode: ResultMode,
    backend: SearchBackend,
    index: Option<IndexEvidence>,
) -> (report: SearchReport)
    ensures
        report.roots == roots,
        report.matches == collected.matches,
        report.matched_files == collected.files,
        report.file_evidence == collected.file_evidence,
        report.warnings == collected.warnings,
        report.matching_lines == collected.matching_lines,
        report.occurrences == collected.occurrences,
        report.files_with_matches == collected.files_with_matches,
        report.files_searched == files_searched,
        report.bytes_searched == bytes_searched,
        report.truncated == collected.truncated,
        report.file_evidence_truncated == collected.file_evidence_truncated,
        report.warnings_dropped == collected.warnings_dropped,
        report.result_mode == result_mode,
        report.backend == backend,
        report.index == index,
{
    SearchReport {
        roots,
        matches: collected.matches,
        matched_files: collected.files,
        file_evidence: collected.file_evidence,
        warnings: collected.warnings,
        matching_lines: collected.matching_lines,
        occurrences: collected.occurrences,
        files_with_matches: collected.files_with_matches,
        files_searched,
        bytes_searched,
        truncated: collected.truncated,
        file_evidence_truncated: collected.file_evidence_truncated,
        warnings_dropped: collected.warnings_dropped,
        result_mode,
        backend,
        index,
    }
}

/// Compiles the query and checks the encoding mode before any source is
/// read.
pub fn prepare_query(query: &SearchQuery, options: &SearchOptions) -> (result: Result<CompiledQuery>)
    ensures
        result matches Ok(compiled) ==> query_usable(*query, *options)
            && (compiled is Literal ==> compiled->Literal_0@.len() > 0),
        query_usable(*query, *options) && !regex_refused(*query, options.case) ==> result is Ok,
        !patterns_present(*query, *options) ==> (result is Err && result->Err_0 is EmptyQuery),
        regex_refused(*query, options.case) ==> (result is Err && result->Err_0 is Regex),
        patterns_present(*query, *options) && !regex_refused(*query, options.case) && streams_utf8(options.encoding) is None
            ==> (result is Err && result->Err_0 is InvalidEncoding),
        (result is Err && result->Err_0 is Regex) ==> regex_refused(*query, options.case),
        result is Ok && sensitive_literal(*query, options.case) is Some ==> result->Ok_0 is Literal
            && result->Ok_0->Literal_0@ == sensitive_literal(*query, options.case)->Some_0,
        result is Ok ==> search_matcher(*query, options.case) is Some
            && query_matcher(result->Ok_0) == search_matcher(*query, options.case)->Some_0,
{
    let compiled = match query.compile(options.case) {
        Ok(compiled) => compiled,
        Err(error) => {
            return Err(error);
        }
    };
    match is_streaming_utf8(&options.encoding) {
        Ok(_) => Ok(compiled),
        Err(error) => Err(error),
    }
}

/// What one source does to the collector of a search: it is searched, and
/// its failure, if any, handled.
#[verifier::opaque]
pub open spec fn source_step(
    before: Collector,
    after: Collector,
    root_index: usize,
    path: Seq<char>,
    bytes: Seq<u8>,
    query: CompiledQuery,
    options: SearchOptions,
) -> bool {
    exists|result: Result<()>, mid: Collector| #[trigger] source_searched(before, mid, result, root_index, path, bytes, query, options)
        && match result {
            Ok(_) => after == mid,
            Err(error) => failure_handled(mid, after, error, path, options),
        }
}

/// `collectors` holds the collector before each of the first `n` sources
/// and after the last of them, each source searched in turn.
pub open spec fn sources_searched(collectors: Seq<Collector>, sources: Seq<SourceFile>, n: int, query: CompiledQuery, options: SearchOptions) -> bool {
    &&& collectors.len() == n + 1
    &&& forall|i: int| 0 <= i < n ==> #[trigger] source_step(collectors[i], collectors[i + 1], sources[i].root_index,
        sources[i].path@, sources[i].bytes@, query, options)
}

/// One more source searched extends the chain.
proof fn lemma_sources_step(collectors: Seq<Collector>, sources: Seq<SourceFile>, n: int, query: CompiledQuery,
    options: SearchOptions, next: Collector)
    requires
        sources_searched(collectors, sources, n, query, options),
        0 <= n < sources.len(),
        source_step(collectors.last(), next, sources[n].root_index, sources[n].path@, sources[n].bytes@, query, options),
    ensures
        sources_searched(collectors.push(next), sources, n + 1, query, options),
        collectors.push(next)[0] == collectors[0],
{
    let grown = collectors.push(next);
    assert forall|i: int| 0 <= i < n + 1 implies #[trigger] source_step(grown[i], grown[i + 1], sources[i].root_index,
        sources[i].path@, sources[i].bytes@, query, options) by {
        if i < n {
            assert(grown[i] == collectors[i] && grown[i + 1] == collectors[i + 1]);
        }
    }
}

/// A source fails only with an archive, I/O, limit or encoding failure,
/// never with a regex failure.
proof fn lemma_source_error(before: Collector, after: Collector, result: Result<()>, root_index: usize, path: Seq<char>,
    bytes: Seq<u8>, query: CompiledQuery, options: SearchOptions)
    requires
        source_searched(before, after, result, root_index, path, bytes, query, options),
        result is Err,
    ensures
        !(result->Err_0 is Regex),
{
}

/// Every record, matched file and source metric of the report names a
/// root below `n`.
pub open spec fn report_rooted(report: SearchReport, n: nat) -> bool {
    &&& forall|i: int| 0 <= i < report.matches@.len() ==> (#[trigger] report.matches@[i]).root_index < n
    &&& forall|i: int| 0 <= i < report.matched_files@.len() ==> (#[trigger] report.matched_files@[i]).root_index < n
    &&& forall|i: int| 0 <= i < report.file_evidence@.len() ==> (#[trigger] report.file_evidence@[i]).root_index < n
}

/// Searching one source under a root below `n` keeps every offered root
/// below `n`.
pub proof fn lemma_step_rooted(before: Collector, after: Collector, root_index: usize, path: Seq<char>, bytes: Seq<u8>,
    query: CompiledQuery, options: SearchOptions, n: nat)
    requires
        source_step(before, after, root_index, path, bytes, query, options),
        rooted(before, n),
        root_index < n,
    ensures
        rooted(after, n),
{
    reveal(source_step);
    let (result, mid) = choose|result: Result<()>, mid: Collector|
        #[trigger] source_searched(before, mid, result, root_index, path, bytes, query, options)
        && match result {
            Ok(_) => after == mid,
            Err(error) => failure_handled(mid, after, error, path, options),
        };
    match source_archive(path, options) {
        Some(archive_kind) => {
            lemma_archive_rooted(archive_kind, root_index, path, bytes, before, mid, result, query, options, n);
        },
        None => {
            let given = choose|given: SearchIdentity| given_identity(given, root_index, path, bytes.len(), false)
                && #[trigger] complete_outcome(before, mid, result, given, bytes, query, options);
            lemma_complete_rooted(before, mid, result, given, bytes, query, options, n);
        },
    }
    if let Err(error) = result {
        if options.error_policy == SearchErrorPolicy::Continue {
            let w = choose|w: SearchWarning| w.path@ == path && w.kind == failure_kind(error)
                && (!(error is Regex) ==> w.message@ == error_text(error)) && #[trigger] warned_once(mid, after, w);
        }
    }
}

/// Searching sources whose roots are below `n` keeps every offered root
/// below `n`.
proof fn lemma_sources_rooted(collectors: Seq<Collector>, sources: Seq<SourceFile>, m: int, query: CompiledQuery,
    options: SearchOptions, n: nat, k: int)
    requires
        sources_searched(collectors, sources, m, query, options),
        0 <= k <= m <= sources.len(),
        forall|i: int| 0 <= i < sources.len() ==> (#[trigger] sources[i]).root_index < n,
        rooted(collectors[0], n),
    ensures
        rooted(collectors[k], n),
    decreases k,
{
    if k > 0 {
        let i = k - 1;
        lemma_sources_rooted(collectors, sources, m, query, options, n, i);
        assert(source_step(collectors[i], collectors[i + 1], sources[i].root_index, sources[i].path@, sources[i].bytes@, query,
            options));
        lemma_step_rooted(collectors[i], collectors[i + 1], sources[i].root_index, sources[i].path@, sources[i].bytes@, query,
            options, n);
    }
}

/// The report holds what `c` retained and counted, in rank order.
pub open spec fn report_of(report: SearchReport, c: Collector) -> bool {
    &&& report.matches@ == c.match_ranking().retained()
    &&& report.matched_files@ == c.file_ranking().retained()
    &&& report.file_evidence@ == c.evidence_ranking().retained()
    &&& report.warnings@ == c.warning_ranking().retained()
    &&& report.matching_lines == c.matching_line_count()
    &&& report.occurrences == c.occurrence_count()
    &&& report.files_with_matches == c.matched_file_count()
    &&& report.warnings_dropped == c.dropped_warning_count()
    &&& report.truncated == (c.match_ranking().is_truncated() || c.file_ranking().is_truncated())
    &&& report.file_evidence_truncated == c.evidence_ranking().is_truncated()
}

/// What a search of complete sources returns: the setup failures, a
/// source failure only under `Abort`, and otherwise the report of a fresh
/// collector that searched the sources in order, each as
/// `source_searched` says, stopping early only in quiet mode, at the first
/// source that recorded a match.
pub open spec fn search_outcome(
    result: Result<SearchReport>,
    roots: Seq<String>,
    sources: Seq<SourceFile>,
    query: SearchQuery,
    options: SearchOptions,
) -> bool {
    &&& setup_failure(result, query, options)
    &&& result is Ok ==> query_usable(query, options)
    &&& result is Err && query_usable(query, options) && !regex_refused(query, options.case)
        ==> options.error_policy == SearchErrorPolicy::Abort
    &&& query_usable(query, options) && !regex_refused(query, options.case)
        && options.error_policy == SearchErrorPolicy::Continue ==> result is Ok
    &&& result is Ok ==> {
        let report = result->Ok_0;
        &&& report_bounds(report, options)
        &&& report.roots@ == roots
        &&& report.backend == SearchBackend::Filesystem
        &&& report.index is None
        &&& report.files_searched <= sources.len()
        &&& report.bytes_searched == saturated(total_bytes(sources, report.files_searched as int))
        &&& options.result_mode != ResultMode::Quiet ==> report.files_searched == sources.len()
        &&& exists|compiled: CompiledQuery, collectors: Seq<Collector>|
            #[trigger] sources_searched(collectors, sources, report.files_searched as int, compiled, options)
            && query_matcher(compiled) == search_matcher(query, options.case)->Some_0
            && fresh_collector(collectors[0], options) && report_of(report, collectors.last())
            && (report.files_searched < sources.len() ==> options.result_mode == ResultMode::Quiet
                && collectors.last().quiet_recorded())
            && (options.result_mode == ResultMode::Quiet ==> forall|k: int| 0 <= k < report.files_searched
                ==> !(#[trigger] collectors[k]).quiet_recorded())
        &&& (forall|i: int| 0 <= i < sources.len() ==> (#[trigger] sources[i]).root_index < roots.len())
            ==> report_rooted(report, roots.len())
    }
}

/// What a line search of plain sources counts, in a mode other than quiet:
/// every matching line, match and matched file of every source, however
/// many records are retained.
pub open spec fn complete_counts(
    result: Result<SearchReport>,
    sources: Seq<SourceFile>,
    query: SearchQuery,
    options: SearchOptions,
) -> bool {
    result is Ok && options.mode == SearchMode::Line && options.result_mode != ResultMode::Quiet
        && (forall|i: int| 0 <= i < sources.len() ==> plain_source((#[trigger] sources[i]).path@, options))
        ==> ({
            let report = result->Ok_0;
            (report.matching_lines, report.occurrences, report.files_with_matches) == total_counts(sources,
                sources.len() as int, options, search_matcher(query, options.case)->Some_0)
        })
}

/// A line search outside quiet mode whose sources are all searched as
/// plain text: every match of every source is counted.
#[verifier::opaque]
pub open spec fn counts_every_source(sources: Seq<SourceFile>, options: SearchOptions) -> bool {
    options.mode == SearchMode::Line && options.result_mode != ResultMode::Quiet
        && forall|i: int| 0 <= i < sources.len() ==> plain_source((#[trigger] sources[i]).path@, options)
}

/// Counting one more source extends the running totals.
proof fn lemma_count_step(sources: Seq<SourceFile>, i: int, options: SearchOptions, matcher: SpecMatcher, before: Collector,
    after: Collector)
    requires
        0 <= i < sources.len(),
        counters(before) == total_counts(sources, i, options, matcher),
        counted(before, after, source_line_counts(sources[i].bytes@, options, matcher)),
    ensures
        counters(after) == total_counts(sources, i + 1, options, matcher),
{
}

/// Searches one source into `collector` and handles its failure.
pub(crate) fn search_one(
    root_index: usize,
    path: &String,
    bytes: &[u8],
    compiled: &CompiledQuery,
    cache: &mut QueryCache,
    options: &SearchOptions,
    collector: &mut Collector,
)
    requires
        old(collector).wf(),
        cache_matches(compiled, old(cache)),
        compiled is Literal ==> compiled->Literal_0@.len() > 0,
    ensures
        final(collector).wf(),
        final(collector).config() == old(collector).config(),
        cache_matches(compiled, final(cache)),
        source_step(*old(collector), *final(collector), root_index, path@, bytes@, *compiled, *options),
        final(collector).fatal_failure() matches Some(error) ==> old(collector).fatal_failure() == Some(error)
            || (options.error_policy == SearchErrorPolicy::Abort && !(error is Regex)),
        plain_source(path@, *options) && options.mode == SearchMode::Line && old(collector).mode() != ResultMode::Quiet
            ==> counted(*old(collector), *final(collector), source_line_counts(bytes@, *options, query_matcher(*compiled))),
{
    let outcome = search_source(root_index, path, bytes, compiled, cache, options, collector);
    let ghost result = outcome;
    let ghost mid = *collector;
    if let Err(error) = outcome {
        proof {
            lemma_source_error(*old(collector), mid, result, root_index, path@, bytes@, *compiled, *options);
        }
        source_failed(error, path, options, collector);
    }
    proof {
        reveal(source_step);
        assert(source_searched(*old(collector), mid, result, root_index, path@, bytes@, *compiled, *options));
    }
}

/// Searches the sources in order into `collector` until it asks to quit,
/// and returns how many sources and bytes were searched, with the
/// collector before each source and after the last.
fn search_each(
    sources: &Vec<SourceFile>,
    compiled: &CompiledQuery,
    cache: &mut QueryCache,
    options: &SearchOptions,
    collector: &mut Collector,
) -> (searched: (u64, u64, Ghost<Seq<Collector>>))
    requires
        old(collector).wf(),
        cache_matches(compiled, old(cache)),
        compiled is Literal ==> compiled->Literal_0@.len() > 0,
        fresh_collector(*old(collector), *options),
    ensures
        final(collector).wf(),
        final(collector).config() == old(collector).config(),
        searched.0 <= sources@.len(),
        searched.1 == saturated(total_bytes(sources@, searched.0 as int)),
        sources_searched(searched.2@, sources@, searched.0 as int, *compiled, *options),
        searched.2@[0] == *old(collector),
        searched.2@.last() == *final(collector),
        final(collector).fatal_failure() is Some ==> options.error_policy == SearchErrorPolicy::Abort,
        final(collector).fatal_failure() matches Some(error) ==> !(error is Regex),
        final(collector).fatal_failure() is None && options.result_mode != ResultMode::Quiet ==> searched.0 == sources@.len(),
        searched.0 < sources@.len() ==> final(collector).fatal_failure() is Some
            || (options.result_mode == ResultMode::Quiet && final(collector).quiet_recorded()),
        options.result_mode == ResultMode::Quiet ==> forall|k: int| 0 <= k < searched.0 ==> !(#[trigger] searched.2@[k]).quiet_recorded(),
        final(collector).fatal_failure() is None && counts_every_source(sources@, *options) ==> counters(*final(collector)) == total_counts(sources@, sources@.len() as int, *options, query_matcher(*compiled)),
{
    let ghost counting = counts_every_source(sources@, *options);
    let ghost matcher = query_matcher(*compiled);
    let ghost mut collectors: Seq<Collector> = seq![*collector];
    let mut files_searched: u64 = 0;
    let mut bytes_searched: u64 = 0;
    let mut i: usize = 0;
    while i < sources.len() && !collector.should_quit()
        invariant
            i <= sources@.len(),
            files_searched == i,
            bytes_searched == saturated(total_bytes(sources@, i as int)),
            sources_searched(collectors, sources@, i as int, *compiled, *options),
            collectors[0] == *old(collector),
            collectors.last() == *collector,
            options.result_mode == ResultMode::Quiet ==> forall|k: int| 0 <= k < i ==> !(#[trigger] collectors[k]).quiet_recorded(),
            collector.wf(),
            collector.config() == old(collector).config(),
            cache_matches(compiled, cache),
            compiled is Literal ==> compiled->Literal_0@.len() > 0,
            collector.fatal_failure() is Some ==> options.error_policy == SearchErrorPolicy::Abort,
            collector.fatal_failure() matches Some(error) ==> !(error is Regex),
            collector.mode() == options.result_mode,
            counting ==> counters(*collector) == total_counts(sources@, i as int, *options, matcher),
            counting == counts_every_source(sources@, *options),
            matcher == query_matcher(*compiled),
        decreases sources@.len() - i,
    {
        let source = &sources[i];
        proof {
            if counting {
                reveal(counts_every_source);
                assert(plain_source(sources@[i as int].path@, *options));
            }
        }
        let ghost here = *collector;
        search_one(source.root_index, &source.path, source.bytes.as_slice(), compiled, cache, options, collector);
        proof {
            assert(options.result_mode == ResultMode::Quiet ==> !here.quiet_recorded());
            let grown = collectors.push(*collector);
            assert forall|k: int| 0 <= k < i + 1 implies #[trigger] grown[k] == if k < i { collectors[k] } else { here } by {}
            if counting {
                lemma_count_step(sources@, i as int, *options, matcher, here, *collector);
            }
            lemma_sources_step(collectors, sources@, i as int, *compiled, *options, *collector);
            collectors = collectors.push(*collector);
        }
        files_searched = files_searched + 1;
        bytes_searched = bytes_searched.saturating_add(source.bytes.len() as u64);
        i = i + 1;
    }
    proof {
        reveal(counts_every_source);
    }
    (files_searched, bytes_searched, Ghost(collectors))
}

/// Searches complete sources in order into one bounded, deterministic
/// report. Search stops early after a fatal failure, or after the first
/// match in quiet mode.
pub fn search_sources(
    roots: Vec<String>,
    sources: &Vec<SourceFile>,
    query: &SearchQuery,
    options: &SearchOptions,
) -> (result: Result<SearchReport>)
    ensures
        search_outcome(result, roots@, sources@, *query, *options),
        complete_counts(result, sources@, *query, *options),
{
    let compiled = match prepare_query(query, options) {
        Ok(compiled) => compiled,
        Err(error) => {
            return Err(error);
        }
    };
    let mut cache = compiled.create_cache();
    let mut collector = Collector::new(options);
    let searched = search_each(sources, &compiled, &mut cache, options, &mut collector);
    let files_searched = searched.0;
    let bytes_searched = searched.1;
    let ghost collectors = searched.2@;
    proof {
        reveal(counts_every_source);
    }
    if let Some(error) = collector.take_fatal() {
        return Err(error);
    }
    let result_mode = collector.result_mode();
    let collected = collector.finish();
    let report = build_report(collected, roots, files_searched, bytes_searched, result_mode, SearchBackend::Filesystem, None);
    proof {
        assert(report_of(report, collectors.last()));
        assert(sources_searched(collectors, sources@, report.files_searched as int, compiled, *options));
        if forall|i: int| 0 <= i < sources@.len() ==> (#[trigger] sources@[i]).root_index < report.roots@.len() {
            lemma_sources_rooted(collectors, sources@, report.files_searched as int, compiled, *options, report.roots@.len(),
                report.files_searched as int);
            lemma_retained_rooted(collectors.last(), report.roots@.len());
        }
    }
    Ok(report)
}

/// Searches the sources of one root with the default search policy.
pub fn search(root: String, sources: &Vec<SourceFile>, query: SearchQuery) -> (result: Result<SearchReport>)
    ensures
        search_outcome(result, seq![root], sources@, query, SearchOptions::spec_default()),
        complete_counts(result, sources@, query, SearchOptions::spec_default()),
{
    let mut roots: Vec<String> = Vec::new();
    roots.push(root);
    search_sources(roots, sources, &query, &SearchOptions::default())
}

/// Searches the sources of several roots, in root order, with the default
/// search policy.
pub fn search_many(
    root: String,
    additional_roots: Vec<String>,
    sources: &Vec<SourceFile>,
    query: SearchQuery,
) -> (result: Result<SearchReport>)
    ensures
        search_outcome(result, seq![root] + additional_roots@, sources@, query, SearchOptions::spec_default()),
        complete_counts(result, sources@, query, SearchOptions::spec_default()),
{
    let mut roots: Vec<String> = Vec::new();
    roots.push(root);
    let mut rest = additional_roots;
    roots.append(&mut rest);
    search_sources(roots, sources, &query, &SearchOptions::default())
}

} // verus!

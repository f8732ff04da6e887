use vstd::prelude::*;
use vstd::utf8::encode_utf8;
use crate::error::Error;
use crate::options::{FileEvidenceMode, ResultMode, SearchOptions};
use crate::ranking::{key_lt, order_bytes, sorted_by_rank, RankKey, Ranked, Ranking};
use crate::report::{MatchedFile, SearchMatch, SearchWarning, SearchWarningKind, SourceFileEvidence};
use crate::text::string_bytes;

verus! {

/// The bytes of a string, as compared by rank order.
pub open spec fn text_key(text: String) -> Seq<u8> {
    encode_utf8(text@)
}

/// Position of a warning category in rank order.
pub open spec fn kind_rank(kind: SearchWarningKind) -> int {
    match kind {
        SearchWarningKind::Binary => 0,
        SearchWarningKind::Encoding => 1,
        SearchWarningKind::LineTooLong => 2,
        SearchWarningKind::Archive => 3,
        SearchWarningKind::Limit => 4,
    }
}

fn kind_index(kind: SearchWarningKind) -> (index: u8)
    ensures
        index as int == kind_rank(kind),
{
    match kind {
        SearchWarningKind::Binary => 0,
        SearchWarningKind::Encoding => 1,
        SearchWarningKind::LineTooLong => 2,
        SearchWarningKind::Archive => 3,
        SearchWarningKind::Limit => 4,
    }
}

/// Start of the first span of a match, or zero.
pub open spec fn first_start(found: SearchMatch) -> int {
    if found.spans@.len() > 0 {
        found.spans@[0].start as int
    } else {
        0
    }
}

/// Shared tail of the comparisons: path, then two integers, then message.
fn ranks_before_by(
    root_a: usize, root_b: usize,
    path_a: &String, path_b: &String,
    line_a: u64, line_b: u64,
    start_a: usize, start_b: usize,
    message_a: &[u8], message_b: &[u8],
) -> (before: bool)
    ensures
        before == key_lt(
            RankKey { root: root_a as int, path: text_key(*path_a), line: line_a as int, start: start_a as int, message: message_a@ },
            RankKey { root: root_b as int, path: text_key(*path_b), line: line_b as int, start: start_b as int, message: message_b@ },
        ),
{
    if root_a != root_b {
        return root_a < root_b;
    }
    let path_order = order_bytes(string_bytes(path_a), string_bytes(path_b));
    if path_order != 0 {
        return path_order < 0;
    }
    if line_a != line_b {
        return line_a < line_b;
    }
    if start_a != start_b {
        return start_a < start_b;
    }
    proof {
        crate::text::lemma_bytes_lt_irreflexive(message_a@);
    }
    order_bytes(message_a, message_b) < 0
}

impl Ranked for SearchMatch {
    open spec fn rank_key(&self) -> RankKey {
        RankKey {
            root: self.root_index as int,
            path: text_key(self.path),
            line: self.line_number as int,
            start: first_start(*self),
            message: Seq::empty(),
        }
    }

    fn ranks_before(&self, other: &Self) -> (before: bool) {
        let start_a: usize = if self.spans.len() > 0 { self.spans[0].start } else { 0 };
        let start_b: usize = if other.spans.len() > 0 { other.spans[0].start } else { 0 };
        let empty: [u8; 0] = [];
        let before = ranks_before_by(
            self.root_index, other.root_index, &self.path, &other.path,
            self.line_number, other.line_number, start_a, start_b, &empty, &empty,
        );
        proof {
            assert(empty@ =~= Seq::<u8>::empty());
        }
        before
    }
}

impl Ranked for MatchedFile {
    open spec fn rank_key(&self) -> RankKey {
        RankKey { root: self.root_index as int, path: text_key(self.path), line: 0, start: 0, message: Seq::empty() }
    }

    fn ranks_before(&self, other: &Self) -> (before: bool) {
        let empty: [u8; 0] = [];
        let before = ranks_before_by(
            self.root_index, other.root_index, &self.path, &other.path, 0, 0, 0, 0, &empty, &empty,
        );
        proof {
            assert(empty@ =~= Seq::<u8>::empty());
        }
        before
    }
}

impl Ranked for SourceFileEvidence {
    open spec fn rank_key(&self) -> RankKey {
        RankKey { root: self.root_index as int, path: text_key(self.path), line: 0, start: 0, message: Seq::empty() }
    }

    fn ranks_before(&self, other: &Self) -> (before: bool) {
        let empty: [u8; 0] = [];
        let before = ranks_before_by(
            self.root_index, other.root_index, &self.path, &other.path, 0, 0, 0, 0, &empty, &empty,
        );
        proof {
            assert(empty@ =~= Seq::<u8>::empty());
        }
        before
    }
}

impl Ranked for SearchWarning {
    open spec fn rank_key(&self) -> RankKey {
        RankKey { root: 0, path: text_key(self.path), line: kind_rank(self.kind), start: 0, message: text_key(self.message) }
    }

    fn ranks_before(&self, other: &Self) -> (before: bool) {
        let kind_a = kind_index(self.kind);
        let kind_b = kind_index(other.kind);
        ranks_before_by(
            0, 0, &self.path, &other.path, kind_a as u64, kind_b as u64, 0, 0,
            string_bytes(&self.message), string_bytes(&other.message),
        )
    }
}

/// Completed text metrics of one source, handed to the collector.
pub struct FileSummary {
    /// Index of the search root.
    pub root_index: usize,
    /// Root-relative path.
    pub path: String,
    /// Source bytes.
    pub source_bytes: u64,
    /// Logical lines.
    pub total_lines: u64,
    /// Lines holding at least one match.
    pub matching_lines: u64,
    /// Matching spans.
    pub occurrences: u64,
    /// Name of the decoding used.
    pub encoding: String,
    /// Whether malformed input was replaced.
    pub lossy: bool,
    /// Whether the source was an archive member.
    pub archive: bool,
}

/// Everything the collector retained, in rank order, with its counters.
pub struct Collected {
    /// Retained match records.
    pub matches: Vec<SearchMatch>,
    /// Retained per-file summaries.
    pub files: Vec<MatchedFile>,
    /// Retained per-source metrics.
    pub file_evidence: Vec<SourceFileEvidence>,
    /// Retained warnings.
    pub warnings: Vec<SearchWarning>,
    /// Lines holding at least one match.
    pub matching_lines: u64,
    /// Matching spans.
    pub occurrences: u64,
    /// Sources holding at least one match.
    pub files_with_matches: u64,
    /// Warnings omitted by their limit.
    pub warnings_dropped: u64,
    /// Whether match or file records were omitted by their limit.
    pub truncated: bool,
    /// Whether per-source metrics were omitted by their limit.
    pub file_evidence_truncated: bool,
}

/// An empty collector with the modes and limits of `options`.
pub open spec fn fresh_collector(c: Collector, options: SearchOptions) -> bool {
    &&& c.wf()
    &&& c.mode() == options.result_mode
    &&& c.evidence_mode() == options.file_evidence
    &&& c.match_ranking().limit() == options.max_results
    &&& c.match_ranking().offered().len() == 0
    &&& c.file_ranking().limit() == options.max_results
    &&& c.file_ranking().offered().len() == 0
    &&& c.evidence_ranking().limit() == options.max_file_evidence
    &&& c.evidence_ranking().offered().len() == 0
    &&& c.warning_ranking().limit() == options.max_warnings
    &&& c.warning_ranking().offered().len() == 0
    &&& c.matching_line_count() == 0
    &&& c.occurrence_count() == 0
    &&& c.matched_file_count() == 0
    &&& c.dropped_warning_count() == 0
    &&& !c.quiet_recorded()
    &&& c.fatal_failure().is_none()
}

/// Every record, matched file and source metric offered to `c` names a
/// root below `n`.
pub open spec fn rooted(c: Collector, n: nat) -> bool {
    &&& forall|i: int| 0 <= i < c.match_ranking().offered().len() ==> (#[trigger] c.match_ranking().offered()[i]).root_index < n
    &&& forall|i: int| 0 <= i < c.file_ranking().offered().len() ==> (#[trigger] c.file_ranking().offered()[i]).root_index < n
    &&& forall|i: int| 0 <= i < c.evidence_ranking().offered().len() ==> (#[trigger] c.evidence_ranking().offered()[i]).root_index < n
}

/// How recording the completion of one source with `summary` changes a
/// collector (see `Collector::finish_file`).
pub open spec fn file_finished(before: Collector, after: Collector, summary: FileSummary) -> bool {
    &&& after.wf()
    &&& after.mode() == before.mode()
    &&& after.evidence_mode() == before.evidence_mode()
    &&& after.match_ranking() == before.match_ranking()
    &&& after.warning_ranking() == before.warning_ranking()
    &&& after.quiet_recorded() == before.quiet_recorded()
    &&& after.fatal_failure() == before.fatal_failure()
    &&& after.dropped_warning_count() == before.dropped_warning_count()
    &&& after.evidence_ranking().limit() == before.evidence_ranking().limit()
    &&& after.file_ranking().limit() == before.file_ranking().limit()
    &&& after.evidence_ranking().offered() == (if before.evidence_mode() == FileEvidenceMode::All
        || (before.evidence_mode() == FileEvidenceMode::Matched && summary.occurrences > 0) {
        before.evidence_ranking().offered().push(SourceFileEvidence {
            root_index: summary.root_index,
            path: summary.path,
            source_bytes: summary.source_bytes,
            total_lines: summary.total_lines,
            matching_lines: summary.matching_lines,
            occurrences: summary.occurrences,
            encoding: summary.encoding,
            lossy: summary.lossy,
            archive: summary.archive,
        })
    } else {
        before.evidence_ranking().offered()
    })
    &&& summary.occurrences == 0 || before.mode() == ResultMode::Quiet ==> {
        &&& after.matching_line_count() == before.matching_line_count()
        &&& after.occurrence_count() == before.occurrence_count()
        &&& after.matched_file_count() == before.matched_file_count()
        &&& after.file_ranking() == before.file_ranking()
    }
    &&& summary.occurrences > 0 && before.mode() != ResultMode::Quiet ==> {
        &&& after.matching_line_count() == before.matching_line_count().wrapping_add(summary.matching_lines)
        &&& after.occurrence_count() == before.occurrence_count().wrapping_add(summary.occurrences)
        &&& after.matched_file_count() == before.matched_file_count().wrapping_add(1)
        &&& after.file_ranking().offered() == if before.mode() == ResultMode::Count || before.mode() == ResultMode::Files {
            before.file_ranking().offered().push(MatchedFile {
                root_index: summary.root_index,
                path: summary.path,
                matching_lines: summary.matching_lines,
                occurrences: summary.occurrences,
                archive: summary.archive,
            })
        } else {
            before.file_ranking().offered()
        }
    }
}

/// Recording a summary of a source under a root below `n` keeps every
/// offered root below `n`.
pub proof fn lemma_finished_rooted(before: Collector, after: Collector, summary: FileSummary, n: nat)
    requires
        file_finished(before, after, summary),
        rooted(before, n),
        summary.root_index < n,
    ensures
        rooted(after, n),
{
    assert forall|i: int| 0 <= i < after.file_ranking().offered().len() implies
        (#[trigger] after.file_ranking().offered()[i]).root_index < n by {
        if i < before.file_ranking().offered().len() {
            assert(after.file_ranking().offered()[i] == before.file_ranking().offered()[i]);
        }
    }
    assert forall|i: int| 0 <= i < after.evidence_ranking().offered().len() implies
        (#[trigger] after.evidence_ranking().offered()[i]).root_index < n by {
        if i < before.evidence_ranking().offered().len() {
            assert(after.evidence_ranking().offered()[i] == before.evidence_ranking().offered()[i]);
        }
    }
}

/// What a well-formed collector whose offered roots are below `n` retains
/// names roots below `n`.
pub proof fn lemma_retained_rooted(c: Collector, n: nat)
    requires
        c.wf(),
        rooted(c, n),
    ensures
        forall|i: int| 0 <= i < c.match_ranking().retained().len() ==> (#[trigger] c.match_ranking().retained()[i]).root_index < n,
        forall|i: int| 0 <= i < c.file_ranking().retained().len() ==> (#[trigger] c.file_ranking().retained()[i]).root_index < n,
        forall|i: int| 0 <= i < c.evidence_ranking().retained().len() ==> (#[trigger] c.evidence_ranking().retained()[i]).root_index < n,
{
    assert forall|i: int| 0 <= i < c.match_ranking().retained().len() implies (#[trigger] c.match_ranking().retained()[i]).root_index < n by {
        c.match_ranking().lemma_retained_offered(i);
    }
    assert forall|i: int| 0 <= i < c.file_ranking().retained().len() implies (#[trigger] c.file_ranking().retained()[i]).root_index < n by {
        c.file_ranking().lemma_retained_offered(i);
    }
    assert forall|i: int| 0 <= i < c.evidence_ranking().retained().len() implies (#[trigger] c.evidence_ranking().retained()[i]).root_index < n by {
        c.evidence_ranking().lemma_retained_offered(i);
    }
}

/// Deterministic bounded accumulator of records, warnings and counters.
pub struct Collector {
    file_evidence_mode: FileEvidenceMode,
    result_mode: ResultMode,
    matches: Ranking<SearchMatch>,
    files: Ranking<MatchedFile>,
    file_evidence: Ranking<SourceFileEvidence>,
    warnings: Ranking<SearchWarning>,
    fatal: Option<Error>,
    matching_lines: u64,
    occurrences: u64,
    files_with_matches: u64,
    warnings_dropped: u64,
    quiet_found: bool,
}

impl Collector {
    /// The well-formedness of every ranking.
    pub closed spec fn wf(&self) -> bool {
        &&& self.matches.wf()
        &&& self.files.wf()
        &&& self.file_evidence.wf()
        &&& self.warnings.wf()
    }

    /// The configured result mode.
    pub closed spec fn mode(&self) -> ResultMode {
        self.result_mode
    }

    /// The configured evidence mode.
    pub closed spec fn evidence_mode(&self) -> FileEvidenceMode {
        self.file_evidence_mode
    }

    /// The ranking of match records.
    pub closed spec fn match_ranking(&self) -> Ranking<SearchMatch> {
        self.matches
    }

    /// The ranking of per-file summaries.
    pub closed spec fn file_ranking(&self) -> Ranking<MatchedFile> {
        self.files
    }

    /// The ranking of per-source metrics.
    pub closed spec fn evidence_ranking(&self) -> Ranking<SourceFileEvidence> {
        self.file_evidence
    }

    /// The ranking of warnings.
    pub closed spec fn warning_ranking(&self) -> Ranking<SearchWarning> {
        self.warnings
    }

    /// Lines holding at least one match.
    pub closed spec fn matching_line_count(&self) -> u64 {
        self.matching_lines
    }

    /// Matching spans.
    pub closed spec fn occurrence_count(&self) -> u64 {
        self.occurrences
    }

    /// Sources holding at least one match.
    pub closed spec fn matched_file_count(&self) -> u64 {
        self.files_with_matches
    }

    /// Warnings omitted by the warning limit.
    pub closed spec fn dropped_warning_count(&self) -> u64 {
        self.warnings_dropped
    }

    /// Whether a quiet-mode match was recorded.
    pub closed spec fn quiet_recorded(&self) -> bool {
        self.quiet_found
    }

    /// The first recorded fatal failure.
    pub closed spec fn fatal_failure(&self) -> Option<Error> {
        self.fatal
    }

    /// The modes and limits the collector was created with.
    pub open spec fn config(&self) -> (ResultMode, FileEvidenceMode, nat, nat, nat, nat) {
        (self.mode(), self.evidence_mode(), self.match_ranking().limit(), self.file_ranking().limit(),
            self.evidence_ranking().limit(), self.warning_ranking().limit())
    }

    /// Whether `self` kept the configuration and the fatal failure of
    /// `before`.
    pub open spec fn kept_setup(&self, before: Collector) -> bool {
        &&& self.config() == before.config()
        &&& self.fatal_failure() == before.fatal_failure()
    }

    /// An empty collector with the limits and modes of `options`.
    pub fn new(options: &SearchOptions) -> (collector: Self)
        ensures
            fresh_collector(collector, *options),
    {
        Collector {
            file_evidence_mode: options.file_evidence,
            result_mode: options.result_mode,
            matches: Ranking::new(options.max_results),
            files: Ranking::new(options.max_results),
            file_evidence: Ranking::new(options.max_file_evidence),
            warnings: Ranking::new(options.max_warnings),
            fatal: None,
            matching_lines: 0,
            occurrences: 0,
            files_with_matches: 0,
            warnings_dropped: 0,
            quiet_found: false,
        }
    }

    /// Offers one match record to the bounded match ranking.
    pub fn retain_match(&mut self, found: SearchMatch)
        requires
            old(self).wf(),
        ensures
            final(self).wf(),
            final(self).match_ranking().offered() == old(self).match_ranking().offered().push(found),
            final(self).match_ranking().limit() == old(self).match_ranking().limit(),
            final(self).file_ranking() == old(self).file_ranking(),
            final(self).evidence_ranking() == old(self).evidence_ranking(),
            final(self).warning_ranking() == old(self).warning_ranking(),
            final(self).mode() == old(self).mode(),
            final(self).evidence_mode() == old(self).evidence_mode(),
            final(self).matching_line_count() == old(self).matching_line_count(),
            final(self).occurrence_count() == old(self).occurrence_count(),
            final(self).matched_file_count() == old(self).matched_file_count(),
            final(self).dropped_warning_count() == old(self).dropped_warning_count(),
            final(self).quiet_recorded() == old(self).quiet_recorded(),
            final(self).fatal_failure() == old(self).fatal_failure(),
    {
        self.matches.offer(found);
    }

    /// Whether per-source metrics are retained for a source with
    /// `occurrences` matches.
    pub fn needs_file_evidence(&self, occurrences: u64) -> (needed: bool)
        ensures
            needed == (self.evidence_mode() == FileEvidenceMode::All
                || (self.evidence_mode() == FileEvidenceMode::Matched && occurrences > 0)),
    {
        self.file_evidence_mode == FileEvidenceMode::All
            || (self.file_evidence_mode == FileEvidenceMode::Matched && occurrences > 0)
    }

    /// Records the completion of one source: its metrics when the evidence
    /// mode asks for them, its counters when it matched outside quiet mode,
    /// and its summary in count and files modes.
    pub fn finish_file(&mut self, summary: FileSummary)
        requires
            old(self).wf(),
        ensures
            file_finished(*old(self), *final(self), summary),
    {
        let retain_evidence = self.needs_file_evidence(summary.occurrences);
        if retain_evidence {
            let evidence = SourceFileEvidence {
                root_index: summary.root_index,
                path: summary.path.clone(),
                source_bytes: summary.source_bytes,
                total_lines: summary.total_lines,
                matching_lines: summary.matching_lines,
                occurrences: summary.occurrences,
                encoding: summary.encoding,
                lossy: summary.lossy,
                archive: summary.archive,
            };
            self.file_evidence.offer(evidence);
        }
        if summary.occurrences == 0 || self.result_mode == ResultMode::Quiet {
            return;
        }
        self.matching_lines = self.matching_lines.wrapping_add(summary.matching_lines);
        self.occurrences = self.occurrences.wrapping_add(summary.occurrences);
        self.files_with_matches = self.files_with_matches.wrapping_add(1);
        if !(self.result_mode == ResultMode::Count || self.result_mode == ResultMode::Files) {
            return;
        }
        let file = MatchedFile {
            root_index: summary.root_index,
            path: summary.path,
            matching_lines: summary.matching_lines,
            occurrences: summary.occurrences,
            archive: summary.archive,
        };
        self.files.offer(file);
    }

    /// Records the first quiet-mode match and ignores later ones.
    pub fn quiet_match(&mut self, matching_lines: u64, occurrences: u64)
        requires
            old(self).wf(),
        ensures
            final(self).wf(),
            final(self).quiet_recorded(),
            final(self).match_ranking() == old(self).match_ranking(),
            final(self).file_ranking() == old(self).file_ranking(),
            final(self).evidence_ranking() == old(self).evidence_ranking(),
            final(self).warning_ranking() == old(self).warning_ranking(),
            final(self).mode() == old(self).mode(),
            final(self).evidence_mode() == old(self).evidence_mode(),
            final(self).dropped_warning_count() == old(self).dropped_warning_count(),
            final(self).fatal_failure() == old(self).fatal_failure(),
            old(self).quiet_recorded() ==> {
                &&& final(self).matching_line_count() == old(self).matching_line_count()
                &&& final(self).occurrence_count() == old(self).occurrence_count()
                &&& final(self).matched_file_count() == old(self).matched_file_count()
            },
            !old(self).quiet_recorded() ==> {
                &&& final(self).matching_line_count() == matching_lines
                &&& final(self).occurrence_count() == occurrences
                &&& final(self).matched_file_count() == 1
            },
    {
        if !self.quiet_found {
            self.quiet_found = true;
            self.matching_lines = matching_lines;
            self.occurrences = occurrences;
            self.files_with_matches = 1;
        }
    }

    /// The configured result mode.
    pub fn result_mode(&self) -> (mode: ResultMode)
        ensures
            mode == self.mode(),
    {
        self.result_mode
    }

    /// Offers one warning to the bounded warning ranking and counts it as
    /// dropped when the ranking was already full.
    pub fn warn(&mut self, warning: SearchWarning)
        requires
            old(self).wf(),
        ensures
            final(self).wf(),
            final(self).warning_ranking().offered() == old(self).warning_ranking().offered().push(warning),
            final(self).warning_ranking().limit() == old(self).warning_ranking().limit(),
            final(self).dropped_warning_count() == if old(self).warning_ranking().retained().len() == old(self).warning_ranking().limit() {
                old(self).dropped_warning_count().wrapping_add(1)
            } else {
                old(self).dropped_warning_count()
            },
            final(self).match_ranking() == old(self).match_ranking(),
            final(self).file_ranking() == old(self).file_ranking(),
            final(self).evidence_ranking() == old(self).evidence_ranking(),
            final(self).mode() == old(self).mode(),
            final(self).evidence_mode() == old(self).evidence_mode(),
            final(self).matching_line_count() == old(self).matching_line_count(),
            final(self).occurrence_count() == old(self).occurrence_count(),
            final(self).matched_file_count() == old(self).matched_file_count(),
            final(self).quiet_recorded() == old(self).quiet_recorded(),
            final(self).fatal_failure() == old(self).fatal_failure(),
    {
        let full = self.warnings.is_full();
        self.warnings.offer(warning);
        if full {
            self.warnings_dropped = self.warnings_dropped.wrapping_add(1);
        }
    }

    /// Records `error` unless a failure was already recorded.
    pub fn fail(&mut self, error: Error)
        ensures
            final(self).fatal_failure() == if old(self).fatal_failure().is_none() { Some(error) } else { old(self).fatal_failure() },
            final(self).wf() == old(self).wf(),
            final(self).match_ranking() == old(self).match_ranking(),
            final(self).file_ranking() == old(self).file_ranking(),
            final(self).evidence_ranking() == old(self).evidence_ranking(),
            final(self).warning_ranking() == old(self).warning_ranking(),
            final(self).mode() == old(self).mode(),
            final(self).evidence_mode() == old(self).evidence_mode(),
            final(self).matching_line_count() == old(self).matching_line_count(),
            final(self).occurrence_count() == old(self).occurrence_count(),
            final(self).matched_file_count() == old(self).matched_file_count(),
            final(self).dropped_warning_count() == old(self).dropped_warning_count(),
            final(self).quiet_recorded() == old(self).quiet_recorded(),
    {
        if self.fatal.is_none() {
            self.fatal = Some(error);
        }
    }

    /// Whether a fatal failure was recorded.
    pub fn has_failed(&self) -> (failed: bool)
        ensures
            failed == self.fatal_failure().is_some(),
    {
        self.fatal.is_some()
    }

    /// Whether remaining work should stop: after a failure, or after the
    /// first quiet-mode match.
    pub fn should_quit(&self) -> (quit: bool)
        ensures
            quit == (self.fatal_failure().is_some() || (self.mode() == ResultMode::Quiet && self.quiet_recorded())),
    {
        self.fatal.is_some() || (self.result_mode == ResultMode::Quiet && self.quiet_found)
    }

    /// Takes the recorded fatal failure.
    pub fn take_fatal(&mut self) -> (error: Option<Error>)
        ensures
            error == old(self).fatal_failure(),
            final(self).fatal_failure().is_none(),
            final(self).wf() == old(self).wf(),
            final(self).match_ranking() == old(self).match_ranking(),
            final(self).file_ranking() == old(self).file_ranking(),
            final(self).evidence_ranking() == old(self).evidence_ranking(),
            final(self).warning_ranking() == old(self).warning_ranking(),
            final(self).mode() == old(self).mode(),
            final(self).evidence_mode() == old(self).evidence_mode(),
            final(self).matching_line_count() == old(self).matching_line_count(),
            final(self).occurrence_count() == old(self).occurrence_count(),
            final(self).matched_file_count() == old(self).matched_file_count(),
            final(self).dropped_warning_count() == old(self).dropped_warning_count(),
            final(self).quiet_recorded() == old(self).quiet_recorded(),
    {
        self.fatal.take()
    }

    /// Everything retained, in rank order, with the counters.
    pub fn finish(self) -> (collected: Collected)
        requires
            self.wf(),
        ensures
            collected.matches@ == self.match_ranking().retained(),
            collected.files@ == self.file_ranking().retained(),
            collected.file_evidence@ == self.evidence_ranking().retained(),
            collected.warnings@ == self.warning_ranking().retained(),
            collected.matching_lines == self.matching_line_count(),
            collected.occurrences == self.occurrence_count(),
            collected.files_with_matches == self.matched_file_count(),
            collected.warnings_dropped == self.dropped_warning_count(),
            collected.truncated == (self.match_ranking().is_truncated() || self.file_ranking().is_truncated()),
            collected.file_evidence_truncated == self.evidence_ranking().is_truncated(),
            sorted_by_rank(collected.matches@),
            sorted_by_rank(collected.files@),
            sorted_by_rank(collected.file_evidence@),
            sorted_by_rank(collected.warnings@),
            collected.matches@.len() <= self.match_ranking().limit(),
            collected.files@.len() <= self.file_ranking().limit(),
            collected.file_evidence@.len() <= self.evidence_ranking().limit(),
            collected.warnings@.len() <= self.warning_ranking().limit(),
    {
        let truncated = self.matches.truncated() || self.files.truncated();
        let file_evidence_truncated = self.file_evidence.truncated();
        Collected {
            matches: self.matches.into_sorted(),
            files: self.files.into_sorted(),
            file_evidence: self.file_evidence.into_sorted(),
            warnings: self.warnings.into_sorted(),
            matching_lines: self.matching_lines,
            occurrences: self.occurrences,
            files_with_matches: self.files_with_matches,
            warnings_dropped: self.warnings_dropped,
            truncated,
            file_evidence_truncated,
        }
    }
}

} // verus!

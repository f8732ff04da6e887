use vstd::prelude::*;
use crate::options::ResultMode;

verus! {

/// One matching byte range inside a record's text.
#[derive(Debug, Clone, Copy, PartialEq, Eq, Structural)]
pub struct MatchSpan {
    /// Index of the query pattern that matched, in query order.
    pub pattern_index: usize,
    /// Start byte, relative to the record's text.
    pub start: usize,
    /// End byte (exclusive), relative to the record's text.
    pub end: usize,
}

/// A line retained before or after a match.
#[derive(Debug, Clone)]
pub struct ContextLine {
    /// One-based line number.
    pub line_number: u64,
    /// Line text without its terminator.
    pub text: String,
    /// Whether malformed input was replaced while rendering the text.
    pub lossy: bool,
}

/// One retained match record.
#[derive(Debug, Clone)]
pub struct SearchMatch {
    /// Index of the search root in insertion order.
    pub root_index: usize,
    /// Root-relative path; archive members use `archive!member`.
    pub path: String,
    /// One-based first line of the record.
    pub line_number: u64,
    /// One-based last line of the record.
    pub end_line_number: u64,
    /// Offset of the record in the decoded text.
    pub decoded_byte_offset: u64,
    /// Offset of the record in the source bytes, when decoding kept offsets.
    pub source_byte_offset: Option<u64>,
    /// Record text.
    pub line: String,
    /// Rendered replacement preview, when one was requested.
    pub replacement_preview: Option<String>,
    /// Matching spans inside `line`.
    pub spans: Vec<MatchSpan>,
    /// Preceding context lines.
    pub before: Vec<ContextLine>,
    /// Following context lines.
    pub after: Vec<ContextLine>,
    /// Name of the decoding used for the source.
    pub encoding: String,
    /// Whether malformed input was replaced while rendering.
    pub lossy: bool,
    /// Whether the source was an archive member or compressed stream.
    pub archive: bool,
}

/// One retained per-file summary.
#[derive(Debug, Clone)]
pub struct MatchedFile {
    /// Index of the search root in insertion order.
    pub root_index: usize,
    /// Root-relative path.
    pub path: String,
    /// Lines holding at least one match.
    pub matching_lines: u64,
    /// Matching spans.
    pub occurrences: u64,
    /// Whether the source was an archive member or compressed stream.
    pub archive: bool,
}

/// Text metrics of one completely searched source.
#[derive(Debug, Clone)]
pub struct SourceFileEvidence {
    /// Index of the search root in insertion order.
    pub root_index: usize,
    /// Root-relative path.
    pub path: String,
    /// Source bytes.
    pub source_bytes: u64,
    /// Logical lines.
    pub total_lines: u64,
    /// Lines holding at least one match.
    pub matching_lines: u64,
    /// Matching spans.
    pub occurrences: u64,
    /// Name of the decoding used for the source.
    pub encoding: String,
    /// Whether malformed input was replaced while decoding.
    pub lossy: bool,
    /// Whether the source was an archive member or compressed stream.
    pub archive: bool,
}

/// Category of a non-fatal warning.
#[derive(Debug, Clone, Copy, PartialEq, Eq, Structural, PartialOrd, Ord, Hash)]
pub enum SearchWarningKind {
    /// A binary source was skipped.
    Binary,
    /// Malformed input was replaced while decoding.
    Encoding,
    /// A logical line exceeded its byte limit.
    LineTooLong,
    /// An archive member could not be searched safely.
    Archive,
    /// A configured limit omitted work.
    Limit,
}

/// One retained non-fatal warning.
#[derive(Debug, Clone)]
pub struct SearchWarning {
    /// Source or virtual member path.
    pub path: String,
    /// Warning category.
    pub kind: SearchWarningKind,
    /// Warning detail.
    pub message: String,
}

/// Which engine produced a report.
#[derive(Debug, Clone, Copy, PartialEq, Eq, Structural)]
pub enum SearchBackend {
    /// Direct repository traversal.
    Filesystem,
    /// A persistent index snapshot.
    PersistentIndex,
    /// A watcher-maintained index.
    LiveIndex,
}

/// Index evidence attached to index-backed reports.
#[derive(Debug, Clone)]
pub struct IndexEvidence {
    /// Index revision searched.
    pub revision: String,
    /// Files held by the index.
    pub indexed_files: u64,
    /// Files whose content was verified against the query.
    pub candidate_files: u64,
    /// Whether the trigram prefilter selected the candidates.
    pub prefiltered: bool,
}

/// Deterministic, bounded search result.
#[derive(Debug, Clone)]
pub struct SearchReport {
    /// Display form of the searched roots in insertion order.
    pub roots: Vec<String>,
    /// Retained match records in rank order.
    pub matches: Vec<SearchMatch>,
    /// Retained per-file summaries in rank order.
    pub matched_files: Vec<MatchedFile>,
    /// Retained per-source metrics in rank order.
    pub file_evidence: Vec<SourceFileEvidence>,
    /// Retained warnings in rank order.
    pub warnings: Vec<SearchWarning>,
    /// Lines holding at least one match.
    pub matching_lines: u64,
    /// Matching spans.
    pub occurrences: u64,
    /// Sources holding at least one match.
    pub files_with_matches: u64,
    /// Sources searched.
    pub files_searched: u64,
    /// Source bytes searched.
    pub bytes_searched: u64,
    /// Whether match or file records were omitted by the result limit.
    pub truncated: bool,
    /// Whether per-source metrics were omitted by their limit.
    pub file_evidence_truncated: bool,
    /// Warnings omitted by the warning limit.
    pub warnings_dropped: u64,
    /// Result mode that produced the report.
    pub result_mode: ResultMode,
    /// Engine that produced the report.
    pub backend: SearchBackend,
    /// Index evidence for index-backed reports.
    pub index: Option<IndexEvidence>,
}

} // verus!

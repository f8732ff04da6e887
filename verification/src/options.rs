use vstd::prelude::*;

verus! {

/// Controls case handling for literal and regular-expression queries.
#[derive(Debug, Clone, Copy, PartialEq, Eq, Structural, Default)]
pub enum CaseMode {
    /// Match case exactly.
    #[default]
    Sensitive,
    /// Match without case sensitivity.
    Insensitive,
    /// Ignore case unless the query contains an uppercase character.
    Smart,
}

/// Controls how file bytes are decoded before matching.
#[derive(Debug, Clone, PartialEq, Eq, Default)]
pub enum EncodingMode {
    /// Detect UTF-8/UTF-16 BOMs and otherwise assume UTF-8.
    #[default]
    Auto,
    /// Decode as UTF-8.
    Utf8,
    /// Decode as little-endian UTF-16.
    Utf16Le,
    /// Decode as big-endian UTF-16.
    Utf16Be,
    /// Decode with an `encoding_rs` label such as `windows-1252`.
    Label(String),
}

/// Controls handling of inputs with a NUL byte near the beginning.
#[derive(Debug, Clone, Copy, PartialEq, Eq, Structural, Default)]
pub enum BinaryPolicy {
    /// Skip the input and retain a typed warning.
    #[default]
    Skip,
    /// Search binary input as decoded text.
    Search,
}

/// Controls whether per-file search failures stop the whole operation.
#[derive(Debug, Clone, Copy, PartialEq, Eq, Structural, Default)]
pub enum SearchErrorPolicy {
    /// Retain a typed warning and continue with other files.
    #[default]
    Continue,
    /// Cancel remaining work and return the first failure.
    Abort,
}

/// Controls whether matching is isolated to logical lines.
#[derive(Debug, Clone, Copy, PartialEq, Eq, Structural, Default)]
pub enum SearchMode {
    /// Search each logical line independently with streaming content.
    #[default]
    Line,
    /// Permit matches across line boundaries under a whole-file byte limit.
    Multiline,
}

/// Controls retained output while preserving aggregate counters.
#[derive(Debug, Clone, Copy, PartialEq, Eq, Structural, Default)]
pub enum ResultMode {
    /// Retain bounded line or multiline match evidence.
    #[default]
    Matches,
    /// Retain no match records and return aggregate counters only.
    Count,
    /// Retain bounded per-file summaries without line text.
    Files,
    /// Stop all workers after the first observed match.
    Quiet,
}

/// Controls deterministic retention of completed per-source text metrics.
#[derive(Debug, Clone, Copy, PartialEq, Eq, Structural, Default)]
pub enum FileEvidenceMode {
    /// Do not retain per-source metrics in the final report.
    #[default]
    Disabled,
    /// Retain metrics only for sources containing at least one match.
    Matched,
    /// Retain metrics for every source whose text search completed.
    All,
}

/// Resource and expansion limits for archive search.
#[derive(Debug, Clone)]
pub struct ArchiveOptions {
    /// Enables archive recognition and member search.
    pub enabled: bool,
    /// Maximum compressed/source bytes accepted for one archive.
    pub max_archive_bytes: u64,
    /// Maximum expanded bytes accepted for one member.
    pub max_entry_bytes: u64,
    /// Maximum cumulative expanded bytes accepted for one archive.
    pub max_expanded_bytes: u64,
    /// Maximum members visited in one archive.
    pub max_entries: usize,
    /// Maximum decoder dictionary/scratch memory when the format exposes a
    /// configurable bound.
    pub max_decoder_memory_bytes: usize,
}

impl ArchiveOptions {
    /// The archive policy used when nothing else is configured.
    pub open spec fn spec_default() -> ArchiveOptions {
        ArchiveOptions {
            enabled: true,
            max_archive_bytes: 33_554_432,
            max_entry_bytes: 16_777_216,
            max_expanded_bytes: 134_217_728,
            max_entries: 10_000,
            max_decoder_memory_bytes: 67_108_864,
        }
    }
}

impl Default for ArchiveOptions {
    fn default() -> (options: Self)
        ensures
            options == ArchiveOptions::spec_default(),
    {
        ArchiveOptions {
            enabled: true,
            max_archive_bytes: 32 * 1024 * 1024,
            max_entry_bytes: 16 * 1024 * 1024,
            max_expanded_bytes: 128 * 1024 * 1024,
            max_entries: 10_000,
            max_decoder_memory_bytes: 64 * 1024 * 1024,
        }
    }
}

/// Repository search policy and resource bounds.
#[derive(Debug, Clone)]
pub struct SearchOptions {
    /// Query case policy.
    pub case: CaseMode,
    /// Number of preceding lines retained per match.
    pub before_context: usize,
    /// Number of following lines retained per match.
    pub after_context: usize,
    /// Maximum deterministic match records retained in memory.
    pub max_results: usize,
    /// Maximum deterministic warnings retained in memory.
    pub max_warnings: usize,
    /// Controls retained per-source text metrics.
    pub file_evidence: FileEvidenceMode,
    /// Maximum deterministic per-source metric records retained in memory.
    pub max_file_evidence: usize,
    /// Maximum bytes accepted for one ordinary source file.
    pub max_file_bytes: u64,
    /// Maximum bytes retained for one logical line.
    pub max_line_bytes: usize,
    /// Maximum source bytes buffered in multiline mode.
    pub max_multiline_bytes: u64,
    /// Optional non-mutating replacement template used to render previews.
    ///
    /// `$0`, numbered groups, named groups, and `$$` follow
    /// `regex-automata` replacement syntax.
    pub replacement: Option<String>,
    /// Maximum UTF-8 bytes retained for one replacement preview.
    pub max_replacement_bytes: usize,
    /// Line-isolated or multiline matching.
    pub mode: SearchMode,
    /// Match evidence, aggregate count, file summary, or early-exit output.
    pub result_mode: ResultMode,
    /// Input decoding policy.
    pub encoding: EncodingMode,
    /// Binary-input policy.
    pub binary: BinaryPolicy,
    /// Archive recognition and expansion policy.
    pub archives: ArchiveOptions,
    /// Per-file failure policy.
    pub error_policy: SearchErrorPolicy,
}

impl SearchOptions {
    /// The search policy used when nothing else is configured.
    pub open spec fn spec_default() -> SearchOptions {
        SearchOptions {
            case: CaseMode::Sensitive,
            before_context: 0,
            after_context: 0,
            max_results: 10_000,
            max_warnings: 1_000,
            file_evidence: FileEvidenceMode::Disabled,
            max_file_evidence: 100_000,
            max_file_bytes: 33_554_432,
            max_line_bytes: 8_388_608,
            max_multiline_bytes: 8_388_608,
            replacement: None,
            max_replacement_bytes: 8_388_608,
            mode: SearchMode::Line,
            result_mode: ResultMode::Matches,
            encoding: EncodingMode::Auto,
            binary: BinaryPolicy::Skip,
            archives: ArchiveOptions::spec_default(),
            error_policy: SearchErrorPolicy::Continue,
        }
    }
}

impl Default for SearchOptions {
    fn default() -> (options: Self)
        ensures
            options == SearchOptions::spec_default(),
    {
        SearchOptions {
            case: CaseMode::Sensitive,
            before_context: 0,
            after_context: 0,
            max_results: 10_000,
            max_warnings: 1_000,
            file_evidence: FileEvidenceMode::Disabled,
            max_file_evidence: 100_000,
            max_file_bytes: 32 * 1024 * 1024,
            max_line_bytes: 8 * 1024 * 1024,
            max_multiline_bytes: 8 * 1024 * 1024,
            replacement: None,
            max_replacement_bytes: 8 * 1024 * 1024,
            mode: SearchMode::Line,
            result_mode: ResultMode::Matches,
            encoding: EncodingMode::Auto,
            binary: BinaryPolicy::Skip,
            archives: ArchiveOptions::default(),
            error_policy: SearchErrorPolicy::Continue,
        }
    }
}

impl SearchOptions {
    /// Sets query case handling.
    pub fn with_case(self, case: CaseMode) -> (options: Self)
        ensures
            options == (SearchOptions { case, ..self }),
    {
        SearchOptions { case, ..self }
    }

    /// Sets the number of lines retained before and after every match.
    pub fn with_context(self, before: usize, after: usize) -> (options: Self)
        ensures
            options == (SearchOptions { before_context: before, after_context: after, ..self }),
    {
        SearchOptions { before_context: before, after_context: after, ..self }
    }

    /// Sets the deterministic retained-result limit.
    pub fn with_max_results(self, max_results: usize) -> (options: Self)
        ensures
            options == (SearchOptions { max_results, ..self }),
    {
        SearchOptions { max_results, ..self }
    }

    /// Sets the deterministic retained-warning limit.
    pub fn with_max_warnings(self, max_warnings: usize) -> (options: Self)
        ensures
            options == (SearchOptions { max_warnings, ..self }),
    {
        SearchOptions { max_warnings, ..self }
    }

    /// Sets deterministic per-source metric retention.
    pub fn with_file_evidence(self, file_evidence: FileEvidenceMode) -> (options: Self)
        ensures
            options == (SearchOptions { file_evidence, ..self }),
    {
        SearchOptions { file_evidence, ..self }
    }

    /// Sets the deterministic retained per-source metric limit.
    pub fn with_max_file_evidence(self, max_file_evidence: usize) -> (options: Self)
        ensures
            options == (SearchOptions { max_file_evidence, ..self }),
    {
        SearchOptions { max_file_evidence, ..self }
    }

    /// Sets the ordinary source-file size limit.
    pub fn with_max_file_bytes(self, max_file_bytes: u64) -> (options: Self)
        ensures
            options == (SearchOptions { max_file_bytes, ..self }),
    {
        SearchOptions { max_file_bytes, ..self }
    }

    /// Sets the per-line byte limit.
    pub fn with_max_line_bytes(self, max_line_bytes: usize) -> (options: Self)
        ensures
            options == (SearchOptions { max_line_bytes, ..self }),
    {
        SearchOptions { max_line_bytes, ..self }
    }

    /// Sets the multiline whole-file buffer limit.
    pub fn with_max_multiline_bytes(self, max_multiline_bytes: u64) -> (options: Self)
        ensures
            options == (SearchOptions { max_multiline_bytes, ..self }),
    {
        SearchOptions { max_multiline_bytes, ..self }
    }

    /// Enables a non-mutating replacement preview for every retained match.
    pub fn with_replacement(self, replacement: String) -> (options: Self)
        ensures
            options == (SearchOptions { replacement: Some(replacement), ..self }),
    {
        SearchOptions { replacement: Some(replacement), ..self }
    }

    /// Sets the byte limit for one rendered replacement preview.
    pub fn with_max_replacement_bytes(self, max_replacement_bytes: usize) -> (options: Self)
        ensures
            options == (SearchOptions { max_replacement_bytes, ..self }),
    {
        SearchOptions { max_replacement_bytes, ..self }
    }

    /// Sets line-isolated or multiline matching.
    pub fn with_mode(self, mode: SearchMode) -> (options: Self)
        ensures
            options == (SearchOptions { mode, ..self }),
    {
        SearchOptions { mode, ..self }
    }

    /// Sets retained output and early-exit behavior.
    pub fn with_result_mode(self, result_mode: ResultMode) -> (options: Self)
        ensures
            options == (SearchOptions { result_mode, ..self }),
    {
        SearchOptions { result_mode, ..self }
    }

    /// Sets the decoding policy.
    pub fn with_encoding(self, encoding: EncodingMode) -> (options: Self)
        ensures
            options == (SearchOptions { encoding, ..self }),
    {
        SearchOptions { encoding, ..self }
    }

    /// Sets binary-input handling.
    pub fn with_binary_policy(self, binary: BinaryPolicy) -> (options: Self)
        ensures
            options == (SearchOptions { binary, ..self }),
    {
        SearchOptions { binary, ..self }
    }

    /// Replaces archive recognition and expansion policy.
    pub fn with_archives(self, archives: ArchiveOptions) -> (options: Self)
        ensures
            options == (SearchOptions { archives, ..self }),
    {
        SearchOptions { archives, ..self }
    }

    /// Sets per-file error handling.
    pub fn with_error_policy(self, error_policy: SearchErrorPolicy) -> (options: Self)
        ensures
            options == (SearchOptions { error_policy, ..self }),
    {
        SearchOptions { error_policy, ..self }
    }
}

} // verus!

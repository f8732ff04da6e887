//! Bounded, deterministic repository content search.
//!
//! The library holds the search logic: query preparation, streaming line
//! splitting, bounded multiline blocks, deterministic result retention,
//! archive safety rules, report rendering and the persistent index format.
//! File discovery, threads and operating-system I/O live with the caller.

pub mod archive;
pub mod collector;
pub mod line_search;
pub mod encoding;
pub mod index;
mod error;
mod options;
pub mod output;
pub mod query;
pub mod lines;
pub mod live;
pub mod multiline;
pub mod ranking;
pub mod replace;
mod report;
pub mod searcher;
pub mod text;

pub use options::{
    ArchiveOptions, BinaryPolicy, CaseMode, EncodingMode, FileEvidenceMode, ResultMode,
    SearchErrorPolicy, SearchMode, SearchOptions,
};
pub use error::{Error, Result};
pub use report::{
    ContextLine, IndexEvidence, MatchSpan, MatchedFile, SearchBackend, SearchMatch, SearchReport,
    SearchWarning, SearchWarningKind, SourceFileEvidence,
};
pub use index::changes::IndexUpdateReport;
pub use index::model::{IndexOptions, IndexStatus, PersistentIndex};
pub use live::{LiveIndexOptions, LiveIndexStatus};
pub use output::{write_report, write_report_with, write_warnings, ColorChoice, OutputFormat, OutputOptions};
pub use query::SearchQuery;
pub use searcher::{search, search_many, SourceFile};

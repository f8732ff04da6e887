//! The persistent index: an immutable, checksummed snapshot of selected
//! files with per-file trigram filters for literal prefiltering.
pub mod bloom;
pub mod codec;
pub mod model;
pub mod format;
pub mod storage;
pub mod assemble;
pub mod lookup;
pub mod order;
pub mod changes;
pub mod exclusion;
pub mod stream;

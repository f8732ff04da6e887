//! Streamed collection of the files of a new index: a file arrives as its
//! start with the size it declares, chunks of its bytes, and its end with
//! what was read. The content and entry limits are enforced as bytes
//! arrive, a file that changed while it was read is left out, and the
//! first failure stops the collection.
use vstd::prelude::*;
use crate::error::Error;
use crate::index::model::IndexOptions;
use crate::lines::sat_add;
use crate::searcher::SourceFile;
use crate::text::{append_decimal, decimal_chars};

verus! {

/// One event of a streamed scan.
pub enum BuildEvent {
    /// A selected file opens: its root, its root-relative path and the
    /// size it declares.
    FileStart { root_index: usize, path: String, declared_bytes: u64 },
    /// Bytes read from the open file.
    Chunk(Vec<u8>),
    /// The open file ends: whether it changed while it was read, and how
    /// many bytes were read.
    FileEnd { changed: bool, bytes_read: u64 },
}

/// Whether a streamed scan goes on.
#[derive(Debug, PartialEq, Eq, Structural)]
pub enum BuildControl {
    Continue,
    Quit,
}

/// The file being read.
pub struct OpenFile {
    pub root_index: usize,
    pub path: String,
    pub expected_bytes: u64,
    pub content: Vec<u8>,
}

/// What a streamed scan has collected.
pub struct BuildCollector {
    /// The files read whole and unchanged, in the order they ended.
    pub sources: Vec<SourceFile>,
    /// The failure that stopped the scan.
    pub failure: Option<Error>,
    /// Bytes offered so far, counted as they arrive.
    pub retained_bytes: u64,
    /// Files retained so far.
    pub retained_entries: u64,
    /// The file being read.
    pub file: Option<OpenFile>,
}

/// The failure recorded for the file at `path` with `message`.
pub open spec fn failed_with(c: BuildCollector, path: Seq<char>, message: Seq<char>) -> bool {
    c.failure matches Some(Error::Index { path: p, message: m }) && p@ == path && m@ == message
}

/// `after` keeps the sources of `before`.
pub open spec fn kept_sources(before: BuildCollector, after: BuildCollector) -> bool {
    after.sources@ == before.sources@
}

/// What one event does to a scan that has not failed (see `visit`).
pub open spec fn visited(before: BuildCollector, after: BuildCollector, event: BuildEvent, limits: IndexOptions,
    control: BuildControl) -> bool {
    match event {
        BuildEvent::FileStart { root_index, path, declared_bytes } => if declared_bytes > usize::MAX {
            &&& control == BuildControl::Quit
            &&& failed_with(after, path@, decimal_chars(declared_bytes as nat) + " source bytes do not fit in memory"@)
            &&& kept_sources(before, after)
            &&& after.retained_bytes == before.retained_bytes
            &&& after.retained_entries == before.retained_entries
            &&& after.file == before.file
        } else {
            &&& control == BuildControl::Continue
            &&& after.failure == before.failure
            &&& kept_sources(before, after)
            &&& after.retained_bytes == before.retained_bytes
            &&& after.retained_entries == before.retained_entries
            &&& after.file matches Some(f) && f.root_index == root_index && f.path == path && f.expected_bytes == declared_bytes
                && f.content@.len() == 0
        },
        BuildEvent::Chunk(bytes) => match before.file {
            None => control == BuildControl::Continue && after == before,
            Some(f) => {
                let size = bytes@.len() as u64;
                &&& after.retained_bytes == before.retained_bytes.wrapping_add(size)
                &&& after.retained_entries == before.retained_entries
                &&& kept_sources(before, after)
                &&& if sat_add(before.retained_bytes, size as int) > limits.max_content_bytes {
                    &&& control == BuildControl::Quit
                    &&& failed_with(after, f.path@, "content exceeds "@ + decimal_chars(limits.max_content_bytes as nat) + " bytes"@)
                    &&& after.file == before.file
                } else {
                    &&& control == BuildControl::Continue
                    &&& after.failure == before.failure
                    &&& after.file matches Some(g) && g.root_index == f.root_index && g.path == f.path
                        && g.expected_bytes == f.expected_bytes && g.content@ == f.content@ + bytes@
                }
            },
        },
        BuildEvent::FileEnd { changed, bytes_read } => {
            &&& after.file is None
            &&& after.retained_bytes == before.retained_bytes
            &&& match before.file {
                None => control == BuildControl::Continue && after.failure == before.failure && kept_sources(before, after)
                    && after.retained_entries == before.retained_entries,
                Some(f) => if changed || bytes_read != f.expected_bytes || bytes_read != f.content@.len() {
                    control == BuildControl::Continue && after.failure == before.failure && kept_sources(before, after)
                        && after.retained_entries == before.retained_entries
                } else {
                    let count = before.retained_entries.wrapping_add(1);
                    &&& after.retained_entries == count
                    &&& if count > limits.max_entries {
                        &&& control == BuildControl::Quit
                        &&& failed_with(after, f.path@, "entry count exceeds "@ + decimal_chars(limits.max_entries as nat))
                        &&& kept_sources(before, after)
                    } else {
                        &&& control == BuildControl::Continue
                        &&& after.failure == before.failure
                        &&& after.sources@ == before.sources@.push(SourceFile { root_index: f.root_index, path: f.path, bytes: f.content })
                    }
                },
            }
        },
    }
}

fn index_failure(path: String, head: &str, n: u64, tail: &str) -> (error: Error)
    ensures
        error matches Error::Index { path: p, message: m } && p == path && m@ == head@ + decimal_chars(n as nat) + tail@,
{
    let mut message = String::from_str(head);
    append_decimal(&mut message, n);
    message.append(tail);
    Error::Index { path, message }
}

impl BuildCollector {
    /// A scan that has collected nothing.
    pub fn new() -> (collector: Self)
        ensures
            collector.sources@.len() == 0,
            collector.failure is None,
            collector.retained_bytes == 0,
            collector.retained_entries == 0,
            collector.file is None,
    {
        BuildCollector { sources: Vec::new(), failure: None, retained_bytes: 0, retained_entries: 0, file: None }
    }

    /// Takes one event of the scan and says whether the scan goes on: a
    /// failed scan quits at once; a file that declares more bytes than
    /// memory can hold fails; a chunk that takes the bytes offered over
    /// the content limit fails; a file that changed, or whose bytes read
    /// differ from its declared size or from what arrived, is left out; a
    /// file that takes the retained files over the entry limit fails.
    pub fn visit(&mut self, event: BuildEvent, limits: &IndexOptions) -> (control: BuildControl)
        ensures
            old(self).failure is Some ==> control == BuildControl::Quit && *final(self) == *old(self),
            old(self).failure is None ==> visited(*old(self), *final(self), event, *limits, control),
    {
        if self.failure.is_some() {
            return BuildControl::Quit;
        }
        match event {
            BuildEvent::FileStart { root_index, path, declared_bytes } => {
                if declared_bytes as u128 > usize::MAX as u128 {
                    proof {
                        reveal_strlit(" source bytes do not fit in memory");
                        reveal_strlit("");
                    }
                    let error = index_failure(path, "", declared_bytes, " source bytes do not fit in memory");
                    proof {
                        assert(""@ + decimal_chars(declared_bytes as nat) + " source bytes do not fit in memory"@
                            =~= decimal_chars(declared_bytes as nat) + " source bytes do not fit in memory"@);
                    }
                    self.failure = Some(error);
                    return BuildControl::Quit;
                }
                self.file = Some(OpenFile { root_index, path, expected_bytes: declared_bytes, content: Vec::new() });
                BuildControl::Continue
            },
            BuildEvent::Chunk(bytes) => {
                let mut file = match self.file.take() {
                    Some(file) => file,
                    None => {
                        return BuildControl::Continue;
                    },
                };
                let size: u64 = bytes.len() as u64;
                let previous: u64 = self.retained_bytes;
                self.retained_bytes = previous.wrapping_add(size);
                if previous.saturating_add(size) > limits.max_content_bytes {
                    proof {
                        reveal_strlit("content exceeds ");
                        reveal_strlit(" bytes");
                    }
                    let error = index_failure(file.path.clone(), "content exceeds ", limits.max_content_bytes, " bytes");
                    self.failure = Some(error);
                    self.file = Some(file);
                    return BuildControl::Quit;
                }
                let mut added = bytes;
                file.content.append(&mut added);
                self.file = Some(file);
                BuildControl::Continue
            },
            BuildEvent::FileEnd { changed, bytes_read } => {
                let file = match self.file.take() {
                    Some(file) => file,
                    None => {
                        return BuildControl::Continue;
                    },
                };
                if changed || bytes_read != file.expected_bytes || bytes_read != file.content.len() as u64 {
                    return BuildControl::Continue;
                }
                let count: u64 = self.retained_entries.wrapping_add(1);
                self.retained_entries = count;
                if count > limits.max_entries {
                    proof {
                        reveal_strlit("entry count exceeds ");
                        reveal_strlit("");
                    }
                    let error = index_failure(file.path, "entry count exceeds ", limits.max_entries, "");
                    proof {
                        assert("entry count exceeds "@ + decimal_chars(limits.max_entries as nat) + ""@
                            =~= "entry count exceeds "@ + decimal_chars(limits.max_entries as nat));
                    }
                    self.failure = Some(error);
                    return BuildControl::Quit;
                }
                self.sources.push(SourceFile { root_index: file.root_index, path: file.path, bytes: file.content });
                BuildControl::Continue
            },
        }
    }
}

} // verus!

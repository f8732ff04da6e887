//! Archive recognition, safe member paths, bounded expansion, and search
//! of archive members.
use vstd::prelude::*;
use vstd::utf8::encode_utf8;
use std::io::Read;
use crate::collector::{rooted, Collector};
use crate::encoding::{complete_outcome, counted, given_identity, label_encoding_name, lemma_complete_rooted, search_complete_bytes, source_line_counts};
use crate::error::{Error, Result};
use crate::line_search::{only_warned, SearchIdentity};
use crate::options::{EncodingMode, ResultMode, SearchMode, SearchOptions};
use crate::query::{CompiledQuery, QueryCache, cache_matches, query_matcher};
use crate::report::{SearchWarning, SearchWarningKind};
use crate::text::{append_decimal, decimal_chars, lemma_ascii_bytes, lossy_string, lossy_utf8};

verus! {

/// A recognized archive or compressed-file format.
#[derive(Debug, Clone, Copy, PartialEq, Eq, Structural)]
pub enum ArchiveKind {
    Zip,
    Tar,
    TarGzip,
    Gzip,
    TarBzip2,
    Bzip2,
    TarZstd,
    Zstd,
    TarLz4,
    Lz4,
    TarLzma,
    Lzma,
    TarXz,
    Xz,
    TarBrotli,
    Brotli,
}

/// An ASCII byte in lower case.
pub open spec fn ascii_lower(b: u8) -> u8 {
    if 65 <= b <= 90 { (b + 32) as u8 } else { b }
}

/// `path` ends with `suffix`, ignoring ASCII case.
#[verifier::opaque]
pub open spec fn ends_with_ignore_case(path: Seq<u8>, suffix: Seq<u8>) -> bool {
    &&& suffix.len() <= path.len()
    &&& forall|i: int| 0 <= i < suffix.len() ==> ascii_lower(#[trigger] path[path.len() - suffix.len() + i]) == ascii_lower(suffix[i])
}

/// Whether `path` ends with `suffix`, ignoring ASCII case.
pub fn has_suffix(path: &[u8], suffix: &str) -> (found: bool)
    ensures
        found == ends_with_ignore_case(path@, encode_utf8(suffix@)),
{
    proof {
        reveal(ends_with_ignore_case);
    }
    let tail = suffix.as_bytes();
    if tail.len() > path.len() {
        return false;
    }
    let plen = path.len();
    let start = plen - tail.len();
    let mut i: usize = 0;
    while i < tail.len()
        invariant
            i <= tail@.len(),
            start == path@.len() - tail@.len(),
            tail@.len() <= path@.len(),
            plen == path@.len(),
            start + tail@.len() == plen,
            tail@ == encode_utf8(suffix@),
            forall|k: int| 0 <= k < i ==> ascii_lower(#[trigger] path@[path@.len() - tail@.len() + k]) == ascii_lower(tail@[k]),
        decreases tail@.len() - i,
    {
        let a = path[start + i];
        let b = tail[i];
        let lower_a = if 65u8 <= a && a <= 90u8 { a + 32 } else { a };
        let lower_b = if 65u8 <= b && b <= 90u8 { b + 32 } else { b };
        if lower_a != lower_b {
            proof {
                reveal(ends_with_ignore_case);
            }
            return false;
        }
        i = i + 1;
    }
    proof {
        reveal(ends_with_ignore_case);
    }
    true
}

/// The archive kind a path's suffix names.
pub open spec fn kind_of(path: Seq<u8>) -> Option<ArchiveKind> {
    let has = |s: &str| ends_with_ignore_case(path, encode_utf8(s@));
    if has(".tgz") || has(".tar.gz") {
        Some(ArchiveKind::TarGzip)
    } else if has(".tbz") || has(".tbz2") || has(".tar.bz2") || has(".tar.bz") {
        Some(ArchiveKind::TarBzip2)
    } else if has(".tzst") || has(".tar.zst") || has(".tar.zstd") {
        Some(ArchiveKind::TarZstd)
    } else if has(".tar.lz4") {
        Some(ArchiveKind::TarLz4)
    } else if has(".tlz") || has(".tar.lzma") {
        Some(ArchiveKind::TarLzma)
    } else if has(".txz") || has(".tar.xz") {
        Some(ArchiveKind::TarXz)
    } else if has(".tar.br") {
        Some(ArchiveKind::TarBrotli)
    } else if has(".zip") {
        Some(ArchiveKind::Zip)
    } else if has(".tar") {
        Some(ArchiveKind::Tar)
    } else if has(".gz") {
        Some(ArchiveKind::Gzip)
    } else if has(".bz2") || has(".bz") {
        Some(ArchiveKind::Bzip2)
    } else if has(".zst") || has(".zstd") {
        Some(ArchiveKind::Zstd)
    } else if has(".lz4") {
        Some(ArchiveKind::Lz4)
    } else if has(".lzma") {
        Some(ArchiveKind::Lzma)
    } else if has(".xz") {
        Some(ArchiveKind::Xz)
    } else if has(".br") {
        Some(ArchiveKind::Brotli)
    } else {
        None
    }
}

/// `path` ends in the ASCII text `suffix`, ignoring ASCII case.
#[verifier::opaque]
pub open spec fn ends_in(path: Seq<u8>, suffix: Seq<char>) -> bool {
    &&& suffix.len() <= path.len()
    &&& forall|i: int| 0 <= i < suffix.len()
        ==> ascii_lower(#[trigger] path[path.len() - suffix.len() + i]) == ascii_lower(suffix[i] as u8)
}

proof fn lemma_ends_in(path: Seq<u8>, chars: Seq<char>, bytes: Seq<u8>)
    requires
        chars.len() == bytes.len(),
        forall|i: int| 0 <= i < chars.len() ==> chars[i] as u8 == #[trigger] bytes[i],
    ensures
        ends_in(path, chars) == ends_with_ignore_case(path, bytes),
{
    reveal(ends_in);
    reveal(ends_with_ignore_case);
    if ends_in(path, chars) {
        assert forall|i: int| 0 <= i < bytes.len() implies ascii_lower(#[trigger] path[path.len() - bytes.len() + i])
            == ascii_lower(bytes[i]) by {
            assert(ascii_lower(path[path.len() - chars.len() + i]) == ascii_lower(chars[i] as u8));
        }
    }
    if ends_with_ignore_case(path, bytes) {
        assert forall|i: int| 0 <= i < chars.len() implies ascii_lower(#[trigger] path[path.len() - chars.len() + i])
            == ascii_lower(chars[i] as u8) by {
            assert(ascii_lower(path[path.len() - bytes.len() + i]) == ascii_lower(bytes[i]));
        }
    }
}

/// A path that ends in `s` does not end in a suffix `t` that differs from
/// `s` at the `j`-th byte from the end.
proof fn lemma_suffix_clash(path: Seq<u8>, s: Seq<u8>, t: Seq<u8>, j: int)
    requires
        ends_with_ignore_case(path, s),
        0 <= j < s.len(),
        j < t.len(),
        ascii_lower(s[s.len() - 1 - j]) != ascii_lower(t[t.len() - 1 - j]),
    ensures
        !ends_with_ignore_case(path, t),
{
    reveal(ends_with_ignore_case);
    let a = s.len() - 1 - j;
    assert(ascii_lower(path[path.len() - s.len() + a]) == ascii_lower(s[a]));
    if ends_with_ignore_case(path, t) {
        let b = t.len() - 1 - j;
        assert(ascii_lower(path[path.len() - t.len() + b]) == ascii_lower(t[b]));
        assert(path.len() - t.len() + b == path.len() - s.len() + a);
    }
}

proof fn lemma_bytes_of_tgz()
    ensures
        encode_utf8(".tgz"@) == seq![46u8, 116u8, 103u8, 122u8],
{
    reveal_strlit(".tgz");
    lemma_ascii_bytes(".tgz"@, seq![46u8, 116u8, 103u8, 122u8]);
}

proof fn lemma_bytes_of_tar_gz()
    ensures
        encode_utf8(".tar.gz"@) == seq![46u8, 116u8, 97u8, 114u8, 46u8, 103u8, 122u8],
{
    reveal_strlit(".tar.gz");
    lemma_ascii_bytes(".tar.gz"@, seq![46u8, 116u8, 97u8, 114u8, 46u8, 103u8, 122u8]);
}

proof fn lemma_bytes_of_tbz()
    ensures
        encode_utf8(".tbz"@) == seq![46u8, 116u8, 98u8, 122u8],
{
    reveal_strlit(".tbz");
    lemma_ascii_bytes(".tbz"@, seq![46u8, 116u8, 98u8, 122u8]);
}

proof fn lemma_bytes_of_tbz2()
    ensures
        encode_utf8(".tbz2"@) == seq![46u8, 116u8, 98u8, 122u8, 50u8],
{
    reveal_strlit(".tbz2");
    lemma_ascii_bytes(".tbz2"@, seq![46u8, 116u8, 98u8, 122u8, 50u8]);
}

proof fn lemma_bytes_of_tar_bz2()
    ensures
        encode_utf8(".tar.bz2"@) == seq![46u8, 116u8, 97u8, 114u8, 46u8, 98u8, 122u8, 50u8],
{
    reveal_strlit(".tar.bz2");
    lemma_ascii_bytes(".tar.bz2"@, seq![46u8, 116u8, 97u8, 114u8, 46u8, 98u8, 122u8, 50u8]);
}

proof fn lemma_bytes_of_tar_bz()
    ensures
        encode_utf8(".tar.bz"@) == seq![46u8, 116u8, 97u8, 114u8, 46u8, 98u8, 122u8],
{
    reveal_strlit(".tar.bz");
    lemma_ascii_bytes(".tar.bz"@, seq![46u8, 116u8, 97u8, 114u8, 46u8, 98u8, 122u8]);
}

proof fn lemma_bytes_of_tzst()
    ensures
        encode_utf8(".tzst"@) == seq![46u8, 116u8, 122u8, 115u8, 116u8],
{
    reveal_strlit(".tzst");
    lemma_ascii_bytes(".tzst"@, seq![46u8, 116u8, 122u8, 115u8, 116u8]);
}

proof fn lemma_bytes_of_tar_zst()
    ensures
        encode_utf8(".tar.zst"@) == seq![46u8, 116u8, 97u8, 114u8, 46u8, 122u8, 115u8, 116u8],
{
    reveal_strlit(".tar.zst");
    lemma_ascii_bytes(".tar.zst"@, seq![46u8, 116u8, 97u8, 114u8, 46u8, 122u8, 115u8, 116u8]);
}

proof fn lemma_bytes_of_tar_zstd()
    ensures
        encode_utf8(".tar.zstd"@) == seq![46u8, 116u8, 97u8, 114u8, 46u8, 122u8, 115u8, 116u8, 100u8],
{
    reveal_strlit(".tar.zstd");
    lemma_ascii_bytes(".tar.zstd"@, seq![46u8, 116u8, 97u8, 114u8, 46u8, 122u8, 115u8, 116u8, 100u8]);
}

proof fn lemma_bytes_of_tar_lz4()
    ensures
        encode_utf8(".tar.lz4"@) == seq![46u8, 116u8, 97u8, 114u8, 46u8, 108u8, 122u8, 52u8],
{
    reveal_strlit(".tar.lz4");
    lemma_ascii_bytes(".tar.lz4"@, seq![46u8, 116u8, 97u8, 114u8, 46u8, 108u8, 122u8, 52u8]);
}

proof fn lemma_bytes_of_tlz()
    ensures
        encode_utf8(".tlz"@) == seq![46u8, 116u8, 108u8, 122u8],
{
    reveal_strlit(".tlz");
    lemma_ascii_bytes(".tlz"@, seq![46u8, 116u8, 108u8, 122u8]);
}

proof fn lemma_bytes_of_tar_lzma()
    ensures
        encode_utf8(".tar.lzma"@) == seq![46u8, 116u8, 97u8, 114u8, 46u8, 108u8, 122u8, 109u8, 97u8],
{
    reveal_strlit(".tar.lzma");
    lemma_ascii_bytes(".tar.lzma"@, seq![46u8, 116u8, 97u8, 114u8, 46u8, 108u8, 122u8, 109u8, 97u8]);
}

proof fn lemma_bytes_of_txz()
    ensures
        encode_utf8(".txz"@) == seq![46u8, 116u8, 120u8, 122u8],
{
    reveal_strlit(".txz");
    lemma_ascii_bytes(".txz"@, seq![46u8, 116u8, 120u8, 122u8]);
}

proof fn lemma_bytes_of_tar_xz()
    ensures
        encode_utf8(".tar.xz"@) == seq![46u8, 116u8, 97u8, 114u8, 46u8, 120u8, 122u8],
{
    reveal_strlit(".tar.xz");
    lemma_ascii_bytes(".tar.xz"@, seq![46u8, 116u8, 97u8, 114u8, 46u8, 120u8, 122u8]);
}

proof fn lemma_bytes_of_tar_br()
    ensures
        encode_utf8(".tar.br"@) == seq![46u8, 116u8, 97u8, 114u8, 46u8, 98u8, 114u8],
{
    reveal_strlit(".tar.br");
    lemma_ascii_bytes(".tar.br"@, seq![46u8, 116u8, 97u8, 114u8, 46u8, 98u8, 114u8]);
}

proof fn lemma_bytes_of_zip()
    ensures
        encode_utf8(".zip"@) == seq![46u8, 122u8, 105u8, 112u8],
{
    reveal_strlit(".zip");
    lemma_ascii_bytes(".zip"@, seq![46u8, 122u8, 105u8, 112u8]);
}

proof fn lemma_bytes_of_tar()
    ensures
        encode_utf8(".tar"@) == seq![46u8, 116u8, 97u8, 114u8],
{
    reveal_strlit(".tar");
    lemma_ascii_bytes(".tar"@, seq![46u8, 116u8, 97u8, 114u8]);
}

#[verifier::rlimit(100)]
proof fn lemma_kind_of_tgz(path: Seq<u8>)
    ensures
        ends_in(path, seq!['.', 't', 'g', 'z']) ==> kind_of(path) == Some(ArchiveKind::TarGzip),
{
    if ends_in(path, seq!['.', 't', 'g', 'z']) {
        lemma_bytes_of_tgz();
        lemma_ends_in(path, seq!['.', 't', 'g', 'z'], seq![46u8, 116u8, 103u8, 122u8]);
    }
}

#[verifier::rlimit(100)]
proof fn lemma_kind_of_tar_gz(path: Seq<u8>)
    ensures
        ends_in(path, seq!['.', 't', 'a', 'r', '.', 'g', 'z']) ==> kind_of(path) == Some(ArchiveKind::TarGzip),
{
    if ends_in(path, seq!['.', 't', 'a', 'r', '.', 'g', 'z']) {
        lemma_bytes_of_tar_gz();
        lemma_ends_in(path, seq!['.', 't', 'a', 'r', '.', 'g', 'z'], seq![46u8, 116u8, 97u8, 114u8, 46u8, 103u8, 122u8]);
    }
}

#[verifier::rlimit(100)]
proof fn lemma_kind_of_tbz(path: Seq<u8>)
    ensures
        ends_in(path, seq!['.', 't', 'b', 'z']) ==> kind_of(path) == Some(ArchiveKind::TarBzip2),
{
    if ends_in(path, seq!['.', 't', 'b', 'z']) {
        lemma_bytes_of_tbz();
        lemma_ends_in(path, seq!['.', 't', 'b', 'z'], seq![46u8, 116u8, 98u8, 122u8]);
        lemma_bytes_of_tgz();
        lemma_suffix_clash(path, seq![46u8, 116u8, 98u8, 122u8], seq![46u8, 116u8, 103u8, 122u8], 1);
        lemma_bytes_of_tar_gz();
        lemma_suffix_clash(path, seq![46u8, 116u8, 98u8, 122u8], seq![46u8, 116u8, 97u8, 114u8, 46u8, 103u8, 122u8], 1);
    }
}

#[verifier::rlimit(100)]
proof fn lemma_kind_of_tbz2(path: Seq<u8>)
    ensures
        ends_in(path, seq!['.', 't', 'b', 'z', '2']) ==> kind_of(path) == Some(ArchiveKind::TarBzip2),
{
    if ends_in(path, seq!['.', 't', 'b', 'z', '2']) {
        lemma_bytes_of_tbz2();
        lemma_ends_in(path, seq!['.', 't', 'b', 'z', '2'], seq![46u8, 116u8, 98u8, 122u8, 50u8]);
        lemma_bytes_of_tgz();
        lemma_suffix_clash(path, seq![46u8, 116u8, 98u8, 122u8, 50u8], seq![46u8, 116u8, 103u8, 122u8], 0);
        lemma_bytes_of_tar_gz();
        lemma_suffix_clash(path, seq![46u8, 116u8, 98u8, 122u8, 50u8], seq![46u8, 116u8, 97u8, 114u8, 46u8, 103u8, 122u8], 0);
    }
}

#[verifier::rlimit(100)]
proof fn lemma_kind_of_tar_bz2(path: Seq<u8>)
    ensures
        ends_in(path, seq!['.', 't', 'a', 'r', '.', 'b', 'z', '2']) ==> kind_of(path) == Some(ArchiveKind::TarBzip2),
{
    if ends_in(path, seq!['.', 't', 'a', 'r', '.', 'b', 'z', '2']) {
        lemma_bytes_of_tar_bz2();
        lemma_ends_in(path, seq!['.', 't', 'a', 'r', '.', 'b', 'z', '2'], seq![46u8, 116u8, 97u8, 114u8, 46u8, 98u8, 122u8, 50u8]);
        lemma_bytes_of_tgz();
        lemma_suffix_clash(path, seq![46u8, 116u8, 97u8, 114u8, 46u8, 98u8, 122u8, 50u8], seq![46u8, 116u8, 103u8, 122u8], 0);
        lemma_bytes_of_tar_gz();
        lemma_suffix_clash(path, seq![46u8, 116u8, 97u8, 114u8, 46u8, 98u8, 122u8, 50u8], seq![46u8, 116u8, 97u8, 114u8, 46u8, 103u8, 122u8], 0);
    }
}

#[verifier::rlimit(100)]
proof fn lemma_kind_of_tar_bz(path: Seq<u8>)
    ensures
        ends_in(path, seq!['.', 't', 'a', 'r', '.', 'b', 'z']) ==> kind_of(path) == Some(ArchiveKind::TarBzip2),
{
    if ends_in(path, seq!['.', 't', 'a', 'r', '.', 'b', 'z']) {
        lemma_bytes_of_tar_bz();
        lemma_ends_in(path, seq!['.', 't', 'a', 'r', '.', 'b', 'z'], seq![46u8, 116u8, 97u8, 114u8, 46u8, 98u8, 122u8]);
        lemma_bytes_of_tgz();
        lemma_suffix_clash(path, seq![46u8, 116u8, 97u8, 114u8, 46u8, 98u8, 122u8], seq![46u8, 116u8, 103u8, 122u8], 1);
        lemma_bytes_of_tar_gz();
        lemma_suffix_clash(path, seq![46u8, 116u8, 97u8, 114u8, 46u8, 98u8, 122u8], seq![46u8, 116u8, 97u8, 114u8, 46u8, 103u8, 122u8], 1);
    }
}

#[verifier::rlimit(100)]
proof fn lemma_kind_of_tzst(path: Seq<u8>)
    ensures
        ends_in(path, seq!['.', 't', 'z', 's', 't']) ==> kind_of(path) == Some(ArchiveKind::TarZstd),
{
    if ends_in(path, seq!['.', 't', 'z', 's', 't']) {
        lemma_bytes_of_tzst();
        lemma_ends_in(path, seq!['.', 't', 'z', 's', 't'], seq![46u8, 116u8, 122u8, 115u8, 116u8]);
        lemma_bytes_of_tgz();
        lemma_suffix_clash(path, seq![46u8, 116u8, 122u8, 115u8, 116u8], seq![46u8, 116u8, 103u8, 122u8], 0);
        lemma_bytes_of_tar_gz();
        lemma_suffix_clash(path, seq![46u8, 116u8, 122u8, 115u8, 116u8], seq![46u8, 116u8, 97u8, 114u8, 46u8, 103u8, 122u8], 0);
        lemma_bytes_of_tbz();
        lemma_suffix_clash(path, seq![46u8, 116u8, 122u8, 115u8, 116u8], seq![46u8, 116u8, 98u8, 122u8], 0);
        lemma_bytes_of_tbz2();
        lemma_suffix_clash(path, seq![46u8, 116u8, 122u8, 115u8, 116u8], seq![46u8, 116u8, 98u8, 122u8, 50u8], 0);
        lemma_bytes_of_tar_bz2();
        lemma_suffix_clash(path, seq![46u8, 116u8, 122u8, 115u8, 116u8], seq![46u8, 116u8, 97u8, 114u8, 46u8, 98u8, 122u8, 50u8], 0);
        lemma_bytes_of_tar_bz();
        lemma_suffix_clash(path, seq![46u8, 116u8, 122u8, 115u8, 116u8], seq![46u8, 116u8, 97u8, 114u8, 46u8, 98u8, 122u8], 0);
    }
}

#[verifier::rlimit(100)]
proof fn lemma_kind_of_tar_zst(path: Seq<u8>)
    ensures
        ends_in(path, seq!['.', 't', 'a', 'r', '.', 'z', 's', 't']) ==> kind_of(path) == Some(ArchiveKind::TarZstd),
{
    if ends_in(path, seq!['.', 't', 'a', 'r', '.', 'z', 's', 't']) {
        lemma_bytes_of_tar_zst();
        lemma_ends_in(path, seq!['.', 't', 'a', 'r', '.', 'z', 's', 't'], seq![46u8, 116u8, 97u8, 114u8, 46u8, 122u8, 115u8, 116u8]);
        lemma_bytes_of_tgz();
        lemma_suffix_clash(path, seq![46u8, 116u8, 97u8, 114u8, 46u8, 122u8, 115u8, 116u8], seq![46u8, 116u8, 103u8, 122u8], 0);
        lemma_bytes_of_tar_gz();
        lemma_suffix_clash(path, seq![46u8, 116u8, 97u8, 114u8, 46u8, 122u8, 115u8, 116u8], seq![46u8, 116u8, 97u8, 114u8, 46u8, 103u8, 122u8], 0);
        lemma_bytes_of_tbz();
        lemma_suffix_clash(path, seq![46u8, 116u8, 97u8, 114u8, 46u8, 122u8, 115u8, 116u8], seq![46u8, 116u8, 98u8, 122u8], 0);
        lemma_bytes_of_tbz2();
        lemma_suffix_clash(path, seq![46u8, 116u8, 97u8, 114u8, 46u8, 122u8, 115u8, 116u8], seq![46u8, 116u8, 98u8, 122u8, 50u8], 0);
        lemma_bytes_of_tar_bz2();
        lemma_suffix_clash(path, seq![46u8, 116u8, 97u8, 114u8, 46u8, 122u8, 115u8, 116u8], seq![46u8, 116u8, 97u8, 114u8, 46u8, 98u8, 122u8, 50u8], 0);
        lemma_bytes_of_tar_bz();
        lemma_suffix_clash(path, seq![46u8, 116u8, 97u8, 114u8, 46u8, 122u8, 115u8, 116u8], seq![46u8, 116u8, 97u8, 114u8, 46u8, 98u8, 122u8], 0);
    }
}

#[verifier::rlimit(100)]
proof fn lemma_kind_of_tar_zstd(path: Seq<u8>)
    ensures
        ends_in(path, seq!['.', 't', 'a', 'r', '.', 'z', 's', 't', 'd']) ==> kind_of(path) == Some(ArchiveKind::TarZstd),
{
    if ends_in(path, seq!['.', 't', 'a', 'r', '.', 'z', 's', 't', 'd']) {
        lemma_bytes_of_tar_zstd();
        lemma_ends_in(path, seq!['.', 't', 'a', 'r', '.', 'z', 's', 't', 'd'], seq![46u8, 116u8, 97u8, 114u8, 46u8, 122u8, 115u8, 116u8, 100u8]);
        lemma_bytes_of_tgz();
        lemma_suffix_clash(path, seq![46u8, 116u8, 97u8, 114u8, 46u8, 122u8, 115u8, 116u8, 100u8], seq![46u8, 116u8, 103u8, 122u8], 0);
        lemma_bytes_of_tar_gz();
        lemma_suffix_clash(path, seq![46u8, 116u8, 97u8, 114u8, 46u8, 122u8, 115u8, 116u8, 100u8], seq![46u8, 116u8, 97u8, 114u8, 46u8, 103u8, 122u8], 0);
        lemma_bytes_of_tbz();
        lemma_suffix_clash(path, seq![46u8, 116u8, 97u8, 114u8, 46u8, 122u8, 115u8, 116u8, 100u8], seq![46u8, 116u8, 98u8, 122u8], 0);
        lemma_bytes_of_tbz2();
        lemma_suffix_clash(path, seq![46u8, 116u8, 97u8, 114u8, 46u8, 122u8, 115u8, 116u8, 100u8], seq![46u8, 116u8, 98u8, 122u8, 50u8], 0);
        lemma_bytes_of_tar_bz2();
        lemma_suffix_clash(path, seq![46u8, 116u8, 97u8, 114u8, 46u8, 122u8, 115u8, 116u8, 100u8], seq![46u8, 116u8, 97u8, 114u8, 46u8, 98u8, 122u8, 50u8], 0);
        lemma_bytes_of_tar_bz();
        lemma_suffix_clash(path, seq![46u8, 116u8, 97u8, 114u8, 46u8, 122u8, 115u8, 116u8, 100u8], seq![46u8, 116u8, 97u8, 114u8, 46u8, 98u8, 122u8], 0);
    }
}

#[verifier::rlimit(100)]
proof fn lemma_kind_of_tar_lz4(path: Seq<u8>)
    ensures
        ends_in(path, seq!['.', 't', 'a', 'r', '.', 'l', 'z', '4']) ==> kind_of(path) == Some(ArchiveKind::TarLz4),
{
    if ends_in(path, seq!['.', 't', 'a', 'r', '.', 'l', 'z', '4']) {
        lemma_bytes_of_tar_lz4();
        lemma_ends_in(path, seq!['.', 't', 'a', 'r', '.', 'l', 'z', '4'], seq![46u8, 116u8, 97u8, 114u8, 46u8, 108u8, 122u8, 52u8]);
        lemma_bytes_of_tgz();
        lemma_suffix_clash(path, seq![46u8, 116u8, 97u8, 114u8, 46u8, 108u8, 122u8, 52u8], seq![46u8, 116u8, 103u8, 122u8], 0);
        lemma_bytes_of_tar_gz();
        lemma_suffix_clash(path, seq![46u8, 116u8, 97u8, 114u8, 46u8, 108u8, 122u8, 52u8], seq![46u8, 116u8, 97u8, 114u8, 46u8, 103u8, 122u8], 0);
        lemma_bytes_of_tbz();
        lemma_suffix_clash(path, seq![46u8, 116u8, 97u8, 114u8, 46u8, 108u8, 122u8, 52u8], seq![46u8, 116u8, 98u8, 122u8], 0);
        lemma_bytes_of_tbz2();
        lemma_suffix_clash(path, seq![46u8, 116u8, 97u8, 114u8, 46u8, 108u8, 122u8, 52u8], seq![46u8, 116u8, 98u8, 122u8, 50u8], 0);
        lemma_bytes_of_tar_bz2();
        lemma_suffix_clash(path, seq![46u8, 116u8, 97u8, 114u8, 46u8, 108u8, 122u8, 52u8], seq![46u8, 116u8, 97u8, 114u8, 46u8, 98u8, 122u8, 50u8], 0);
        lemma_bytes_of_tar_bz();
        lemma_suffix_clash(path, seq![46u8, 116u8, 97u8, 114u8, 46u8, 108u8, 122u8, 52u8], seq![46u8, 116u8, 97u8, 114u8, 46u8, 98u8, 122u8], 0);
        lemma_bytes_of_tzst();
        lemma_suffix_clash(path, seq![46u8, 116u8, 97u8, 114u8, 46u8, 108u8, 122u8, 52u8], seq![46u8, 116u8, 122u8, 115u8, 116u8], 0);
        lemma_bytes_of_tar_zst();
        lemma_suffix_clash(path, seq![46u8, 116u8, 97u8, 114u8, 46u8, 108u8, 122u8, 52u8], seq![46u8, 116u8, 97u8, 114u8, 46u8, 122u8, 115u8, 116u8], 0);
        lemma_bytes_of_tar_zstd();
        lemma_suffix_clash(path, seq![46u8, 116u8, 97u8, 114u8, 46u8, 108u8, 122u8, 52u8], seq![46u8, 116u8, 97u8, 114u8, 46u8, 122u8, 115u8, 116u8, 100u8], 0);
    }
}

#[verifier::rlimit(100)]
proof fn lemma_kind_of_tlz(path: Seq<u8>)
    ensures
        ends_in(path, seq!['.', 't', 'l', 'z']) ==> kind_of(path) == Some(ArchiveKind::TarLzma),
{
    if ends_in(path, seq!['.', 't', 'l', 'z']) {
        lemma_bytes_of_tlz();
        lemma_ends_in(path, seq!['.', 't', 'l', 'z'], seq![46u8, 116u8, 108u8, 122u8]);
        lemma_bytes_of_tgz();
        lemma_suffix_clash(path, seq![46u8, 116u8, 108u8, 122u8], seq![46u8, 116u8, 103u8, 122u8], 1);
        lemma_bytes_of_tar_gz();
        lemma_suffix_clash(path, seq![46u8, 116u8, 108u8, 122u8], seq![46u8, 116u8, 97u8, 114u8, 46u8, 103u8, 122u8], 1);
        lemma_bytes_of_tbz();
        lemma_suffix_clash(path, seq![46u8, 116u8, 108u8, 122u8], seq![46u8, 116u8, 98u8, 122u8], 1);
        lemma_bytes_of_tbz2();
        lemma_suffix_clash(path, seq![46u8, 116u8, 108u8, 122u8], seq![46u8, 116u8, 98u8, 122u8, 50u8], 0);
        lemma_bytes_of_tar_bz2();
        lemma_suffix_clash(path, seq![46u8, 116u8, 108u8, 122u8], seq![46u8, 116u8, 97u8, 114u8, 46u8, 98u8, 122u8, 50u8], 0);
        lemma_bytes_of_tar_bz();
        lemma_suffix_clash(path, seq![46u8, 116u8, 108u8, 122u8], seq![46u8, 116u8, 97u8, 114u8, 46u8, 98u8, 122u8], 1);
        lemma_bytes_of_tzst();
        lemma_suffix_clash(path, seq![46u8, 116u8, 108u8, 122u8], seq![46u8, 116u8, 122u8, 115u8, 116u8], 0);
        lemma_bytes_of_tar_zst();
        lemma_suffix_clash(path, seq![46u8, 116u8, 108u8, 122u8], seq![46u8, 116u8, 97u8, 114u8, 46u8, 122u8, 115u8, 116u8], 0);
        lemma_bytes_of_tar_zstd();
        lemma_suffix_clash(path, seq![46u8, 116u8, 108u8, 122u8], seq![46u8, 116u8, 97u8, 114u8, 46u8, 122u8, 115u8, 116u8, 100u8], 0);
        lemma_bytes_of_tar_lz4();
        lemma_suffix_clash(path, seq![46u8, 116u8, 108u8, 122u8], seq![46u8, 116u8, 97u8, 114u8, 46u8, 108u8, 122u8, 52u8], 0);
    }
}

#[verifier::rlimit(100)]
proof fn lemma_kind_of_tar_lzma(path: Seq<u8>)
    ensures
        ends_in(path, seq!['.', 't', 'a', 'r', '.', 'l', 'z', 'm', 'a']) ==> kind_of(path) == Some(ArchiveKind::TarLzma),
{
    if ends_in(path, seq!['.', 't', 'a', 'r', '.', 'l', 'z', 'm', 'a']) {
        lemma_bytes_of_tar_lzma();
        lemma_ends_in(path, seq!['.', 't', 'a', 'r', '.', 'l', 'z', 'm', 'a'], seq![46u8, 116u8, 97u8, 114u8, 46u8, 108u8, 122u8, 109u8, 97u8]);
        lemma_bytes_of_tgz();
        lemma_suffix_clash(path, seq![46u8, 116u8, 97u8, 114u8, 46u8, 108u8, 122u8, 109u8, 97u8], seq![46u8, 116u8, 103u8, 122u8], 0);
        lemma_bytes_of_tar_gz();
        lemma_suffix_clash(path, seq![46u8, 116u8, 97u8, 114u8, 46u8, 108u8, 122u8, 109u8, 97u8], seq![46u8, 116u8, 97u8, 114u8, 46u8, 103u8, 122u8], 0);
        lemma_bytes_of_tbz();
        lemma_suffix_clash(path, seq![46u8, 116u8, 97u8, 114u8, 46u8, 108u8, 122u8, 109u8, 97u8], seq![46u8, 116u8, 98u8, 122u8], 0);
        lemma_bytes_of_tbz2();
        lemma_suffix_clash(path, seq![46u8, 116u8, 97u8, 114u8, 46u8, 108u8, 122u8, 109u8, 97u8], seq![46u8, 116u8, 98u8, 122u8, 50u8], 0);
        lemma_bytes_of_tar_bz2();
        lemma_suffix_clash(path, seq![46u8, 116u8, 97u8, 114u8, 46u8, 108u8, 122u8, 109u8, 97u8], seq![46u8, 116u8, 97u8, 114u8, 46u8, 98u8, 122u8, 50u8], 0);
        lemma_bytes_of_tar_bz();
        lemma_suffix_clash(path, seq![46u8, 116u8, 97u8, 114u8, 46u8, 108u8, 122u8, 109u8, 97u8], seq![46u8, 116u8, 97u8, 114u8, 46u8, 98u8, 122u8], 0);
        lemma_bytes_of_tzst();
        lemma_suffix_clash(path, seq![46u8, 116u8, 97u8, 114u8, 46u8, 108u8, 122u8, 109u8, 97u8], seq![46u8, 116u8, 122u8, 115u8, 116u8], 0);
        lemma_bytes_of_tar_zst();
        lemma_suffix_clash(path, seq![46u8, 116u8, 97u8, 114u8, 46u8, 108u8, 122u8, 109u8, 97u8], seq![46u8, 116u8, 97u8, 114u8, 46u8, 122u8, 115u8, 116u8], 0);
        lemma_bytes_of_tar_zstd();
        lemma_suffix_clash(path, seq![46u8, 116u8, 97u8, 114u8, 46u8, 108u8, 122u8, 109u8, 97u8], seq![46u8, 116u8, 97u8, 114u8, 46u8, 122u8, 115u8, 116u8, 100u8], 0);
        lemma_bytes_of_tar_lz4();
        lemma_suffix_clash(path, seq![46u8, 116u8, 97u8, 114u8, 46u8, 108u8, 122u8, 109u8, 97u8], seq![46u8, 116u8, 97u8, 114u8, 46u8, 108u8, 122u8, 52u8], 0);
    }
}

#[verifier::rlimit(100)]
proof fn lemma_kind_of_txz(path: Seq<u8>)
    ensures
        ends_in(path, seq!['.', 't', 'x', 'z']) ==> kind_of(path) == Some(ArchiveKind::TarXz),
{
    if ends_in(path, seq!['.', 't', 'x', 'z']) {
        lemma_bytes_of_txz();
        lemma_ends_in(path, seq!['.', 't', 'x', 'z'], seq![46u8, 116u8, 120u8, 122u8]);
        lemma_bytes_of_tgz();
        lemma_suffix_clash(path, seq![46u8, 116u8, 120u8, 122u8], seq![46u8, 116u8, 103u8, 122u8], 1);
        lemma_bytes_of_tar_gz();
        lemma_suffix_clash(path, seq![46u8, 116u8, 120u8, 122u8], seq![46u8, 116u8, 97u8, 114u8, 46u8, 103u8, 122u8], 1);
        lemma_bytes_of_tbz();
        lemma_suffix_clash(path, seq![46u8, 116u8, 120u8, 122u8], seq![46u8, 116u8, 98u8, 122u8], 1);
        lemma_bytes_of_tbz2();
        lemma_suffix_clash(path, seq![46u8, 116u8, 120u8, 122u8], seq![46u8, 116u8, 98u8, 122u8, 50u8], 0);
        lemma_bytes_of_tar_bz2();
        lemma_suffix_clash(path, seq![46u8, 116u8, 120u8, 122u8], seq![46u8, 116u8, 97u8, 114u8, 46u8, 98u8, 122u8, 50u8], 0);
        lemma_bytes_of_tar_bz();
        lemma_suffix_clash(path, seq![46u8, 116u8, 120u8, 122u8], seq![46u8, 116u8, 97u8, 114u8, 46u8, 98u8, 122u8], 1);
        lemma_bytes_of_tzst();
        lemma_suffix_clash(path, seq![46u8, 116u8, 120u8, 122u8], seq![46u8, 116u8, 122u8, 115u8, 116u8], 0);
        lemma_bytes_of_tar_zst();
        lemma_suffix_clash(path, seq![46u8, 116u8, 120u8, 122u8], seq![46u8, 116u8, 97u8, 114u8, 46u8, 122u8, 115u8, 116u8], 0);
        lemma_bytes_of_tar_zstd();
        lemma_suffix_clash(path, seq![46u8, 116u8, 120u8, 122u8], seq![46u8, 116u8, 97u8, 114u8, 46u8, 122u8, 115u8, 116u8, 100u8], 0);
        lemma_bytes_of_tar_lz4();
        lemma_suffix_clash(path, seq![46u8, 116u8, 120u8, 122u8], seq![46u8, 116u8, 97u8, 114u8, 46u8, 108u8, 122u8, 52u8], 0);
        lemma_bytes_of_tlz();
        lemma_suffix_clash(path, seq![46u8, 116u8, 120u8, 122u8], seq![46u8, 116u8, 108u8, 122u8], 1);
        lemma_bytes_of_tar_lzma();
        lemma_suffix_clash(path, seq![46u8, 116u8, 120u8, 122u8], seq![46u8, 116u8, 97u8, 114u8, 46u8, 108u8, 122u8, 109u8, 97u8], 0);
    }
}

#[verifier::rlimit(100)]
proof fn lemma_kind_of_tar_xz(path: Seq<u8>)
    ensures
        ends_in(path, seq!['.', 't', 'a', 'r', '.', 'x', 'z']) ==> kind_of(path) == Some(ArchiveKind::TarXz),
{
    if ends_in(path, seq!['.', 't', 'a', 'r', '.', 'x', 'z']) {
        lemma_bytes_of_tar_xz();
        lemma_ends_in(path, seq!['.', 't', 'a', 'r', '.', 'x', 'z'], seq![46u8, 116u8, 97u8, 114u8, 46u8, 120u8, 122u8]);
        lemma_bytes_of_tgz();
        lemma_suffix_clash(path, seq![46u8, 116u8, 97u8, 114u8, 46u8, 120u8, 122u8], seq![46u8, 116u8, 103u8, 122u8], 1);
        lemma_bytes_of_tar_gz();
        lemma_suffix_clash(path, seq![46u8, 116u8, 97u8, 114u8, 46u8, 120u8, 122u8], seq![46u8, 116u8, 97u8, 114u8, 46u8, 103u8, 122u8], 1);
        lemma_bytes_of_tbz();
        lemma_suffix_clash(path, seq![46u8, 116u8, 97u8, 114u8, 46u8, 120u8, 122u8], seq![46u8, 116u8, 98u8, 122u8], 1);
        lemma_bytes_of_tbz2();
        lemma_suffix_clash(path, seq![46u8, 116u8, 97u8, 114u8, 46u8, 120u8, 122u8], seq![46u8, 116u8, 98u8, 122u8, 50u8], 0);
        lemma_bytes_of_tar_bz2();
        lemma_suffix_clash(path, seq![46u8, 116u8, 97u8, 114u8, 46u8, 120u8, 122u8], seq![46u8, 116u8, 97u8, 114u8, 46u8, 98u8, 122u8, 50u8], 0);
        lemma_bytes_of_tar_bz();
        lemma_suffix_clash(path, seq![46u8, 116u8, 97u8, 114u8, 46u8, 120u8, 122u8], seq![46u8, 116u8, 97u8, 114u8, 46u8, 98u8, 122u8], 1);
        lemma_bytes_of_tzst();
        lemma_suffix_clash(path, seq![46u8, 116u8, 97u8, 114u8, 46u8, 120u8, 122u8], seq![46u8, 116u8, 122u8, 115u8, 116u8], 0);
        lemma_bytes_of_tar_zst();
        lemma_suffix_clash(path, seq![46u8, 116u8, 97u8, 114u8, 46u8, 120u8, 122u8], seq![46u8, 116u8, 97u8, 114u8, 46u8, 122u8, 115u8, 116u8], 0);
        lemma_bytes_of_tar_zstd();
        lemma_suffix_clash(path, seq![46u8, 116u8, 97u8, 114u8, 46u8, 120u8, 122u8], seq![46u8, 116u8, 97u8, 114u8, 46u8, 122u8, 115u8, 116u8, 100u8], 0);
        lemma_bytes_of_tar_lz4();
        lemma_suffix_clash(path, seq![46u8, 116u8, 97u8, 114u8, 46u8, 120u8, 122u8], seq![46u8, 116u8, 97u8, 114u8, 46u8, 108u8, 122u8, 52u8], 0);
        lemma_bytes_of_tlz();
        lemma_suffix_clash(path, seq![46u8, 116u8, 97u8, 114u8, 46u8, 120u8, 122u8], seq![46u8, 116u8, 108u8, 122u8], 1);
        lemma_bytes_of_tar_lzma();
        lemma_suffix_clash(path, seq![46u8, 116u8, 97u8, 114u8, 46u8, 120u8, 122u8], seq![46u8, 116u8, 97u8, 114u8, 46u8, 108u8, 122u8, 109u8, 97u8], 0);
    }
}

#[verifier::rlimit(100)]
proof fn lemma_kind_of_tar_br(path: Seq<u8>)
    ensures
        ends_in(path, seq!['.', 't', 'a', 'r', '.', 'b', 'r']) ==> kind_of(path) == Some(ArchiveKind::TarBrotli),
{
    if ends_in(path, seq!['.', 't', 'a', 'r', '.', 'b', 'r']) {
        lemma_bytes_of_tar_br();
        lemma_ends_in(path, seq!['.', 't', 'a', 'r', '.', 'b', 'r'], seq![46u8, 116u8, 97u8, 114u8, 46u8, 98u8, 114u8]);
        lemma_bytes_of_tgz();
        lemma_suffix_clash(path, seq![46u8, 116u8, 97u8, 114u8, 46u8, 98u8, 114u8], seq![46u8, 116u8, 103u8, 122u8], 0);
        lemma_bytes_of_tar_gz();
        lemma_suffix_clash(path, seq![46u8, 116u8, 97u8, 114u8, 46u8, 98u8, 114u8], seq![46u8, 116u8, 97u8, 114u8, 46u8, 103u8, 122u8], 0);
        lemma_bytes_of_tbz();
        lemma_suffix_clash(path, seq![46u8, 116u8, 97u8, 114u8, 46u8, 98u8, 114u8], seq![46u8, 116u8, 98u8, 122u8], 0);
        lemma_bytes_of_tbz2();
        lemma_suffix_clash(path, seq![46u8, 116u8, 97u8, 114u8, 46u8, 98u8, 114u8], seq![46u8, 116u8, 98u8, 122u8, 50u8], 0);
        lemma_bytes_of_tar_bz2();
        lemma_suffix_clash(path, seq![46u8, 116u8, 97u8, 114u8, 46u8, 98u8, 114u8], seq![46u8, 116u8, 97u8, 114u8, 46u8, 98u8, 122u8, 50u8], 0);
        lemma_bytes_of_tar_bz();
        lemma_suffix_clash(path, seq![46u8, 116u8, 97u8, 114u8, 46u8, 98u8, 114u8], seq![46u8, 116u8, 97u8, 114u8, 46u8, 98u8, 122u8], 0);
        lemma_bytes_of_tzst();
        lemma_suffix_clash(path, seq![46u8, 116u8, 97u8, 114u8, 46u8, 98u8, 114u8], seq![46u8, 116u8, 122u8, 115u8, 116u8], 0);
        lemma_bytes_of_tar_zst();
        lemma_suffix_clash(path, seq![46u8, 116u8, 97u8, 114u8, 46u8, 98u8, 114u8], seq![46u8, 116u8, 97u8, 114u8, 46u8, 122u8, 115u8, 116u8], 0);
        lemma_bytes_of_tar_zstd();
        lemma_suffix_clash(path, seq![46u8, 116u8, 97u8, 114u8, 46u8, 98u8, 114u8], seq![46u8, 116u8, 97u8, 114u8, 46u8, 122u8, 115u8, 116u8, 100u8], 0);
        lemma_bytes_of_tar_lz4();
        lemma_suffix_clash(path, seq![46u8, 116u8, 97u8, 114u8, 46u8, 98u8, 114u8], seq![46u8, 116u8, 97u8, 114u8, 46u8, 108u8, 122u8, 52u8], 0);
        lemma_bytes_of_tlz();
        lemma_suffix_clash(path, seq![46u8, 116u8, 97u8, 114u8, 46u8, 98u8, 114u8], seq![46u8, 116u8, 108u8, 122u8], 0);
        lemma_bytes_of_tar_lzma();
        lemma_suffix_clash(path, seq![46u8, 116u8, 97u8, 114u8, 46u8, 98u8, 114u8], seq![46u8, 116u8, 97u8, 114u8, 46u8, 108u8, 122u8, 109u8, 97u8], 0);
        lemma_bytes_of_txz();
        lemma_suffix_clash(path, seq![46u8, 116u8, 97u8, 114u8, 46u8, 98u8, 114u8], seq![46u8, 116u8, 120u8, 122u8], 0);
        lemma_bytes_of_tar_xz();
        lemma_suffix_clash(path, seq![46u8, 116u8, 97u8, 114u8, 46u8, 98u8, 114u8], seq![46u8, 116u8, 97u8, 114u8, 46u8, 120u8, 122u8], 0);
    }
}

#[verifier::rlimit(100)]
proof fn lemma_kind_of_zip(path: Seq<u8>)
    ensures
        ends_in(path, seq!['.', 'z', 'i', 'p']) ==> kind_of(path) == Some(ArchiveKind::Zip),
{
    if ends_in(path, seq!['.', 'z', 'i', 'p']) {
        lemma_bytes_of_zip();
        lemma_ends_in(path, seq!['.', 'z', 'i', 'p'], seq![46u8, 122u8, 105u8, 112u8]);
        lemma_bytes_of_tgz();
        lemma_suffix_clash(path, seq![46u8, 122u8, 105u8, 112u8], seq![46u8, 116u8, 103u8, 122u8], 0);
        lemma_bytes_of_tar_gz();
        lemma_suffix_clash(path, seq![46u8, 122u8, 105u8, 112u8], seq![46u8, 116u8, 97u8, 114u8, 46u8, 103u8, 122u8], 0);
        lemma_bytes_of_tbz();
        lemma_suffix_clash(path, seq![46u8, 122u8, 105u8, 112u8], seq![46u8, 116u8, 98u8, 122u8], 0);
        lemma_bytes_of_tbz2();
        lemma_suffix_clash(path, seq![46u8, 122u8, 105u8, 112u8], seq![46u8, 116u8, 98u8, 122u8, 50u8], 0);
        lemma_bytes_of_tar_bz2();
        lemma_suffix_clash(path, seq![46u8, 122u8, 105u8, 112u8], seq![46u8, 116u8, 97u8, 114u8, 46u8, 98u8, 122u8, 50u8], 0);
        lemma_bytes_of_tar_bz();
        lemma_suffix_clash(path, seq![46u8, 122u8, 105u8, 112u8], seq![46u8, 116u8, 97u8, 114u8, 46u8, 98u8, 122u8], 0);
        lemma_bytes_of_tzst();
        lemma_suffix_clash(path, seq![46u8, 122u8, 105u8, 112u8], seq![46u8, 116u8, 122u8, 115u8, 116u8], 0);
        lemma_bytes_of_tar_zst();
        lemma_suffix_clash(path, seq![46u8, 122u8, 105u8, 112u8], seq![46u8, 116u8, 97u8, 114u8, 46u8, 122u8, 115u8, 116u8], 0);
        lemma_bytes_of_tar_zstd();
        lemma_suffix_clash(path, seq![46u8, 122u8, 105u8, 112u8], seq![46u8, 116u8, 97u8, 114u8, 46u8, 122u8, 115u8, 116u8, 100u8], 0);
        lemma_bytes_of_tar_lz4();
        lemma_suffix_clash(path, seq![46u8, 122u8, 105u8, 112u8], seq![46u8, 116u8, 97u8, 114u8, 46u8, 108u8, 122u8, 52u8], 0);
        lemma_bytes_of_tlz();
        lemma_suffix_clash(path, seq![46u8, 122u8, 105u8, 112u8], seq![46u8, 116u8, 108u8, 122u8], 0);
        lemma_bytes_of_tar_lzma();
        lemma_suffix_clash(path, seq![46u8, 122u8, 105u8, 112u8], seq![46u8, 116u8, 97u8, 114u8, 46u8, 108u8, 122u8, 109u8, 97u8], 0);
        lemma_bytes_of_txz();
        lemma_suffix_clash(path, seq![46u8, 122u8, 105u8, 112u8], seq![46u8, 116u8, 120u8, 122u8], 0);
        lemma_bytes_of_tar_xz();
        lemma_suffix_clash(path, seq![46u8, 122u8, 105u8, 112u8], seq![46u8, 116u8, 97u8, 114u8, 46u8, 120u8, 122u8], 0);
        lemma_bytes_of_tar_br();
        lemma_suffix_clash(path, seq![46u8, 122u8, 105u8, 112u8], seq![46u8, 116u8, 97u8, 114u8, 46u8, 98u8, 114u8], 0);
    }
}

#[verifier::rlimit(100)]
proof fn lemma_kind_of_tar(path: Seq<u8>)
    ensures
        ends_in(path, seq!['.', 't', 'a', 'r']) ==> kind_of(path) == Some(ArchiveKind::Tar),
{
    if ends_in(path, seq!['.', 't', 'a', 'r']) {
        lemma_bytes_of_tar();
        lemma_ends_in(path, seq!['.', 't', 'a', 'r'], seq![46u8, 116u8, 97u8, 114u8]);
        lemma_bytes_of_tgz();
        lemma_suffix_clash(path, seq![46u8, 116u8, 97u8, 114u8], seq![46u8, 116u8, 103u8, 122u8], 0);
        lemma_bytes_of_tar_gz();
        lemma_suffix_clash(path, seq![46u8, 116u8, 97u8, 114u8], seq![46u8, 116u8, 97u8, 114u8, 46u8, 103u8, 122u8], 0);
        lemma_bytes_of_tbz();
        lemma_suffix_clash(path, seq![46u8, 116u8, 97u8, 114u8], seq![46u8, 116u8, 98u8, 122u8], 0);
        lemma_bytes_of_tbz2();
        lemma_suffix_clash(path, seq![46u8, 116u8, 97u8, 114u8], seq![46u8, 116u8, 98u8, 122u8, 50u8], 0);
        lemma_bytes_of_tar_bz2();
        lemma_suffix_clash(path, seq![46u8, 116u8, 97u8, 114u8], seq![46u8, 116u8, 97u8, 114u8, 46u8, 98u8, 122u8, 50u8], 0);
        lemma_bytes_of_tar_bz();
        lemma_suffix_clash(path, seq![46u8, 116u8, 97u8, 114u8], seq![46u8, 116u8, 97u8, 114u8, 46u8, 98u8, 122u8], 0);
        lemma_bytes_of_tzst();
        lemma_suffix_clash(path, seq![46u8, 116u8, 97u8, 114u8], seq![46u8, 116u8, 122u8, 115u8, 116u8], 0);
        lemma_bytes_of_tar_zst();
        lemma_suffix_clash(path, seq![46u8, 116u8, 97u8, 114u8], seq![46u8, 116u8, 97u8, 114u8, 46u8, 122u8, 115u8, 116u8], 0);
        lemma_bytes_of_tar_zstd();
        lemma_suffix_clash(path, seq![46u8, 116u8, 97u8, 114u8], seq![46u8, 116u8, 97u8, 114u8, 46u8, 122u8, 115u8, 116u8, 100u8], 0);
        lemma_bytes_of_tar_lz4();
        lemma_suffix_clash(path, seq![46u8, 116u8, 97u8, 114u8], seq![46u8, 116u8, 97u8, 114u8, 46u8, 108u8, 122u8, 52u8], 0);
        lemma_bytes_of_tlz();
        lemma_suffix_clash(path, seq![46u8, 116u8, 97u8, 114u8], seq![46u8, 116u8, 108u8, 122u8], 0);
        lemma_bytes_of_tar_lzma();
        lemma_suffix_clash(path, seq![46u8, 116u8, 97u8, 114u8], seq![46u8, 116u8, 97u8, 114u8, 46u8, 108u8, 122u8, 109u8, 97u8], 0);
        lemma_bytes_of_txz();
        lemma_suffix_clash(path, seq![46u8, 116u8, 97u8, 114u8], seq![46u8, 116u8, 120u8, 122u8], 0);
        lemma_bytes_of_tar_xz();
        lemma_suffix_clash(path, seq![46u8, 116u8, 97u8, 114u8], seq![46u8, 116u8, 97u8, 114u8, 46u8, 120u8, 122u8], 0);
        lemma_bytes_of_tar_br();
        lemma_suffix_clash(path, seq![46u8, 116u8, 97u8, 114u8], seq![46u8, 116u8, 97u8, 114u8, 46u8, 98u8, 114u8], 1);
        lemma_bytes_of_zip();
        lemma_suffix_clash(path, seq![46u8, 116u8, 97u8, 114u8], seq![46u8, 122u8, 105u8, 112u8], 0);
    }
}

proof fn lemma_bytes_of_gz()
    ensures
        encode_utf8(".gz"@) == seq![46u8, 103u8, 122u8],
{
    reveal_strlit(".gz");
    lemma_ascii_bytes(".gz"@, seq![46u8, 103u8, 122u8]);
}

proof fn lemma_bytes_of_bz2()
    ensures
        encode_utf8(".bz2"@) == seq![46u8, 98u8, 122u8, 50u8],
{
    reveal_strlit(".bz2");
    lemma_ascii_bytes(".bz2"@, seq![46u8, 98u8, 122u8, 50u8]);
}

proof fn lemma_bytes_of_bz()
    ensures
        encode_utf8(".bz"@) == seq![46u8, 98u8, 122u8],
{
    reveal_strlit(".bz");
    lemma_ascii_bytes(".bz"@, seq![46u8, 98u8, 122u8]);
}

proof fn lemma_bytes_of_zst()
    ensures
        encode_utf8(".zst"@) == seq![46u8, 122u8, 115u8, 116u8],
{
    reveal_strlit(".zst");
    lemma_ascii_bytes(".zst"@, seq![46u8, 122u8, 115u8, 116u8]);
}

proof fn lemma_bytes_of_zstd()
    ensures
        encode_utf8(".zstd"@) == seq![46u8, 122u8, 115u8, 116u8, 100u8],
{
    reveal_strlit(".zstd");
    lemma_ascii_bytes(".zstd"@, seq![46u8, 122u8, 115u8, 116u8, 100u8]);
}

proof fn lemma_bytes_of_lz4()
    ensures
        encode_utf8(".lz4"@) == seq![46u8, 108u8, 122u8, 52u8],
{
    reveal_strlit(".lz4");
    lemma_ascii_bytes(".lz4"@, seq![46u8, 108u8, 122u8, 52u8]);
}

proof fn lemma_bytes_of_lzma()
    ensures
        encode_utf8(".lzma"@) == seq![46u8, 108u8, 122u8, 109u8, 97u8],
{
    reveal_strlit(".lzma");
    lemma_ascii_bytes(".lzma"@, seq![46u8, 108u8, 122u8, 109u8, 97u8]);
}

proof fn lemma_bytes_of_xz()
    ensures
        encode_utf8(".xz"@) == seq![46u8, 120u8, 122u8],
{
    reveal_strlit(".xz");
    lemma_ascii_bytes(".xz"@, seq![46u8, 120u8, 122u8]);
}

proof fn lemma_bytes_of_br()
    ensures
        encode_utf8(".br"@) == seq![46u8, 98u8, 114u8],
{
    reveal_strlit(".br");
    lemma_ascii_bytes(".br"@, seq![46u8, 98u8, 114u8]);
}

proof fn lemma_kind_of_gz_0(path: Seq<u8>)
    requires
        ends_in(path, seq!['.', 'g', 'z']),
    ensures
        !ends_with_ignore_case(path, encode_utf8(".tbz"@)),
        !ends_with_ignore_case(path, encode_utf8(".tbz2"@)),
        !ends_with_ignore_case(path, encode_utf8(".tar.bz2"@)),
        !ends_with_ignore_case(path, encode_utf8(".tar.bz"@)),
        !ends_with_ignore_case(path, encode_utf8(".tzst"@)),
        !ends_with_ignore_case(path, encode_utf8(".tar.zst"@)),
{
    lemma_bytes_of_gz();
    lemma_ends_in(path, seq!['.', 'g', 'z'], seq![46u8, 103u8, 122u8]);
    lemma_bytes_of_tbz();
    lemma_suffix_clash(path, seq![46u8, 103u8, 122u8], seq![46u8, 116u8, 98u8, 122u8], 1);
    lemma_bytes_of_tbz2();
    lemma_suffix_clash(path, seq![46u8, 103u8, 122u8], seq![46u8, 116u8, 98u8, 122u8, 50u8], 0);
    lemma_bytes_of_tar_bz2();
    lemma_suffix_clash(path, seq![46u8, 103u8, 122u8], seq![46u8, 116u8, 97u8, 114u8, 46u8, 98u8, 122u8, 50u8], 0);
    lemma_bytes_of_tar_bz();
    lemma_suffix_clash(path, seq![46u8, 103u8, 122u8], seq![46u8, 116u8, 97u8, 114u8, 46u8, 98u8, 122u8], 1);
    lemma_bytes_of_tzst();
    lemma_suffix_clash(path, seq![46u8, 103u8, 122u8], seq![46u8, 116u8, 122u8, 115u8, 116u8], 0);
    lemma_bytes_of_tar_zst();
    lemma_suffix_clash(path, seq![46u8, 103u8, 122u8], seq![46u8, 116u8, 97u8, 114u8, 46u8, 122u8, 115u8, 116u8], 0);
}

proof fn lemma_kind_of_gz_1(path: Seq<u8>)
    requires
        ends_in(path, seq!['.', 'g', 'z']),
    ensures
        !ends_with_ignore_case(path, encode_utf8(".tar.zstd"@)),
        !ends_with_ignore_case(path, encode_utf8(".tar.lz4"@)),
        !ends_with_ignore_case(path, encode_utf8(".tlz"@)),
        !ends_with_ignore_case(path, encode_utf8(".tar.lzma"@)),
        !ends_with_ignore_case(path, encode_utf8(".txz"@)),
        !ends_with_ignore_case(path, encode_utf8(".tar.xz"@)),
{
    lemma_bytes_of_gz();
    lemma_ends_in(path, seq!['.', 'g', 'z'], seq![46u8, 103u8, 122u8]);
    lemma_bytes_of_tar_zstd();
    lemma_suffix_clash(path, seq![46u8, 103u8, 122u8], seq![46u8, 116u8, 97u8, 114u8, 46u8, 122u8, 115u8, 116u8, 100u8], 0);
    lemma_bytes_of_tar_lz4();
    lemma_suffix_clash(path, seq![46u8, 103u8, 122u8], seq![46u8, 116u8, 97u8, 114u8, 46u8, 108u8, 122u8, 52u8], 0);
    lemma_bytes_of_tlz();
    lemma_suffix_clash(path, seq![46u8, 103u8, 122u8], seq![46u8, 116u8, 108u8, 122u8], 1);
    lemma_bytes_of_tar_lzma();
    lemma_suffix_clash(path, seq![46u8, 103u8, 122u8], seq![46u8, 116u8, 97u8, 114u8, 46u8, 108u8, 122u8, 109u8, 97u8], 0);
    lemma_bytes_of_txz();
    lemma_suffix_clash(path, seq![46u8, 103u8, 122u8], seq![46u8, 116u8, 120u8, 122u8], 1);
    lemma_bytes_of_tar_xz();
    lemma_suffix_clash(path, seq![46u8, 103u8, 122u8], seq![46u8, 116u8, 97u8, 114u8, 46u8, 120u8, 122u8], 1);
}

proof fn lemma_kind_of_gz_2(path: Seq<u8>)
    requires
        ends_in(path, seq!['.', 'g', 'z']),
    ensures
        !ends_with_ignore_case(path, encode_utf8(".tar.br"@)),
        !ends_with_ignore_case(path, encode_utf8(".zip"@)),
        !ends_with_ignore_case(path, encode_utf8(".tar"@)),
{
    lemma_bytes_of_gz();
    lemma_ends_in(path, seq!['.', 'g', 'z'], seq![46u8, 103u8, 122u8]);
    lemma_bytes_of_tar_br();
    lemma_suffix_clash(path, seq![46u8, 103u8, 122u8], seq![46u8, 116u8, 97u8, 114u8, 46u8, 98u8, 114u8], 0);
    lemma_bytes_of_zip();
    lemma_suffix_clash(path, seq![46u8, 103u8, 122u8], seq![46u8, 122u8, 105u8, 112u8], 0);
    lemma_bytes_of_tar();
    lemma_suffix_clash(path, seq![46u8, 103u8, 122u8], seq![46u8, 116u8, 97u8, 114u8], 0);
}

proof fn lemma_kind_of_gz(path: Seq<u8>)
    ensures
        ends_in(path, seq!['.', 'g', 'z']) ==> (kind_of(path) == Some(ArchiveKind::TarGzip) || kind_of(path) == Some(ArchiveKind::Gzip)),
{
    if ends_in(path, seq!['.', 'g', 'z']) {
        lemma_kind_of_gz_0(path);
        lemma_kind_of_gz_1(path);
        lemma_kind_of_gz_2(path);
        lemma_bytes_of_gz();
        lemma_ends_in(path, seq!['.', 'g', 'z'], seq![46u8, 103u8, 122u8]);
    }
}

proof fn lemma_kind_of_bz2_0(path: Seq<u8>)
    requires
        ends_in(path, seq!['.', 'b', 'z', '2']),
    ensures
        !ends_with_ignore_case(path, encode_utf8(".tgz"@)),
        !ends_with_ignore_case(path, encode_utf8(".tar.gz"@)),
        !ends_with_ignore_case(path, encode_utf8(".tzst"@)),
        !ends_with_ignore_case(path, encode_utf8(".tar.zst"@)),
        !ends_with_ignore_case(path, encode_utf8(".tar.zstd"@)),
        !ends_with_ignore_case(path, encode_utf8(".tar.lz4"@)),
{
    lemma_bytes_of_bz2();
    lemma_ends_in(path, seq!['.', 'b', 'z', '2'], seq![46u8, 98u8, 122u8, 50u8]);
    lemma_bytes_of_tgz();
    lemma_suffix_clash(path, seq![46u8, 98u8, 122u8, 50u8], seq![46u8, 116u8, 103u8, 122u8], 0);
    lemma_bytes_of_tar_gz();
    lemma_suffix_clash(path, seq![46u8, 98u8, 122u8, 50u8], seq![46u8, 116u8, 97u8, 114u8, 46u8, 103u8, 122u8], 0);
    lemma_bytes_of_tzst();
    lemma_suffix_clash(path, seq![46u8, 98u8, 122u8, 50u8], seq![46u8, 116u8, 122u8, 115u8, 116u8], 0);
    lemma_bytes_of_tar_zst();
    lemma_suffix_clash(path, seq![46u8, 98u8, 122u8, 50u8], seq![46u8, 116u8, 97u8, 114u8, 46u8, 122u8, 115u8, 116u8], 0);
    lemma_bytes_of_tar_zstd();
    lemma_suffix_clash(path, seq![46u8, 98u8, 122u8, 50u8], seq![46u8, 116u8, 97u8, 114u8, 46u8, 122u8, 115u8, 116u8, 100u8], 0);
    lemma_bytes_of_tar_lz4();
    lemma_suffix_clash(path, seq![46u8, 98u8, 122u8, 50u8], seq![46u8, 116u8, 97u8, 114u8, 46u8, 108u8, 122u8, 52u8], 0);
}

proof fn lemma_kind_of_bz2_1(path: Seq<u8>)
    requires
        ends_in(path, seq!['.', 'b', 'z', '2']),
    ensures
        !ends_with_ignore_case(path, encode_utf8(".tlz"@)),
        !ends_with_ignore_case(path, encode_utf8(".tar.lzma"@)),
        !ends_with_ignore_case(path, encode_utf8(".txz"@)),
        !ends_with_ignore_case(path, encode_utf8(".tar.xz"@)),
        !ends_with_ignore_case(path, encode_utf8(".tar.br"@)),
        !ends_with_ignore_case(path, encode_utf8(".zip"@)),
{
    lemma_bytes_of_bz2();
    lemma_ends_in(path, seq!['.', 'b', 'z', '2'], seq![46u8, 98u8, 122u8, 50u8]);
    lemma_bytes_of_tlz();
    lemma_suffix_clash(path, seq![46u8, 98u8, 122u8, 50u8], seq![46u8, 116u8, 108u8, 122u8], 0);
    lemma_bytes_of_tar_lzma();
    lemma_suffix_clash(path, seq![46u8, 98u8, 122u8, 50u8], seq![46u8, 116u8, 97u8, 114u8, 46u8, 108u8, 122u8, 109u8, 97u8], 0);
    lemma_bytes_of_txz();
    lemma_suffix_clash(path, seq![46u8, 98u8, 122u8, 50u8], seq![46u8, 116u8, 120u8, 122u8], 0);
    lemma_bytes_of_tar_xz();
    lemma_suffix_clash(path, seq![46u8, 98u8, 122u8, 50u8], seq![46u8, 116u8, 97u8, 114u8, 46u8, 120u8, 122u8], 0);
    lemma_bytes_of_tar_br();
    lemma_suffix_clash(path, seq![46u8, 98u8, 122u8, 50u8], seq![46u8, 116u8, 97u8, 114u8, 46u8, 98u8, 114u8], 0);
    lemma_bytes_of_zip();
    lemma_suffix_clash(path, seq![46u8, 98u8, 122u8, 50u8], seq![46u8, 122u8, 105u8, 112u8], 0);
}

proof fn lemma_kind_of_bz2_2(path: Seq<u8>)
    requires
        ends_in(path, seq!['.', 'b', 'z', '2']),
    ensures
        !ends_with_ignore_case(path, encode_utf8(".tar"@)),
        !ends_with_ignore_case(path, encode_utf8(".gz"@)),
{
    lemma_bytes_of_bz2();
    lemma_ends_in(path, seq!['.', 'b', 'z', '2'], seq![46u8, 98u8, 122u8, 50u8]);
    lemma_bytes_of_tar();
    lemma_suffix_clash(path, seq![46u8, 98u8, 122u8, 50u8], seq![46u8, 116u8, 97u8, 114u8], 0);
    lemma_bytes_of_gz();
    lemma_suffix_clash(path, seq![46u8, 98u8, 122u8, 50u8], seq![46u8, 103u8, 122u8], 0);
}

proof fn lemma_kind_of_bz2(path: Seq<u8>)
    ensures
        ends_in(path, seq!['.', 'b', 'z', '2']) ==> (kind_of(path) == Some(ArchiveKind::TarBzip2) || kind_of(path) == Some(ArchiveKind::Bzip2)),
{
    if ends_in(path, seq!['.', 'b', 'z', '2']) {
        lemma_kind_of_bz2_0(path);
        lemma_kind_of_bz2_1(path);
        lemma_kind_of_bz2_2(path);
        lemma_bytes_of_bz2();
        lemma_ends_in(path, seq!['.', 'b', 'z', '2'], seq![46u8, 98u8, 122u8, 50u8]);
    }
}

proof fn lemma_kind_of_bz_0(path: Seq<u8>)
    requires
        ends_in(path, seq!['.', 'b', 'z']),
    ensures
        !ends_with_ignore_case(path, encode_utf8(".tgz"@)),
        !ends_with_ignore_case(path, encode_utf8(".tar.gz"@)),
        !ends_with_ignore_case(path, encode_utf8(".tzst"@)),
        !ends_with_ignore_case(path, encode_utf8(".tar.zst"@)),
        !ends_with_ignore_case(path, encode_utf8(".tar.zstd"@)),
        !ends_with_ignore_case(path, encode_utf8(".tar.lz4"@)),
{
    lemma_bytes_of_bz();
    lemma_ends_in(path, seq!['.', 'b', 'z'], seq![46u8, 98u8, 122u8]);
    lemma_bytes_of_tgz();
    lemma_suffix_clash(path, seq![46u8, 98u8, 122u8], seq![46u8, 116u8, 103u8, 122u8], 1);
    lemma_bytes_of_tar_gz();
    lemma_suffix_clash(path, seq![46u8, 98u8, 122u8], seq![46u8, 116u8, 97u8, 114u8, 46u8, 103u8, 122u8], 1);
    lemma_bytes_of_tzst();
    lemma_suffix_clash(path, seq![46u8, 98u8, 122u8], seq![46u8, 116u8, 122u8, 115u8, 116u8], 0);
    lemma_bytes_of_tar_zst();
    lemma_suffix_clash(path, seq![46u8, 98u8, 122u8], seq![46u8, 116u8, 97u8, 114u8, 46u8, 122u8, 115u8, 116u8], 0);
    lemma_bytes_of_tar_zstd();
    lemma_suffix_clash(path, seq![46u8, 98u8, 122u8], seq![46u8, 116u8, 97u8, 114u8, 46u8, 122u8, 115u8, 116u8, 100u8], 0);
    lemma_bytes_of_tar_lz4();
    lemma_suffix_clash(path, seq![46u8, 98u8, 122u8], seq![46u8, 116u8, 97u8, 114u8, 46u8, 108u8, 122u8, 52u8], 0);
}

proof fn lemma_kind_of_bz_1(path: Seq<u8>)
    requires
        ends_in(path, seq!['.', 'b', 'z']),
    ensures
        !ends_with_ignore_case(path, encode_utf8(".tlz"@)),
        !ends_with_ignore_case(path, encode_utf8(".tar.lzma"@)),
        !ends_with_ignore_case(path, encode_utf8(".txz"@)),
        !ends_with_ignore_case(path, encode_utf8(".tar.xz"@)),
        !ends_with_ignore_case(path, encode_utf8(".tar.br"@)),
        !ends_with_ignore_case(path, encode_utf8(".zip"@)),
{
    lemma_bytes_of_bz();
    lemma_ends_in(path, seq!['.', 'b', 'z'], seq![46u8, 98u8, 122u8]);
    lemma_bytes_of_tlz();
    lemma_suffix_clash(path, seq![46u8, 98u8, 122u8], seq![46u8, 116u8, 108u8, 122u8], 1);
    lemma_bytes_of_tar_lzma();
    lemma_suffix_clash(path, seq![46u8, 98u8, 122u8], seq![46u8, 116u8, 97u8, 114u8, 46u8, 108u8, 122u8, 109u8, 97u8], 0);
    lemma_bytes_of_txz();
    lemma_suffix_clash(path, seq![46u8, 98u8, 122u8], seq![46u8, 116u8, 120u8, 122u8], 1);
    lemma_bytes_of_tar_xz();
    lemma_suffix_clash(path, seq![46u8, 98u8, 122u8], seq![46u8, 116u8, 97u8, 114u8, 46u8, 120u8, 122u8], 1);
    lemma_bytes_of_tar_br();
    lemma_suffix_clash(path, seq![46u8, 98u8, 122u8], seq![46u8, 116u8, 97u8, 114u8, 46u8, 98u8, 114u8], 0);
    lemma_bytes_of_zip();
    lemma_suffix_clash(path, seq![46u8, 98u8, 122u8], seq![46u8, 122u8, 105u8, 112u8], 0);
}

proof fn lemma_kind_of_bz_2(path: Seq<u8>)
    requires
        ends_in(path, seq!['.', 'b', 'z']),
    ensures
        !ends_with_ignore_case(path, encode_utf8(".tar"@)),
        !ends_with_ignore_case(path, encode_utf8(".gz"@)),
{
    lemma_bytes_of_bz();
    lemma_ends_in(path, seq!['.', 'b', 'z'], seq![46u8, 98u8, 122u8]);
    lemma_bytes_of_tar();
    lemma_suffix_clash(path, seq![46u8, 98u8, 122u8], seq![46u8, 116u8, 97u8, 114u8], 0);
    lemma_bytes_of_gz();
    lemma_suffix_clash(path, seq![46u8, 98u8, 122u8], seq![46u8, 103u8, 122u8], 1);
}

proof fn lemma_kind_of_bz(path: Seq<u8>)
    ensures
        ends_in(path, seq!['.', 'b', 'z']) ==> (kind_of(path) == Some(ArchiveKind::TarBzip2) || kind_of(path) == Some(ArchiveKind::Bzip2)),
{
    if ends_in(path, seq!['.', 'b', 'z']) {
        lemma_kind_of_bz_0(path);
        lemma_kind_of_bz_1(path);
        lemma_kind_of_bz_2(path);
        lemma_bytes_of_bz();
        lemma_ends_in(path, seq!['.', 'b', 'z'], seq![46u8, 98u8, 122u8]);
    }
}

proof fn lemma_kind_of_zst_0(path: Seq<u8>)
    requires
        ends_in(path, seq!['.', 'z', 's', 't']),
    ensures
        !ends_with_ignore_case(path, encode_utf8(".tgz"@)),
        !ends_with_ignore_case(path, encode_utf8(".tar.gz"@)),
        !ends_with_ignore_case(path, encode_utf8(".tbz"@)),
        !ends_with_ignore_case(path, encode_utf8(".tbz2"@)),
        !ends_with_ignore_case(path, encode_utf8(".tar.bz2"@)),
        !ends_with_ignore_case(path, encode_utf8(".tar.bz"@)),
{
    lemma_bytes_of_zst();
    lemma_ends_in(path, seq!['.', 'z', 's', 't'], seq![46u8, 122u8, 115u8, 116u8]);
    lemma_bytes_of_tgz();
    lemma_suffix_clash(path, seq![46u8, 122u8, 115u8, 116u8], seq![46u8, 116u8, 103u8, 122u8], 0);
    lemma_bytes_of_tar_gz();
    lemma_suffix_clash(path, seq![46u8, 122u8, 115u8, 116u8], seq![46u8, 116u8, 97u8, 114u8, 46u8, 103u8, 122u8], 0);
    lemma_bytes_of_tbz();
    lemma_suffix_clash(path, seq![46u8, 122u8, 115u8, 116u8], seq![46u8, 116u8, 98u8, 122u8], 0);
    lemma_bytes_of_tbz2();
    lemma_suffix_clash(path, seq![46u8, 122u8, 115u8, 116u8], seq![46u8, 116u8, 98u8, 122u8, 50u8], 0);
    lemma_bytes_of_tar_bz2();
    lemma_suffix_clash(path, seq![46u8, 122u8, 115u8, 116u8], seq![46u8, 116u8, 97u8, 114u8, 46u8, 98u8, 122u8, 50u8], 0);
    lemma_bytes_of_tar_bz();
    lemma_suffix_clash(path, seq![46u8, 122u8, 115u8, 116u8], seq![46u8, 116u8, 97u8, 114u8, 46u8, 98u8, 122u8], 0);
}

proof fn lemma_kind_of_zst_1(path: Seq<u8>)
    requires
        ends_in(path, seq!['.', 'z', 's', 't']),
    ensures
        !ends_with_ignore_case(path, encode_utf8(".tar.lz4"@)),
        !ends_with_ignore_case(path, encode_utf8(".tlz"@)),
        !ends_with_ignore_case(path, encode_utf8(".tar.lzma"@)),
        !ends_with_ignore_case(path, encode_utf8(".txz"@)),
        !ends_with_ignore_case(path, encode_utf8(".tar.xz"@)),
        !ends_with_ignore_case(path, encode_utf8(".tar.br"@)),
{
    lemma_bytes_of_zst();
    lemma_ends_in(path, seq!['.', 'z', 's', 't'], seq![46u8, 122u8, 115u8, 116u8]);
    lemma_bytes_of_tar_lz4();
    lemma_suffix_clash(path, seq![46u8, 122u8, 115u8, 116u8], seq![46u8, 116u8, 97u8, 114u8, 46u8, 108u8, 122u8, 52u8], 0);
    lemma_bytes_of_tlz();
    lemma_suffix_clash(path, seq![46u8, 122u8, 115u8, 116u8], seq![46u8, 116u8, 108u8, 122u8], 0);
    lemma_bytes_of_tar_lzma();
    lemma_suffix_clash(path, seq![46u8, 122u8, 115u8, 116u8], seq![46u8, 116u8, 97u8, 114u8, 46u8, 108u8, 122u8, 109u8, 97u8], 0);
    lemma_bytes_of_txz();
    lemma_suffix_clash(path, seq![46u8, 122u8, 115u8, 116u8], seq![46u8, 116u8, 120u8, 122u8], 0);
    lemma_bytes_of_tar_xz();
    lemma_suffix_clash(path, seq![46u8, 122u8, 115u8, 116u8], seq![46u8, 116u8, 97u8, 114u8, 46u8, 120u8, 122u8], 0);
    lemma_bytes_of_tar_br();
    lemma_suffix_clash(path, seq![46u8, 122u8, 115u8, 116u8], seq![46u8, 116u8, 97u8, 114u8, 46u8, 98u8, 114u8], 0);
}

proof fn lemma_kind_of_zst_2(path: Seq<u8>)
    requires
        ends_in(path, seq!['.', 'z', 's', 't']),
    ensures
        !ends_with_ignore_case(path, encode_utf8(".zip"@)),
        !ends_with_ignore_case(path, encode_utf8(".tar"@)),
        !ends_with_ignore_case(path, encode_utf8(".gz"@)),
        !ends_with_ignore_case(path, encode_utf8(".bz2"@)),
        !ends_with_ignore_case(path, encode_utf8(".bz"@)),
{
    lemma_bytes_of_zst();
    lemma_ends_in(path, seq!['.', 'z', 's', 't'], seq![46u8, 122u8, 115u8, 116u8]);
    lemma_bytes_of_zip();
    lemma_suffix_clash(path, seq![46u8, 122u8, 115u8, 116u8], seq![46u8, 122u8, 105u8, 112u8], 0);
    lemma_bytes_of_tar();
    lemma_suffix_clash(path, seq![46u8, 122u8, 115u8, 116u8], seq![46u8, 116u8, 97u8, 114u8], 0);
    lemma_bytes_of_gz();
    lemma_suffix_clash(path, seq![46u8, 122u8, 115u8, 116u8], seq![46u8, 103u8, 122u8], 0);
    lemma_bytes_of_bz2();
    lemma_suffix_clash(path, seq![46u8, 122u8, 115u8, 116u8], seq![46u8, 98u8, 122u8, 50u8], 0);
    lemma_bytes_of_bz();
    lemma_suffix_clash(path, seq![46u8, 122u8, 115u8, 116u8], seq![46u8, 98u8, 122u8], 0);
}

proof fn lemma_kind_of_zst(path: Seq<u8>)
    ensures
        ends_in(path, seq!['.', 'z', 's', 't']) ==> (kind_of(path) == Some(ArchiveKind::TarZstd) || kind_of(path) == Some(ArchiveKind::Zstd)),
{
    if ends_in(path, seq!['.', 'z', 's', 't']) {
        lemma_kind_of_zst_0(path);
        lemma_kind_of_zst_1(path);
        lemma_kind_of_zst_2(path);
        lemma_bytes_of_zst();
        lemma_ends_in(path, seq!['.', 'z', 's', 't'], seq![46u8, 122u8, 115u8, 116u8]);
    }
}

proof fn lemma_kind_of_zstd_0(path: Seq<u8>)
    requires
        ends_in(path, seq!['.', 'z', 's', 't', 'd']),
    ensures
        !ends_with_ignore_case(path, encode_utf8(".tgz"@)),
        !ends_with_ignore_case(path, encode_utf8(".tar.gz"@)),
        !ends_with_ignore_case(path, encode_utf8(".tbz"@)),
        !ends_with_ignore_case(path, encode_utf8(".tbz2"@)),
        !ends_with_ignore_case(path, encode_utf8(".tar.bz2"@)),
        !ends_with_ignore_case(path, encode_utf8(".tar.bz"@)),
{
    lemma_bytes_of_zstd();
    lemma_ends_in(path, seq!['.', 'z', 's', 't', 'd'], seq![46u8, 122u8, 115u8, 116u8, 100u8]);
    lemma_bytes_of_tgz();
    lemma_suffix_clash(path, seq![46u8, 122u8, 115u8, 116u8, 100u8], seq![46u8, 116u8, 103u8, 122u8], 0);
    lemma_bytes_of_tar_gz();
    lemma_suffix_clash(path, seq![46u8, 122u8, 115u8, 116u8, 100u8], seq![46u8, 116u8, 97u8, 114u8, 46u8, 103u8, 122u8], 0);
    lemma_bytes_of_tbz();
    lemma_suffix_clash(path, seq![46u8, 122u8, 115u8, 116u8, 100u8], seq![46u8, 116u8, 98u8, 122u8], 0);
    lemma_bytes_of_tbz2();
    lemma_suffix_clash(path, seq![46u8, 122u8, 115u8, 116u8, 100u8], seq![46u8, 116u8, 98u8, 122u8, 50u8], 0);
    lemma_bytes_of_tar_bz2();
    lemma_suffix_clash(path, seq![46u8, 122u8, 115u8, 116u8, 100u8], seq![46u8, 116u8, 97u8, 114u8, 46u8, 98u8, 122u8, 50u8], 0);
    lemma_bytes_of_tar_bz();
    lemma_suffix_clash(path, seq![46u8, 122u8, 115u8, 116u8, 100u8], seq![46u8, 116u8, 97u8, 114u8, 46u8, 98u8, 122u8], 0);
}

proof fn lemma_kind_of_zstd_1(path: Seq<u8>)
    requires
        ends_in(path, seq!['.', 'z', 's', 't', 'd']),
    ensures
        !ends_with_ignore_case(path, encode_utf8(".tar.lz4"@)),
        !ends_with_ignore_case(path, encode_utf8(".tlz"@)),
        !ends_with_ignore_case(path, encode_utf8(".tar.lzma"@)),
        !ends_with_ignore_case(path, encode_utf8(".txz"@)),
        !ends_with_ignore_case(path, encode_utf8(".tar.xz"@)),
        !ends_with_ignore_case(path, encode_utf8(".tar.br"@)),
{
    lemma_bytes_of_zstd();
    lemma_ends_in(path, seq!['.', 'z', 's', 't', 'd'], seq![46u8, 122u8, 115u8, 116u8, 100u8]);
    lemma_bytes_of_tar_lz4();
    lemma_suffix_clash(path, seq![46u8, 122u8, 115u8, 116u8, 100u8], seq![46u8, 116u8, 97u8, 114u8, 46u8, 108u8, 122u8, 52u8], 0);
    lemma_bytes_of_tlz();
    lemma_suffix_clash(path, seq![46u8, 122u8, 115u8, 116u8, 100u8], seq![46u8, 116u8, 108u8, 122u8], 0);
    lemma_bytes_of_tar_lzma();
    lemma_suffix_clash(path, seq![46u8, 122u8, 115u8, 116u8, 100u8], seq![46u8, 116u8, 97u8, 114u8, 46u8, 108u8, 122u8, 109u8, 97u8], 0);
    lemma_bytes_of_txz();
    lemma_suffix_clash(path, seq![46u8, 122u8, 115u8, 116u8, 100u8], seq![46u8, 116u8, 120u8, 122u8], 0);
    lemma_bytes_of_tar_xz();
    lemma_suffix_clash(path, seq![46u8, 122u8, 115u8, 116u8, 100u8], seq![46u8, 116u8, 97u8, 114u8, 46u8, 120u8, 122u8], 0);
    lemma_bytes_of_tar_br();
    lemma_suffix_clash(path, seq![46u8, 122u8, 115u8, 116u8, 100u8], seq![46u8, 116u8, 97u8, 114u8, 46u8, 98u8, 114u8], 0);
}

proof fn lemma_kind_of_zstd_2(path: Seq<u8>)
    requires
        ends_in(path, seq!['.', 'z', 's', 't', 'd']),
    ensures
        !ends_with_ignore_case(path, encode_utf8(".zip"@)),
        !ends_with_ignore_case(path, encode_utf8(".tar"@)),
        !ends_with_ignore_case(path, encode_utf8(".gz"@)),
        !ends_with_ignore_case(path, encode_utf8(".bz2"@)),
        !ends_with_ignore_case(path, encode_utf8(".bz"@)),
{
    lemma_bytes_of_zstd();
    lemma_ends_in(path, seq!['.', 'z', 's', 't', 'd'], seq![46u8, 122u8, 115u8, 116u8, 100u8]);
    lemma_bytes_of_zip();
    lemma_suffix_clash(path, seq![46u8, 122u8, 115u8, 116u8, 100u8], seq![46u8, 122u8, 105u8, 112u8], 0);
    lemma_bytes_of_tar();
    lemma_suffix_clash(path, seq![46u8, 122u8, 115u8, 116u8, 100u8], seq![46u8, 116u8, 97u8, 114u8], 0);
    lemma_bytes_of_gz();
    lemma_suffix_clash(path, seq![46u8, 122u8, 115u8, 116u8, 100u8], seq![46u8, 103u8, 122u8], 0);
    lemma_bytes_of_bz2();
    lemma_suffix_clash(path, seq![46u8, 122u8, 115u8, 116u8, 100u8], seq![46u8, 98u8, 122u8, 50u8], 0);
    lemma_bytes_of_bz();
    lemma_suffix_clash(path, seq![46u8, 122u8, 115u8, 116u8, 100u8], seq![46u8, 98u8, 122u8], 0);
}

proof fn lemma_kind_of_zstd(path: Seq<u8>)
    ensures
        ends_in(path, seq!['.', 'z', 's', 't', 'd']) ==> (kind_of(path) == Some(ArchiveKind::TarZstd) || kind_of(path) == Some(ArchiveKind::Zstd)),
{
    if ends_in(path, seq!['.', 'z', 's', 't', 'd']) {
        lemma_kind_of_zstd_0(path);
        lemma_kind_of_zstd_1(path);
        lemma_kind_of_zstd_2(path);
        lemma_bytes_of_zstd();
        lemma_ends_in(path, seq!['.', 'z', 's', 't', 'd'], seq![46u8, 122u8, 115u8, 116u8, 100u8]);
    }
}

proof fn lemma_kind_of_lz4_0(path: Seq<u8>)
    requires
        ends_in(path, seq!['.', 'l', 'z', '4']),
    ensures
        !ends_with_ignore_case(path, encode_utf8(".tgz"@)),
        !ends_with_ignore_case(path, encode_utf8(".tar.gz"@)),
        !ends_with_ignore_case(path, encode_utf8(".tbz"@)),
        !ends_with_ignore_case(path, encode_utf8(".tbz2"@)),
        !ends_with_ignore_case(path, encode_utf8(".tar.bz2"@)),
        !ends_with_ignore_case(path, encode_utf8(".tar.bz"@)),
{
    lemma_bytes_of_lz4();
    lemma_ends_in(path, seq!['.', 'l', 'z', '4'], seq![46u8, 108u8, 122u8, 52u8]);
    lemma_bytes_of_tgz();
    lemma_suffix_clash(path, seq![46u8, 108u8, 122u8, 52u8], seq![46u8, 116u8, 103u8, 122u8], 0);
    lemma_bytes_of_tar_gz();
    lemma_suffix_clash(path, seq![46u8, 108u8, 122u8, 52u8], seq![46u8, 116u8, 97u8, 114u8, 46u8, 103u8, 122u8], 0);
    lemma_bytes_of_tbz();
    lemma_suffix_clash(path, seq![46u8, 108u8, 122u8, 52u8], seq![46u8, 116u8, 98u8, 122u8], 0);
    lemma_bytes_of_tbz2();
    lemma_suffix_clash(path, seq![46u8, 108u8, 122u8, 52u8], seq![46u8, 116u8, 98u8, 122u8, 50u8], 0);
    lemma_bytes_of_tar_bz2();
    lemma_suffix_clash(path, seq![46u8, 108u8, 122u8, 52u8], seq![46u8, 116u8, 97u8, 114u8, 46u8, 98u8, 122u8, 50u8], 0);
    lemma_bytes_of_tar_bz();
    lemma_suffix_clash(path, seq![46u8, 108u8, 122u8, 52u8], seq![46u8, 116u8, 97u8, 114u8, 46u8, 98u8, 122u8], 0);
}

proof fn lemma_kind_of_lz4_1(path: Seq<u8>)
    requires
        ends_in(path, seq!['.', 'l', 'z', '4']),
    ensures
        !ends_with_ignore_case(path, encode_utf8(".tzst"@)),
        !ends_with_ignore_case(path, encode_utf8(".tar.zst"@)),
        !ends_with_ignore_case(path, encode_utf8(".tar.zstd"@)),
        !ends_with_ignore_case(path, encode_utf8(".tlz"@)),
        !ends_with_ignore_case(path, encode_utf8(".tar.lzma"@)),
        !ends_with_ignore_case(path, encode_utf8(".txz"@)),
{
    lemma_bytes_of_lz4();
    lemma_ends_in(path, seq!['.', 'l', 'z', '4'], seq![46u8, 108u8, 122u8, 52u8]);
    lemma_bytes_of_tzst();
    lemma_suffix_clash(path, seq![46u8, 108u8, 122u8, 52u8], seq![46u8, 116u8, 122u8, 115u8, 116u8], 0);
    lemma_bytes_of_tar_zst();
    lemma_suffix_clash(path, seq![46u8, 108u8, 122u8, 52u8], seq![46u8, 116u8, 97u8, 114u8, 46u8, 122u8, 115u8, 116u8], 0);
    lemma_bytes_of_tar_zstd();
    lemma_suffix_clash(path, seq![46u8, 108u8, 122u8, 52u8], seq![46u8, 116u8, 97u8, 114u8, 46u8, 122u8, 115u8, 116u8, 100u8], 0);
    lemma_bytes_of_tlz();
    lemma_suffix_clash(path, seq![46u8, 108u8, 122u8, 52u8], seq![46u8, 116u8, 108u8, 122u8], 0);
    lemma_bytes_of_tar_lzma();
    lemma_suffix_clash(path, seq![46u8, 108u8, 122u8, 52u8], seq![46u8, 116u8, 97u8, 114u8, 46u8, 108u8, 122u8, 109u8, 97u8], 0);
    lemma_bytes_of_txz();
    lemma_suffix_clash(path, seq![46u8, 108u8, 122u8, 52u8], seq![46u8, 116u8, 120u8, 122u8], 0);
}

proof fn lemma_kind_of_lz4_2(path: Seq<u8>)
    requires
        ends_in(path, seq!['.', 'l', 'z', '4']),
    ensures
        !ends_with_ignore_case(path, encode_utf8(".tar.xz"@)),
        !ends_with_ignore_case(path, encode_utf8(".tar.br"@)),
        !ends_with_ignore_case(path, encode_utf8(".zip"@)),
        !ends_with_ignore_case(path, encode_utf8(".tar"@)),
        !ends_with_ignore_case(path, encode_utf8(".gz"@)),
        !ends_with_ignore_case(path, encode_utf8(".bz2"@)),
{
    lemma_bytes_of_lz4();
    lemma_ends_in(path, seq!['.', 'l', 'z', '4'], seq![46u8, 108u8, 122u8, 52u8]);
    lemma_bytes_of_tar_xz();
    lemma_suffix_clash(path, seq![46u8, 108u8, 122u8, 52u8], seq![46u8, 116u8, 97u8, 114u8, 46u8, 120u8, 122u8], 0);
    lemma_bytes_of_tar_br();
    lemma_suffix_clash(path, seq![46u8, 108u8, 122u8, 52u8], seq![46u8, 116u8, 97u8, 114u8, 46u8, 98u8, 114u8], 0);
    lemma_bytes_of_zip();
    lemma_suffix_clash(path, seq![46u8, 108u8, 122u8, 52u8], seq![46u8, 122u8, 105u8, 112u8], 0);
    lemma_bytes_of_tar();
    lemma_suffix_clash(path, seq![46u8, 108u8, 122u8, 52u8], seq![46u8, 116u8, 97u8, 114u8], 0);
    lemma_bytes_of_gz();
    lemma_suffix_clash(path, seq![46u8, 108u8, 122u8, 52u8], seq![46u8, 103u8, 122u8], 0);
    lemma_bytes_of_bz2();
    lemma_suffix_clash(path, seq![46u8, 108u8, 122u8, 52u8], seq![46u8, 98u8, 122u8, 50u8], 0);
}

proof fn lemma_kind_of_lz4_3(path: Seq<u8>)
    requires
        ends_in(path, seq!['.', 'l', 'z', '4']),
    ensures
        !ends_with_ignore_case(path, encode_utf8(".bz"@)),
        !ends_with_ignore_case(path, encode_utf8(".zst"@)),
        !ends_with_ignore_case(path, encode_utf8(".zstd"@)),
{
    lemma_bytes_of_lz4();
    lemma_ends_in(path, seq!['.', 'l', 'z', '4'], seq![46u8, 108u8, 122u8, 52u8]);
    lemma_bytes_of_bz();
    lemma_suffix_clash(path, seq![46u8, 108u8, 122u8, 52u8], seq![46u8, 98u8, 122u8], 0);
    lemma_bytes_of_zst();
    lemma_suffix_clash(path, seq![46u8, 108u8, 122u8, 52u8], seq![46u8, 122u8, 115u8, 116u8], 0);
    lemma_bytes_of_zstd();
    lemma_suffix_clash(path, seq![46u8, 108u8, 122u8, 52u8], seq![46u8, 122u8, 115u8, 116u8, 100u8], 0);
}

proof fn lemma_kind_of_lz4(path: Seq<u8>)
    ensures
        ends_in(path, seq!['.', 'l', 'z', '4']) ==> (kind_of(path) == Some(ArchiveKind::TarLz4) || kind_of(path) == Some(ArchiveKind::Lz4)),
{
    if ends_in(path, seq!['.', 'l', 'z', '4']) {
        lemma_kind_of_lz4_0(path);
        lemma_kind_of_lz4_1(path);
        lemma_kind_of_lz4_2(path);
        lemma_kind_of_lz4_3(path);
        lemma_bytes_of_lz4();
        lemma_ends_in(path, seq!['.', 'l', 'z', '4'], seq![46u8, 108u8, 122u8, 52u8]);
    }
}

proof fn lemma_kind_of_lzma_0(path: Seq<u8>)
    requires
        ends_in(path, seq!['.', 'l', 'z', 'm', 'a']),
    ensures
        !ends_with_ignore_case(path, encode_utf8(".tgz"@)),
        !ends_with_ignore_case(path, encode_utf8(".tar.gz"@)),
        !ends_with_ignore_case(path, encode_utf8(".tbz"@)),
        !ends_with_ignore_case(path, encode_utf8(".tbz2"@)),
        !ends_with_ignore_case(path, encode_utf8(".tar.bz2"@)),
        !ends_with_ignore_case(path, encode_utf8(".tar.bz"@)),
{
    lemma_bytes_of_lzma();
    lemma_ends_in(path, seq!['.', 'l', 'z', 'm', 'a'], seq![46u8, 108u8, 122u8, 109u8, 97u8]);
    lemma_bytes_of_tgz();
    lemma_suffix_clash(path, seq![46u8, 108u8, 122u8, 109u8, 97u8], seq![46u8, 116u8, 103u8, 122u8], 0);
    lemma_bytes_of_tar_gz();
    lemma_suffix_clash(path, seq![46u8, 108u8, 122u8, 109u8, 97u8], seq![46u8, 116u8, 97u8, 114u8, 46u8, 103u8, 122u8], 0);
    lemma_bytes_of_tbz();
    lemma_suffix_clash(path, seq![46u8, 108u8, 122u8, 109u8, 97u8], seq![46u8, 116u8, 98u8, 122u8], 0);
    lemma_bytes_of_tbz2();
    lemma_suffix_clash(path, seq![46u8, 108u8, 122u8, 109u8, 97u8], seq![46u8, 116u8, 98u8, 122u8, 50u8], 0);
    lemma_bytes_of_tar_bz2();
    lemma_suffix_clash(path, seq![46u8, 108u8, 122u8, 109u8, 97u8], seq![46u8, 116u8, 97u8, 114u8, 46u8, 98u8, 122u8, 50u8], 0);
    lemma_bytes_of_tar_bz();
    lemma_suffix_clash(path, seq![46u8, 108u8, 122u8, 109u8, 97u8], seq![46u8, 116u8, 97u8, 114u8, 46u8, 98u8, 122u8], 0);
}

proof fn lemma_kind_of_lzma_1(path: Seq<u8>)
    requires
        ends_in(path, seq!['.', 'l', 'z', 'm', 'a']),
    ensures
        !ends_with_ignore_case(path, encode_utf8(".tzst"@)),
        !ends_with_ignore_case(path, encode_utf8(".tar.zst"@)),
        !ends_with_ignore_case(path, encode_utf8(".tar.zstd"@)),
        !ends_with_ignore_case(path, encode_utf8(".tar.lz4"@)),
        !ends_with_ignore_case(path, encode_utf8(".txz"@)),
        !ends_with_ignore_case(path, encode_utf8(".tar.xz"@)),
{
    lemma_bytes_of_lzma();
    lemma_ends_in(path, seq!['.', 'l', 'z', 'm', 'a'], seq![46u8, 108u8, 122u8, 109u8, 97u8]);
    lemma_bytes_of_tzst();
    lemma_suffix_clash(path, seq![46u8, 108u8, 122u8, 109u8, 97u8], seq![46u8, 116u8, 122u8, 115u8, 116u8], 0);
    lemma_bytes_of_tar_zst();
    lemma_suffix_clash(path, seq![46u8, 108u8, 122u8, 109u8, 97u8], seq![46u8, 116u8, 97u8, 114u8, 46u8, 122u8, 115u8, 116u8], 0);
    lemma_bytes_of_tar_zstd();
    lemma_suffix_clash(path, seq![46u8, 108u8, 122u8, 109u8, 97u8], seq![46u8, 116u8, 97u8, 114u8, 46u8, 122u8, 115u8, 116u8, 100u8], 0);
    lemma_bytes_of_tar_lz4();
    lemma_suffix_clash(path, seq![46u8, 108u8, 122u8, 109u8, 97u8], seq![46u8, 116u8, 97u8, 114u8, 46u8, 108u8, 122u8, 52u8], 0);
    lemma_bytes_of_txz();
    lemma_suffix_clash(path, seq![46u8, 108u8, 122u8, 109u8, 97u8], seq![46u8, 116u8, 120u8, 122u8], 0);
    lemma_bytes_of_tar_xz();
    lemma_suffix_clash(path, seq![46u8, 108u8, 122u8, 109u8, 97u8], seq![46u8, 116u8, 97u8, 114u8, 46u8, 120u8, 122u8], 0);
}

proof fn lemma_kind_of_lzma_2(path: Seq<u8>)
    requires
        ends_in(path, seq!['.', 'l', 'z', 'm', 'a']),
    ensures
        !ends_with_ignore_case(path, encode_utf8(".tar.br"@)),
        !ends_with_ignore_case(path, encode_utf8(".zip"@)),
        !ends_with_ignore_case(path, encode_utf8(".tar"@)),
        !ends_with_ignore_case(path, encode_utf8(".gz"@)),
        !ends_with_ignore_case(path, encode_utf8(".bz2"@)),
        !ends_with_ignore_case(path, encode_utf8(".bz"@)),
{
    lemma_bytes_of_lzma();
    lemma_ends_in(path, seq!['.', 'l', 'z', 'm', 'a'], seq![46u8, 108u8, 122u8, 109u8, 97u8]);
    lemma_bytes_of_tar_br();
    lemma_suffix_clash(path, seq![46u8, 108u8, 122u8, 109u8, 97u8], seq![46u8, 116u8, 97u8, 114u8, 46u8, 98u8, 114u8], 0);
    lemma_bytes_of_zip();
    lemma_suffix_clash(path, seq![46u8, 108u8, 122u8, 109u8, 97u8], seq![46u8, 122u8, 105u8, 112u8], 0);
    lemma_bytes_of_tar();
    lemma_suffix_clash(path, seq![46u8, 108u8, 122u8, 109u8, 97u8], seq![46u8, 116u8, 97u8, 114u8], 0);
    lemma_bytes_of_gz();
    lemma_suffix_clash(path, seq![46u8, 108u8, 122u8, 109u8, 97u8], seq![46u8, 103u8, 122u8], 0);
    lemma_bytes_of_bz2();
    lemma_suffix_clash(path, seq![46u8, 108u8, 122u8, 109u8, 97u8], seq![46u8, 98u8, 122u8, 50u8], 0);
    lemma_bytes_of_bz();
    lemma_suffix_clash(path, seq![46u8, 108u8, 122u8, 109u8, 97u8], seq![46u8, 98u8, 122u8], 0);
}

proof fn lemma_kind_of_lzma_3(path: Seq<u8>)
    requires
        ends_in(path, seq!['.', 'l', 'z', 'm', 'a']),
    ensures
        !ends_with_ignore_case(path, encode_utf8(".zst"@)),
        !ends_with_ignore_case(path, encode_utf8(".zstd"@)),
        !ends_with_ignore_case(path, encode_utf8(".lz4"@)),
{
    lemma_bytes_of_lzma();
    lemma_ends_in(path, seq!['.', 'l', 'z', 'm', 'a'], seq![46u8, 108u8, 122u8, 109u8, 97u8]);
    lemma_bytes_of_zst();
    lemma_suffix_clash(path, seq![46u8, 108u8, 122u8, 109u8, 97u8], seq![46u8, 122u8, 115u8, 116u8], 0);
    lemma_bytes_of_zstd();
    lemma_suffix_clash(path, seq![46u8, 108u8, 122u8, 109u8, 97u8], seq![46u8, 122u8, 115u8, 116u8, 100u8], 0);
    lemma_bytes_of_lz4();
    lemma_suffix_clash(path, seq![46u8, 108u8, 122u8, 109u8, 97u8], seq![46u8, 108u8, 122u8, 52u8], 0);
}

proof fn lemma_kind_of_lzma(path: Seq<u8>)
    ensures
        ends_in(path, seq!['.', 'l', 'z', 'm', 'a']) ==> (kind_of(path) == Some(ArchiveKind::TarLzma) || kind_of(path) == Some(ArchiveKind::Lzma)),
{
    if ends_in(path, seq!['.', 'l', 'z', 'm', 'a']) {
        lemma_kind_of_lzma_0(path);
        lemma_kind_of_lzma_1(path);
        lemma_kind_of_lzma_2(path);
        lemma_kind_of_lzma_3(path);
        lemma_bytes_of_lzma();
        lemma_ends_in(path, seq!['.', 'l', 'z', 'm', 'a'], seq![46u8, 108u8, 122u8, 109u8, 97u8]);
    }
}

proof fn lemma_kind_of_xz_0(path: Seq<u8>)
    requires
        ends_in(path, seq!['.', 'x', 'z']),
    ensures
        !ends_with_ignore_case(path, encode_utf8(".tgz"@)),
        !ends_with_ignore_case(path, encode_utf8(".tar.gz"@)),
        !ends_with_ignore_case(path, encode_utf8(".tbz"@)),
        !ends_with_ignore_case(path, encode_utf8(".tbz2"@)),
        !ends_with_ignore_case(path, encode_utf8(".tar.bz2"@)),
        !ends_with_ignore_case(path, encode_utf8(".tar.bz"@)),
{
    lemma_bytes_of_xz();
    lemma_ends_in(path, seq!['.', 'x', 'z'], seq![46u8, 120u8, 122u8]);
    lemma_bytes_of_tgz();
    lemma_suffix_clash(path, seq![46u8, 120u8, 122u8], seq![46u8, 116u8, 103u8, 122u8], 1);
    lemma_bytes_of_tar_gz();
    lemma_suffix_clash(path, seq![46u8, 120u8, 122u8], seq![46u8, 116u8, 97u8, 114u8, 46u8, 103u8, 122u8], 1);
    lemma_bytes_of_tbz();
    lemma_suffix_clash(path, seq![46u8, 120u8, 122u8], seq![46u8, 116u8, 98u8, 122u8], 1);
    lemma_bytes_of_tbz2();
    lemma_suffix_clash(path, seq![46u8, 120u8, 122u8], seq![46u8, 116u8, 98u8, 122u8, 50u8], 0);
    lemma_bytes_of_tar_bz2();
    lemma_suffix_clash(path, seq![46u8, 120u8, 122u8], seq![46u8, 116u8, 97u8, 114u8, 46u8, 98u8, 122u8, 50u8], 0);
    lemma_bytes_of_tar_bz();
    lemma_suffix_clash(path, seq![46u8, 120u8, 122u8], seq![46u8, 116u8, 97u8, 114u8, 46u8, 98u8, 122u8], 1);
}

proof fn lemma_kind_of_xz_1(path: Seq<u8>)
    requires
        ends_in(path, seq!['.', 'x', 'z']),
    ensures
        !ends_with_ignore_case(path, encode_utf8(".tzst"@)),
        !ends_with_ignore_case(path, encode_utf8(".tar.zst"@)),
        !ends_with_ignore_case(path, encode_utf8(".tar.zstd"@)),
        !ends_with_ignore_case(path, encode_utf8(".tar.lz4"@)),
        !ends_with_ignore_case(path, encode_utf8(".tlz"@)),
        !ends_with_ignore_case(path, encode_utf8(".tar.lzma"@)),
{
    lemma_bytes_of_xz();
    lemma_ends_in(path, seq!['.', 'x', 'z'], seq![46u8, 120u8, 122u8]);
    lemma_bytes_of_tzst();
    lemma_suffix_clash(path, seq![46u8, 120u8, 122u8], seq![46u8, 116u8, 122u8, 115u8, 116u8], 0);
    lemma_bytes_of_tar_zst();
    lemma_suffix_clash(path, seq![46u8, 120u8, 122u8], seq![46u8, 116u8, 97u8, 114u8, 46u8, 122u8, 115u8, 116u8], 0);
    lemma_bytes_of_tar_zstd();
    lemma_suffix_clash(path, seq![46u8, 120u8, 122u8], seq![46u8, 116u8, 97u8, 114u8, 46u8, 122u8, 115u8, 116u8, 100u8], 0);
    lemma_bytes_of_tar_lz4();
    lemma_suffix_clash(path, seq![46u8, 120u8, 122u8], seq![46u8, 116u8, 97u8, 114u8, 46u8, 108u8, 122u8, 52u8], 0);
    lemma_bytes_of_tlz();
    lemma_suffix_clash(path, seq![46u8, 120u8, 122u8], seq![46u8, 116u8, 108u8, 122u8], 1);
    lemma_bytes_of_tar_lzma();
    lemma_suffix_clash(path, seq![46u8, 120u8, 122u8], seq![46u8, 116u8, 97u8, 114u8, 46u8, 108u8, 122u8, 109u8, 97u8], 0);
}

proof fn lemma_kind_of_xz_2(path: Seq<u8>)
    requires
        ends_in(path, seq!['.', 'x', 'z']),
    ensures
        !ends_with_ignore_case(path, encode_utf8(".tar.br"@)),
        !ends_with_ignore_case(path, encode_utf8(".zip"@)),
        !ends_with_ignore_case(path, encode_utf8(".tar"@)),
        !ends_with_ignore_case(path, encode_utf8(".gz"@)),
        !ends_with_ignore_case(path, encode_utf8(".bz2"@)),
        !ends_with_ignore_case(path, encode_utf8(".bz"@)),
{
    lemma_bytes_of_xz();
    lemma_ends_in(path, seq!['.', 'x', 'z'], seq![46u8, 120u8, 122u8]);
    lemma_bytes_of_tar_br();
    lemma_suffix_clash(path, seq![46u8, 120u8, 122u8], seq![46u8, 116u8, 97u8, 114u8, 46u8, 98u8, 114u8], 0);
    lemma_bytes_of_zip();
    lemma_suffix_clash(path, seq![46u8, 120u8, 122u8], seq![46u8, 122u8, 105u8, 112u8], 0);
    lemma_bytes_of_tar();
    lemma_suffix_clash(path, seq![46u8, 120u8, 122u8], seq![46u8, 116u8, 97u8, 114u8], 0);
    lemma_bytes_of_gz();
    lemma_suffix_clash(path, seq![46u8, 120u8, 122u8], seq![46u8, 103u8, 122u8], 1);
    lemma_bytes_of_bz2();
    lemma_suffix_clash(path, seq![46u8, 120u8, 122u8], seq![46u8, 98u8, 122u8, 50u8], 0);
    lemma_bytes_of_bz();
    lemma_suffix_clash(path, seq![46u8, 120u8, 122u8], seq![46u8, 98u8, 122u8], 1);
}

proof fn lemma_kind_of_xz_3(path: Seq<u8>)
    requires
        ends_in(path, seq!['.', 'x', 'z']),
    ensures
        !ends_with_ignore_case(path, encode_utf8(".zst"@)),
        !ends_with_ignore_case(path, encode_utf8(".zstd"@)),
        !ends_with_ignore_case(path, encode_utf8(".lz4"@)),
        !ends_with_ignore_case(path, encode_utf8(".lzma"@)),
{
    lemma_bytes_of_xz();
    lemma_ends_in(path, seq!['.', 'x', 'z'], seq![46u8, 120u8, 122u8]);
    lemma_bytes_of_zst();
    lemma_suffix_clash(path, seq![46u8, 120u8, 122u8], seq![46u8, 122u8, 115u8, 116u8], 0);
    lemma_bytes_of_zstd();
    lemma_suffix_clash(path, seq![46u8, 120u8, 122u8], seq![46u8, 122u8, 115u8, 116u8, 100u8], 0);
    lemma_bytes_of_lz4();
    lemma_suffix_clash(path, seq![46u8, 120u8, 122u8], seq![46u8, 108u8, 122u8, 52u8], 0);
    lemma_bytes_of_lzma();
    lemma_suffix_clash(path, seq![46u8, 120u8, 122u8], seq![46u8, 108u8, 122u8, 109u8, 97u8], 0);
}

proof fn lemma_kind_of_xz(path: Seq<u8>)
    ensures
        ends_in(path, seq!['.', 'x', 'z']) ==> (kind_of(path) == Some(ArchiveKind::TarXz) || kind_of(path) == Some(ArchiveKind::Xz)),
{
    if ends_in(path, seq!['.', 'x', 'z']) {
        lemma_kind_of_xz_0(path);
        lemma_kind_of_xz_1(path);
        lemma_kind_of_xz_2(path);
        lemma_kind_of_xz_3(path);
        lemma_bytes_of_xz();
        lemma_ends_in(path, seq!['.', 'x', 'z'], seq![46u8, 120u8, 122u8]);
    }
}

proof fn lemma_kind_of_br_0(path: Seq<u8>)
    requires
        ends_in(path, seq!['.', 'b', 'r']),
    ensures
        !ends_with_ignore_case(path, encode_utf8(".tgz"@)),
        !ends_with_ignore_case(path, encode_utf8(".tar.gz"@)),
        !ends_with_ignore_case(path, encode_utf8(".tbz"@)),
        !ends_with_ignore_case(path, encode_utf8(".tbz2"@)),
        !ends_with_ignore_case(path, encode_utf8(".tar.bz2"@)),
        !ends_with_ignore_case(path, encode_utf8(".tar.bz"@)),
{
    lemma_bytes_of_br();
    lemma_ends_in(path, seq!['.', 'b', 'r'], seq![46u8, 98u8, 114u8]);
    lemma_bytes_of_tgz();
    lemma_suffix_clash(path, seq![46u8, 98u8, 114u8], seq![46u8, 116u8, 103u8, 122u8], 0);
    lemma_bytes_of_tar_gz();
    lemma_suffix_clash(path, seq![46u8, 98u8, 114u8], seq![46u8, 116u8, 97u8, 114u8, 46u8, 103u8, 122u8], 0);
    lemma_bytes_of_tbz();
    lemma_suffix_clash(path, seq![46u8, 98u8, 114u8], seq![46u8, 116u8, 98u8, 122u8], 0);
    lemma_bytes_of_tbz2();
    lemma_suffix_clash(path, seq![46u8, 98u8, 114u8], seq![46u8, 116u8, 98u8, 122u8, 50u8], 0);
    lemma_bytes_of_tar_bz2();
    lemma_suffix_clash(path, seq![46u8, 98u8, 114u8], seq![46u8, 116u8, 97u8, 114u8, 46u8, 98u8, 122u8, 50u8], 0);
    lemma_bytes_of_tar_bz();
    lemma_suffix_clash(path, seq![46u8, 98u8, 114u8], seq![46u8, 116u8, 97u8, 114u8, 46u8, 98u8, 122u8], 0);
}

proof fn lemma_kind_of_br_1(path: Seq<u8>)
    requires
        ends_in(path, seq!['.', 'b', 'r']),
    ensures
        !ends_with_ignore_case(path, encode_utf8(".tzst"@)),
        !ends_with_ignore_case(path, encode_utf8(".tar.zst"@)),
        !ends_with_ignore_case(path, encode_utf8(".tar.zstd"@)),
        !ends_with_ignore_case(path, encode_utf8(".tar.lz4"@)),
        !ends_with_ignore_case(path, encode_utf8(".tlz"@)),
        !ends_with_ignore_case(path, encode_utf8(".tar.lzma"@)),
{
    lemma_bytes_of_br();
    lemma_ends_in(path, seq!['.', 'b', 'r'], seq![46u8, 98u8, 114u8]);
    lemma_bytes_of_tzst();
    lemma_suffix_clash(path, seq![46u8, 98u8, 114u8], seq![46u8, 116u8, 122u8, 115u8, 116u8], 0);
    lemma_bytes_of_tar_zst();
    lemma_suffix_clash(path, seq![46u8, 98u8, 114u8], seq![46u8, 116u8, 97u8, 114u8, 46u8, 122u8, 115u8, 116u8], 0);
    lemma_bytes_of_tar_zstd();
    lemma_suffix_clash(path, seq![46u8, 98u8, 114u8], seq![46u8, 116u8, 97u8, 114u8, 46u8, 122u8, 115u8, 116u8, 100u8], 0);
    lemma_bytes_of_tar_lz4();
    lemma_suffix_clash(path, seq![46u8, 98u8, 114u8], seq![46u8, 116u8, 97u8, 114u8, 46u8, 108u8, 122u8, 52u8], 0);
    lemma_bytes_of_tlz();
    lemma_suffix_clash(path, seq![46u8, 98u8, 114u8], seq![46u8, 116u8, 108u8, 122u8], 0);
    lemma_bytes_of_tar_lzma();
    lemma_suffix_clash(path, seq![46u8, 98u8, 114u8], seq![46u8, 116u8, 97u8, 114u8, 46u8, 108u8, 122u8, 109u8, 97u8], 0);
}

proof fn lemma_kind_of_br_2(path: Seq<u8>)
    requires
        ends_in(path, seq!['.', 'b', 'r']),
    ensures
        !ends_with_ignore_case(path, encode_utf8(".txz"@)),
        !ends_with_ignore_case(path, encode_utf8(".tar.xz"@)),
        !ends_with_ignore_case(path, encode_utf8(".zip"@)),
        !ends_with_ignore_case(path, encode_utf8(".tar"@)),
        !ends_with_ignore_case(path, encode_utf8(".gz"@)),
        !ends_with_ignore_case(path, encode_utf8(".bz2"@)),
{
    lemma_bytes_of_br();
    lemma_ends_in(path, seq!['.', 'b', 'r'], seq![46u8, 98u8, 114u8]);
    lemma_bytes_of_txz();
    lemma_suffix_clash(path, seq![46u8, 98u8, 114u8], seq![46u8, 116u8, 120u8, 122u8], 0);
    lemma_bytes_of_tar_xz();
    lemma_suffix_clash(path, seq![46u8, 98u8, 114u8], seq![46u8, 116u8, 97u8, 114u8, 46u8, 120u8, 122u8], 0);
    lemma_bytes_of_zip();
    lemma_suffix_clash(path, seq![46u8, 98u8, 114u8], seq![46u8, 122u8, 105u8, 112u8], 0);
    lemma_bytes_of_tar();
    lemma_suffix_clash(path, seq![46u8, 98u8, 114u8], seq![46u8, 116u8, 97u8, 114u8], 1);
    lemma_bytes_of_gz();
    lemma_suffix_clash(path, seq![46u8, 98u8, 114u8], seq![46u8, 103u8, 122u8], 0);
    lemma_bytes_of_bz2();
    lemma_suffix_clash(path, seq![46u8, 98u8, 114u8], seq![46u8, 98u8, 122u8, 50u8], 0);
}

proof fn lemma_kind_of_br_3(path: Seq<u8>)
    requires
        ends_in(path, seq!['.', 'b', 'r']),
    ensures
        !ends_with_ignore_case(path, encode_utf8(".bz"@)),
        !ends_with_ignore_case(path, encode_utf8(".zst"@)),
        !ends_with_ignore_case(path, encode_utf8(".zstd"@)),
        !ends_with_ignore_case(path, encode_utf8(".lz4"@)),
        !ends_with_ignore_case(path, encode_utf8(".lzma"@)),
        !ends_with_ignore_case(path, encode_utf8(".xz"@)),
{
    lemma_bytes_of_br();
    lemma_ends_in(path, seq!['.', 'b', 'r'], seq![46u8, 98u8, 114u8]);
    lemma_bytes_of_bz();
    lemma_suffix_clash(path, seq![46u8, 98u8, 114u8], seq![46u8, 98u8, 122u8], 0);
    lemma_bytes_of_zst();
    lemma_suffix_clash(path, seq![46u8, 98u8, 114u8], seq![46u8, 122u8, 115u8, 116u8], 0);
    lemma_bytes_of_zstd();
    lemma_suffix_clash(path, seq![46u8, 98u8, 114u8], seq![46u8, 122u8, 115u8, 116u8, 100u8], 0);
    lemma_bytes_of_lz4();
    lemma_suffix_clash(path, seq![46u8, 98u8, 114u8], seq![46u8, 108u8, 122u8, 52u8], 0);
    lemma_bytes_of_lzma();
    lemma_suffix_clash(path, seq![46u8, 98u8, 114u8], seq![46u8, 108u8, 122u8, 109u8, 97u8], 0);
    lemma_bytes_of_xz();
    lemma_suffix_clash(path, seq![46u8, 98u8, 114u8], seq![46u8, 120u8, 122u8], 0);
}

proof fn lemma_kind_of_br(path: Seq<u8>)
    ensures
        ends_in(path, seq!['.', 'b', 'r']) ==> (kind_of(path) == Some(ArchiveKind::TarBrotli) || kind_of(path) == Some(ArchiveKind::Brotli)),
{
    if ends_in(path, seq!['.', 'b', 'r']) {
        lemma_kind_of_br_0(path);
        lemma_kind_of_br_1(path);
        lemma_kind_of_br_2(path);
        lemma_kind_of_br_3(path);
        lemma_bytes_of_br();
        lemma_ends_in(path, seq!['.', 'b', 'r'], seq![46u8, 98u8, 114u8]);
    }
}

/// The kind of an archive is the one its suffix names, ignoring ASCII
/// case: a compressed tar (`.tgz`, `.tar.gz`, `.tbz`, `.tbz2`, `.tar.bz2`,
/// `.tar.bz`, `.tzst`, `.tar.zst`, `.tar.zstd`, `.tar.lz4`, `.tlz`,
/// `.tar.lzma`, `.txz`, `.tar.xz`, `.tar.br`) is walked as a tar of that
/// compression and never expanded as one plain stream; `.zip` and `.tar`
/// name their formats; and a plain compression suffix (`.gz`, `.bz2`,
/// `.bz`, `.zst`, `.zstd`, `.lz4`, `.lzma`, `.xz`, `.br`) names that
/// compression, of a tar or of a single stream.
pub proof fn lemma_suffix_names_kind(path: Seq<u8>)
    ensures
        ends_in(path, seq!['.', 't', 'g', 'z']) ==> kind_of(path) == Some(ArchiveKind::TarGzip),
        ends_in(path, seq!['.', 't', 'a', 'r', '.', 'g', 'z']) ==> kind_of(path) == Some(ArchiveKind::TarGzip),
        ends_in(path, seq!['.', 't', 'b', 'z']) ==> kind_of(path) == Some(ArchiveKind::TarBzip2),
        ends_in(path, seq!['.', 't', 'b', 'z', '2']) ==> kind_of(path) == Some(ArchiveKind::TarBzip2),
        ends_in(path, seq!['.', 't', 'a', 'r', '.', 'b', 'z', '2']) ==> kind_of(path) == Some(ArchiveKind::TarBzip2),
        ends_in(path, seq!['.', 't', 'a', 'r', '.', 'b', 'z']) ==> kind_of(path) == Some(ArchiveKind::TarBzip2),
        ends_in(path, seq!['.', 't', 'z', 's', 't']) ==> kind_of(path) == Some(ArchiveKind::TarZstd),
        ends_in(path, seq!['.', 't', 'a', 'r', '.', 'z', 's', 't']) ==> kind_of(path) == Some(ArchiveKind::TarZstd),
        ends_in(path, seq!['.', 't', 'a', 'r', '.', 'z', 's', 't', 'd']) ==> kind_of(path) == Some(ArchiveKind::TarZstd),
        ends_in(path, seq!['.', 't', 'a', 'r', '.', 'l', 'z', '4']) ==> kind_of(path) == Some(ArchiveKind::TarLz4),
        ends_in(path, seq!['.', 't', 'l', 'z']) ==> kind_of(path) == Some(ArchiveKind::TarLzma),
        ends_in(path, seq!['.', 't', 'a', 'r', '.', 'l', 'z', 'm', 'a']) ==> kind_of(path) == Some(ArchiveKind::TarLzma),
        ends_in(path, seq!['.', 't', 'x', 'z']) ==> kind_of(path) == Some(ArchiveKind::TarXz),
        ends_in(path, seq!['.', 't', 'a', 'r', '.', 'x', 'z']) ==> kind_of(path) == Some(ArchiveKind::TarXz),
        ends_in(path, seq!['.', 't', 'a', 'r', '.', 'b', 'r']) ==> kind_of(path) == Some(ArchiveKind::TarBrotli),
        ends_in(path, seq!['.', 'z', 'i', 'p']) ==> kind_of(path) == Some(ArchiveKind::Zip),
        ends_in(path, seq!['.', 't', 'a', 'r']) ==> kind_of(path) == Some(ArchiveKind::Tar),
        ends_in(path, seq!['.', 'g', 'z']) ==> (kind_of(path) == Some(ArchiveKind::TarGzip) || kind_of(path) == Some(ArchiveKind::Gzip)),
        ends_in(path, seq!['.', 'b', 'z', '2']) ==> (kind_of(path) == Some(ArchiveKind::TarBzip2) || kind_of(path) == Some(ArchiveKind::Bzip2)),
        ends_in(path, seq!['.', 'b', 'z']) ==> (kind_of(path) == Some(ArchiveKind::TarBzip2) || kind_of(path) == Some(ArchiveKind::Bzip2)),
        ends_in(path, seq!['.', 'z', 's', 't']) ==> (kind_of(path) == Some(ArchiveKind::TarZstd) || kind_of(path) == Some(ArchiveKind::Zstd)),
        ends_in(path, seq!['.', 'z', 's', 't', 'd']) ==> (kind_of(path) == Some(ArchiveKind::TarZstd) || kind_of(path) == Some(ArchiveKind::Zstd)),
        ends_in(path, seq!['.', 'l', 'z', '4']) ==> (kind_of(path) == Some(ArchiveKind::TarLz4) || kind_of(path) == Some(ArchiveKind::Lz4)),
        ends_in(path, seq!['.', 'l', 'z', 'm', 'a']) ==> (kind_of(path) == Some(ArchiveKind::TarLzma) || kind_of(path) == Some(ArchiveKind::Lzma)),
        ends_in(path, seq!['.', 'x', 'z']) ==> (kind_of(path) == Some(ArchiveKind::TarXz) || kind_of(path) == Some(ArchiveKind::Xz)),
        ends_in(path, seq!['.', 'b', 'r']) ==> (kind_of(path) == Some(ArchiveKind::TarBrotli) || kind_of(path) == Some(ArchiveKind::Brotli)),
{
    lemma_kind_of_gz(path);
    lemma_kind_of_bz2(path);
    lemma_kind_of_bz(path);
    lemma_kind_of_zst(path);
    lemma_kind_of_zstd(path);
    lemma_kind_of_lz4(path);
    lemma_kind_of_lzma(path);
    lemma_kind_of_xz(path);
    lemma_kind_of_br(path);
    lemma_kind_of_tgz(path);
    lemma_kind_of_tar_gz(path);
    lemma_kind_of_tbz(path);
    lemma_kind_of_tbz2(path);
    lemma_kind_of_tar_bz2(path);
    lemma_kind_of_tar_bz(path);
    lemma_kind_of_tzst(path);
    lemma_kind_of_tar_zst(path);
    lemma_kind_of_tar_zstd(path);
    lemma_kind_of_tar_lz4(path);
    lemma_kind_of_tlz(path);
    lemma_kind_of_tar_lzma(path);
    lemma_kind_of_txz(path);
    lemma_kind_of_tar_xz(path);
    lemma_kind_of_tar_br(path);
    lemma_kind_of_zip(path);
    lemma_kind_of_tar(path);
}

/// The archive kind a path names by its suffix, if any.
pub fn kind(path: &str) -> (found: Option<ArchiveKind>)
    ensures
        found == kind_of(encode_utf8(path@)),
{
    let p = path.as_bytes();
    if has_suffix(p, ".tgz") || has_suffix(p, ".tar.gz") {
        Some(ArchiveKind::TarGzip)
    } else if has_suffix(p, ".tbz") || has_suffix(p, ".tbz2") || has_suffix(p, ".tar.bz2") || has_suffix(p, ".tar.bz") {
        Some(ArchiveKind::TarBzip2)
    } else if has_suffix(p, ".tzst") || has_suffix(p, ".tar.zst") || has_suffix(p, ".tar.zstd") {
        Some(ArchiveKind::TarZstd)
    } else if has_suffix(p, ".tar.lz4") {
        Some(ArchiveKind::TarLz4)
    } else if has_suffix(p, ".tlz") || has_suffix(p, ".tar.lzma") {
        Some(ArchiveKind::TarLzma)
    } else if has_suffix(p, ".txz") || has_suffix(p, ".tar.xz") {
        Some(ArchiveKind::TarXz)
    } else if has_suffix(p, ".tar.br") {
        Some(ArchiveKind::TarBrotli)
    } else if has_suffix(p, ".zip") {
        Some(ArchiveKind::Zip)
    } else if has_suffix(p, ".tar") {
        Some(ArchiveKind::Tar)
    } else if has_suffix(p, ".gz") {
        Some(ArchiveKind::Gzip)
    } else if has_suffix(p, ".bz2") || has_suffix(p, ".bz") {
        Some(ArchiveKind::Bzip2)
    } else if has_suffix(p, ".zst") || has_suffix(p, ".zstd") {
        Some(ArchiveKind::Zstd)
    } else if has_suffix(p, ".lz4") {
        Some(ArchiveKind::Lz4)
    } else if has_suffix(p, ".lzma") {
        Some(ArchiveKind::Lzma)
    } else if has_suffix(p, ".xz") {
        Some(ArchiveKind::Xz)
    } else if has_suffix(p, ".br") {
        Some(ArchiveKind::Brotli)
    } else {
        None
    }
}

/// The first of `suffixes` that `path` ends with, ignoring ASCII case.
pub open spec fn first_suffix(path: Seq<u8>, suffixes: Seq<Seq<u8>>) -> Option<Seq<u8>>
    decreases suffixes.len(),
{
    if suffixes.len() == 0 {
        None
    } else if ends_with_ignore_case(path, suffixes[0]) {
        Some(suffixes[0])
    } else {
        first_suffix(path, suffixes.drop_first())
    }
}

/// The UTF-8 bytes of string slices.
pub open spec fn strs_bytes(suffixes: Seq<&str>) -> Seq<Seq<u8>> {
    suffixes.map_values(|s: &str| encode_utf8(s@))
}

/// `path` without the first of `suffixes` it ends with, ignoring ASCII
/// case, or `None` when it ends with none of them.
pub fn strip_suffix_ignore_ascii_case(path: &str, suffixes: &[&str]) -> (stem: Option<String>)
    ensures
        match first_suffix(encode_utf8(path@), strs_bytes(suffixes@)) {
            Some(suffix) => stem matches Some(s) && s@ == lossy_utf8(encode_utf8(path@).subrange(0, encode_utf8(path@).len() - suffix.len())),
            None => stem is None,
        },
{
    let bytes = path.as_bytes();
    let ghost all = strs_bytes(suffixes@);
    let mut i: usize = 0;
    proof {
        assert(all.subrange(0, all.len() as int) =~= all);
    }
    while i < suffixes.len()
        invariant
            i <= suffixes@.len(),
            bytes@ == encode_utf8(path@),
            all == strs_bytes(suffixes@),
            first_suffix(bytes@, all) == first_suffix(bytes@, all.subrange(i as int, all.len() as int)),
        decreases suffixes@.len() - i,
    {
        let suffix = suffixes[i];
        proof {
            let rest = all.subrange(i as int, all.len() as int);
            assert(rest[0] == encode_utf8(suffix@));
            assert(rest.drop_first() =~= all.subrange(i + 1, all.len() as int));
        }
        if has_suffix(bytes, suffix) {
            proof {
                reveal(ends_with_ignore_case);
            }
            let length = suffix.as_bytes().len();
            return Some(lossy_string(&bytes[0..bytes.len() - length]));
        }
        i = i + 1;
    }
    None
}

/// One component of a member path, as `std::path::Path::components`
/// yields it.
#[derive(Debug)]
pub enum PathPart {
    /// A plain name, decoded lossily.
    Normal(String),
    /// `.`
    CurDir,
    /// `..`
    ParentDir,
    /// A leading separator.
    RootDir,
    /// A platform prefix such as a drive letter.
    Prefix,
}

/// A name that splits into itself on every platform: not empty, not `.`
/// or `..`, and without a separator (`/` or `\\`) or a drive colon.
pub open spec fn plain_name(name: Seq<char>) -> bool {
    &&& name.len() > 0
    &&& name != seq!['.']
    &&& name != seq!['.', '.']
    &&& forall|i: int| 0 <= i < name.len() ==> #[trigger] name[i] != '/' && name[i] != '\\' && name[i] != ':'
}

/// Splits a path with `Path::components`.
///
/// The contract claims only that a plain name is one `Normal` component
/// holding the name itself, which holds on every platform; how other
/// paths split depends on the platform and is left unsaid.
#[verifier::external_body]
fn path_parts(path: &str) -> (parts: Vec<PathPart>)
    ensures
        plain_name(path@) ==> parts@.len() == 1 && parts@[0] is Normal && parts@[0]->Normal_0@ == path@,
{
    std::path::Path::new(path).components().map(|component| match component {
        std::path::Component::Normal(value) => PathPart::Normal(value.to_string_lossy().into_owned()),
        std::path::Component::CurDir => PathPart::CurDir,
        std::path::Component::ParentDir => PathPart::ParentDir,
        std::path::Component::RootDir => PathPart::RootDir,
        std::path::Component::Prefix(_) => PathPart::Prefix,
    }).collect()
}

/// The names of the plain components of `parts`, or `None` when a
/// component climbs out of or anchors the path.
pub open spec fn normal_names(parts: Seq<PathPart>) -> Option<Seq<Seq<char>>>
    decreases parts.len(),
{
    if parts.len() == 0 {
        Some(Seq::empty())
    } else {
        match normal_names(parts.drop_last()) {
            None => None,
            Some(names) => match parts.last() {
                PathPart::Normal(value) => Some(names.push(value@)),
                PathPart::CurDir => Some(names),
                _ => None,
            },
        }
    }
}

/// The virtual path of a member: its plain components joined with `/`, or
/// `None` when it is empty or a component is unsafe.
pub open spec fn virtual_path(parts: Seq<PathPart>) -> Option<Seq<char>> {
    match normal_names(parts) {
        Some(names) => if joined_nonempty(names).len() > 0 { Some(joined_nonempty(names)) } else { None },
        None => None,
    }
}

/// A plain name is its own virtual path.
proof fn lemma_plain_virtual(parts: Seq<PathPart>, name: Seq<char>)
    requires
        parts.len() == 1,
        parts[0] is Normal,
        parts[0]->Normal_0@ == name,
        plain_name(name),
    ensures
        virtual_path(parts) == Some(name),
{
    assert(parts.drop_last() =~= Seq::<PathPart>::empty());
    assert(normal_names(parts.drop_last()) == Some(Seq::<Seq<char>>::empty()));
    assert(parts.last() == parts[0]);
    let names = seq![name];
    assert(Seq::<Seq<char>>::empty().push(name) =~= names);
    assert(normal_names(parts) == Some(names));
    assert(names.drop_last() =~= Seq::<Seq<char>>::empty());
    assert(joined_nonempty(names.drop_last()) == Seq::<char>::empty());
    assert(names.last() == name);
    assert(joined_nonempty(names) == name);
}

/// The safe virtual path of a member, or `None` when the path is empty,
/// absolute, prefixed, or climbs with `..`.
pub fn safe_virtual_path(parts: &Vec<PathPart>) -> (path: Option<String>)
    ensures
        match virtual_path(parts@) {
            Some(expected) => path matches Some(p) && p@ == expected,
            None => path is None,
        },
{
    let mut normalized = String::new();
    let ghost mut names: Seq<Seq<char>> = Seq::empty();
    let mut i: usize = 0;
    proof {
        assert(parts@.subrange(0, 0) =~= Seq::<PathPart>::empty());
    }
    while i < parts.len()
        invariant
            i <= parts@.len(),
            normal_names(parts@.subrange(0, i as int)) == Some(names),
            normalized@ == joined_nonempty(names),
        decreases parts@.len() - i,
    {
        proof {
            let next = parts@.subrange(0, i + 1);
            assert(next.drop_last() =~= parts@.subrange(0, i as int));
        }
        match &parts[i] {
            PathPart::Normal(value) => {
                if !normalized.as_str().is_empty() {
                    normalized.append("/");
                    proof {
                        reveal_strlit("/");
                    }
                }
                normalized.append(value.as_str());
                proof {
                    lemma_joined_nonempty_push(names, value@);
                    names = names.push(value@);
                }
            }
            PathPart::CurDir => {}
            _ => {
                proof {
                    lemma_normal_names_prefix_none(parts@, i as int);
                }
                return None;
            }
        }
        i = i + 1;
    }
    proof {
        assert(parts@.subrange(0, i as int) =~= parts@);
    }
    if !normalized.as_str().is_empty() {
        Some(normalized)
    } else {
        None
    }
}

/// Names joined with `/`; a `/` goes only after a non-empty start.
pub open spec fn joined_nonempty(names: Seq<Seq<char>>) -> Seq<char>
    decreases names.len(),
{
    if names.len() == 0 {
        Seq::empty()
    } else {
        let previous = joined_nonempty(names.drop_last());
        if previous.len() > 0 { previous + seq!['/'] + names.last() } else { names.last() }
    }
}

proof fn lemma_joined_nonempty_push(names: Seq<Seq<char>>, name: Seq<char>)
    ensures
        joined_nonempty(names.push(name)) == if joined_nonempty(names).len() > 0 {
            joined_nonempty(names) + seq!['/'] + name
        } else {
            name
        },
{
    assert(names.push(name).drop_last() =~= names);
}

proof fn lemma_normal_names_prefix_none(parts: Seq<PathPart>, i: int)
    requires
        0 <= i < parts.len(),
        !(parts[i] is Normal || parts[i] is CurDir),
    ensures
        normal_names(parts) is None,
    decreases parts.len() - i,
{
    if i == parts.len() - 1 {
        assert(parts.last() == parts[i]);
    } else {
        lemma_normal_names_prefix_none(parts.drop_last(), i);
        assert(parts.drop_last()[i] == parts[i]);
    }
}

/// Why reading decoded bytes failed.
#[derive(Debug)]
pub enum ReadFailure {
    /// The decoder could not be set up.
    Decoder(String),
    /// Reading decoded bytes failed.
    Read(String),
}

/// What reading at most `limit + 1` decoded bytes of a gzip stream with `flate2::read::GzDecoder` gives:
/// the bytes, or whether the decoder could not be set up and the text of
/// the failure.
pub uninterp spec fn gzip_read(bytes: Seq<u8>, limit: u64) -> core::result::Result<Seq<u8>, (bool, Seq<char>)>;

/// Reads at most `limit + 1` decoded bytes of a gzip stream with
/// `flate2::read::GzDecoder`.
///
/// Trusted: the outcome is the name `gzip_read` of the input and the limit,
/// the decoder being a function of them, and at most `limit + 1` bytes are
/// returned, as `Read::take` documents.
#[verifier::external_body]
fn read_gzip(bytes: &[u8], limit: u64) -> (read: core::result::Result<Vec<u8>, ReadFailure>)
    ensures
        read matches Ok(content) ==> content@.len() <= limit + 1,
        match read {
            Ok(content) => gzip_read(bytes@, limit) == Ok::<Seq<u8>, (bool, Seq<char>)>(content@),
            Err(ReadFailure::Decoder(message)) => gzip_read(bytes@, limit) == Err::<Seq<u8>, (bool, Seq<char>)>((true, message@)),
            Err(ReadFailure::Read(message)) => gzip_read(bytes@, limit) == Err::<Seq<u8>, (bool, Seq<char>)>((false, message@)),
        },
{
    let mut content = Vec::new();
    flate2::read::GzDecoder::new(std::io::Cursor::new(bytes)).take(limit.saturating_add(1))
        .read_to_end(&mut content).map(|_| content).map_err(|error| ReadFailure::Read(error.to_string()))
}

/// What reading at most `limit + 1` decoded bytes of a bzip2 stream with `bzip2_rs::DecoderReader` gives:
/// the bytes, or whether the decoder could not be set up and the text of
/// the failure.
pub uninterp spec fn bzip2_read(bytes: Seq<u8>, limit: u64) -> core::result::Result<Seq<u8>, (bool, Seq<char>)>;

/// Reads at most `limit + 1` decoded bytes of a bzip2 stream with
/// `bzip2_rs::DecoderReader`.
///
/// Trusted: the outcome is the name `bzip2_read` of the input and the limit,
/// the decoder being a function of them, and at most `limit + 1` bytes are
/// returned, as `Read::take` documents.
#[verifier::external_body]
fn read_bzip2(bytes: &[u8], limit: u64) -> (read: core::result::Result<Vec<u8>, ReadFailure>)
    ensures
        read matches Ok(content) ==> content@.len() <= limit + 1,
        match read {
            Ok(content) => bzip2_read(bytes@, limit) == Ok::<Seq<u8>, (bool, Seq<char>)>(content@),
            Err(ReadFailure::Decoder(message)) => bzip2_read(bytes@, limit) == Err::<Seq<u8>, (bool, Seq<char>)>((true, message@)),
            Err(ReadFailure::Read(message)) => bzip2_read(bytes@, limit) == Err::<Seq<u8>, (bool, Seq<char>)>((false, message@)),
        },
{
    let mut content = Vec::new();
    bzip2_rs::DecoderReader::new(std::io::Cursor::new(bytes)).take(limit.saturating_add(1))
        .read_to_end(&mut content).map(|_| content).map_err(|error| ReadFailure::Read(error.to_string()))
}

/// What reading at most `limit + 1` decoded bytes of a LZ4 frame stream with `lz4_flex::frame::FrameDecoder` gives:
/// the bytes, or whether the decoder could not be set up and the text of
/// the failure.
pub uninterp spec fn lz4_read(bytes: Seq<u8>, limit: u64) -> core::result::Result<Seq<u8>, (bool, Seq<char>)>;

/// Reads at most `limit + 1` decoded bytes of an LZ4 frame stream with
/// `lz4_flex::frame::FrameDecoder`.
///
/// Trusted: the outcome is the name `lz4_read` of the input and the limit,
/// the decoder being a function of them, and at most `limit + 1` bytes are
/// returned, as `Read::take` documents.
#[verifier::external_body]
fn read_lz4(bytes: &[u8], limit: u64) -> (read: core::result::Result<Vec<u8>, ReadFailure>)
    ensures
        read matches Ok(content) ==> content@.len() <= limit + 1,
        match read {
            Ok(content) => lz4_read(bytes@, limit) == Ok::<Seq<u8>, (bool, Seq<char>)>(content@),
            Err(ReadFailure::Decoder(message)) => lz4_read(bytes@, limit) == Err::<Seq<u8>, (bool, Seq<char>)>((true, message@)),
            Err(ReadFailure::Read(message)) => lz4_read(bytes@, limit) == Err::<Seq<u8>, (bool, Seq<char>)>((false, message@)),
        },
{
    let mut content = Vec::new();
    lz4_flex::frame::FrameDecoder::new(std::io::Cursor::new(bytes)).take(limit.saturating_add(1))
        .read_to_end(&mut content).map(|_| content).map_err(|error| ReadFailure::Read(error.to_string()))
}

/// What reading at most `limit + 1` decoded bytes of a Brotli stream with `brotli_decompressor::Decompressor` and an 8 KiB buffer gives:
/// the bytes, or whether the decoder could not be set up and the text of
/// the failure.
pub uninterp spec fn brotli_read(bytes: Seq<u8>, limit: u64) -> core::result::Result<Seq<u8>, (bool, Seq<char>)>;

/// Reads at most `limit + 1` decoded bytes of a Brotli stream with
/// `brotli_decompressor::Decompressor` and an 8 KiB buffer.
///
/// Trusted: the outcome is the name `brotli_read` of the input and the limit,
/// the decoder being a function of them, and at most `limit + 1` bytes are
/// returned, as `Read::take` documents.
#[verifier::external_body]
fn read_brotli(bytes: &[u8], limit: u64) -> (read: core::result::Result<Vec<u8>, ReadFailure>)
    ensures
        read matches Ok(content) ==> content@.len() <= limit + 1,
        match read {
            Ok(content) => brotli_read(bytes@, limit) == Ok::<Seq<u8>, (bool, Seq<char>)>(content@),
            Err(ReadFailure::Decoder(message)) => brotli_read(bytes@, limit) == Err::<Seq<u8>, (bool, Seq<char>)>((true, message@)),
            Err(ReadFailure::Read(message)) => brotli_read(bytes@, limit) == Err::<Seq<u8>, (bool, Seq<char>)>((false, message@)),
        },
{
    let mut content = Vec::new();
    brotli_decompressor::Decompressor::new(std::io::Cursor::new(bytes), 8 * 1024).take(limit.saturating_add(1))
        .read_to_end(&mut content).map(|_| content).map_err(|error| ReadFailure::Read(error.to_string()))
}

/// What reading at most `limit + 1` decoded bytes of a Zstandard stream with `ruzstd`, its frame decoder primed with a tiny frame gives:
/// the bytes, or whether the decoder could not be set up and the text of
/// the failure.
pub uninterp spec fn zstd_read(bytes: Seq<u8>, limit: u64) -> core::result::Result<Seq<u8>, (bool, Seq<char>)>;

/// Reads at most `limit + 1` decoded bytes of a Zstandard stream with
/// `ruzstd`, after priming the frame decoder with a tiny frame so that its
/// reset path enforces its malformed-frame window ceiling.
///
/// Trusted: the outcome is the name `zstd_read` of the input and the limit,
/// the decoder being a function of them, and at most `limit + 1` bytes are
/// returned, as `Read::take` documents; a failure to set the decoder up is reported as such.
#[verifier::external_body]
fn read_zstd(bytes: &[u8], limit: u64) -> (read: core::result::Result<Vec<u8>, ReadFailure>)
    ensures
        read matches Ok(content) ==> content@.len() <= limit + 1,
        match read {
            Ok(content) => zstd_read(bytes@, limit) == Ok::<Seq<u8>, (bool, Seq<char>)>(content@),
            Err(ReadFailure::Decoder(message)) => zstd_read(bytes@, limit) == Err::<Seq<u8>, (bool, Seq<char>)>((true, message@)),
            Err(ReadFailure::Read(message)) => zstd_read(bytes@, limit) == Err::<Seq<u8>, (bool, Seq<char>)>((false, message@)),
        },
{
    let mut decoder = ruzstd::decoding::FrameDecoder::new();
    decoder.init(std::io::Cursor::new([40u8, 181, 47, 253, 0, 56, 9, 0, 0, 0])).map_err(|error| ReadFailure::Decoder(error.to_string()))?;
    let stream = ruzstd::decoding::StreamingDecoder::new_with_decoder(std::io::Cursor::new(bytes), decoder)
        .map_err(|error| ReadFailure::Decoder(error.to_string()))?;
    let mut content = Vec::new();
    stream.take(limit.saturating_add(1)).read_to_end(&mut content).map(|_| content).map_err(|error| ReadFailure::Read(error.to_string()))
}

/// What `lzma_rs::lzma_decompress_with_options` makes of a whole stream
/// under a dictionary memory limit: the decoded bytes, or the text of its
/// error.
pub uninterp spec fn lzma_stream(bytes: Seq<u8>, memory_limit: usize) -> core::result::Result<Seq<u8>, Seq<char>>;

/// Decodes a whole LZMA stream with `lzma_rs::lzma_decompress_with_options`
/// and a dictionary memory limit.
///
/// Trusted: the outcome is the name `lzma_stream` of the input and the
/// memory limit, the decoder being a function of them; nothing more is
/// claimed of the output, whose length the caller checks.
#[verifier::external_body]
fn decode_lzma_stream(bytes: &[u8], memory_limit: usize) -> (decoded: core::result::Result<Vec<u8>, String>)
    ensures
        match decoded {
            Ok(output) => lzma_stream(bytes@, memory_limit) == Ok::<Seq<u8>, Seq<char>>(output@),
            Err(message) => lzma_stream(bytes@, memory_limit) == Err::<Seq<u8>, Seq<char>>(message@),
        },
{
    let mut output = Vec::new();
    let options = lzma_rs::decompress::Options { memlimit: Some(memory_limit), ..lzma_rs::decompress::Options::default() };
    lzma_rs::lzma_decompress_with_options(&mut std::io::Cursor::new(bytes), &mut output, &options)
        .map(|()| output).map_err(|error| error.to_string())
}

/// `a!b`: the virtual path of a member `b` inside `a`.
pub open spec fn member_path(outer: Seq<char>, inner: Seq<char>) -> Seq<char> {
    outer + seq!['!'] + inner
}

fn member_text(outer: &str, inner: &str) -> (path: String)
    ensures
        path@ == member_path(outer@, inner@),
{
    let mut path = String::from_str(outer);
    path.append("!");
    path.append(inner);
    proof {
        reveal_strlit("!");
        assert(path@ =~= member_path(outer@, inner@));
    }
    path
}

/// The message of an expansion over its limit.
pub open spec fn exceeds_message(limit: u64) -> Seq<char> {
    seq!['e', 'x', 'p', 'a', 'n', 'd', 'e', 'd', ' ', 'c', 'o', 'n', 't', 'e', 'n', 't', ' ', 'e', 'x', 'c', 'e', 'e', 'd', 's', ' ', 't', 'h', 'e', ' ']
        + decimal_chars(limit as nat) + seq![' ', 'b', 'y', 't', 'e', ' ', 'l', 'i', 'm', 'i', 't']
}

fn exceeds_text(limit: u64) -> (message: String)
    ensures
        message@ == exceeds_message(limit),
{
    let mut message = String::from_str("expanded content exceeds the ");
    append_decimal(&mut message, limit);
    message.append(" byte limit");
    proof {
        reveal_strlit("expanded content exceeds the ");
        reveal_strlit(" byte limit");
        assert(message@ =~= exceeds_message(limit));
    }
    message
}

/// Applies the expansion limit to decoded bytes: a read failure is an I/O
/// error of `path`; more than `limit` bytes is an archive error.
pub fn read_limited(read: core::result::Result<Vec<u8>, ReadFailure>, limit: u64, path: &str) -> (content: Result<Vec<u8>>)
    ensures
        match read {
            Ok(bytes) => if bytes@.len() > limit {
                content matches Err(Error::Archive { path: p, message }) && p@ == path@ && message@ == exceeds_message(limit)
            } else {
                content == Ok::<Vec<u8>, Error>(bytes)
            },
            Err(ReadFailure::Read(message)) => content matches Err(Error::Io { path: p, message: m }) && p@ == path@ && m == message,
            Err(ReadFailure::Decoder(message)) => content matches Err(Error::Archive { path: p, message: m }) && p@ == path@ && m == message,
        },
{
    match read {
        Ok(bytes) => {
            if bytes.len() as u64 > limit {
                Err(Error::Archive { path: String::from_str(path), message: exceeds_text(limit) })
            } else {
                Ok(bytes)
            }
        }
        Err(ReadFailure::Read(message)) => Err(Error::Io { path: String::from_str(path), message }),
        Err(ReadFailure::Decoder(message)) => Err(Error::Archive { path: String::from_str(path), message }),
    }
}

fn archive_error(path: &str, message: &str) -> (error: Error)
    ensures
        error matches Error::Archive { path: p, message: m } && p@ == path@ && m@ == message@,
{
    Error::Archive { path: String::from_str(path), message: String::from_str(message) }
}

fn limit_error(path: &str, message: String) -> (error: Error)
    ensures
        error matches Error::Limit { path: p, message: m } && p@ == path@ && m == message,
{
    Error::Limit { path: String::from_str(path), message }
}

/// An XZ stream decoder.
#[verifier::external_type_specification]
#[verifier::external_body]
pub struct ExXzDecoder<'a>(xz4rust::XzDecoder<'a>);

/// `xz4rust::DICT_SIZE_MIN`.
///
/// Trusted: the constant is 4096, as its definition states.
#[verifier::external_body]
fn xz_dict_size_min() -> (size: usize)
    ensures
        size == 4096,
{
    xz4rust::DICT_SIZE_MIN
}

/// What one `XzDecoder::decode` call makes of `input` with `room` bytes of
/// output space, on a decoder with the minimum initial dictionary growing
/// up to `memory` bytes that was fed `history` (each earlier call's input
/// and room) since it was made or reset: the input bytes consumed, the
/// bytes produced, and whether the stream ended; or why it failed.
pub uninterp spec fn xz_decode_call(memory: usize, history: Seq<(Seq<u8>, usize)>, input: Seq<u8>, room: usize)
    -> core::result::Result<(usize, Seq<u8>, bool), Seq<char>>;

/// An XZ decoder, the memory limit it was made with, and what it was fed
/// since it was made or reset; only `decode_xz` makes one.
pub struct XzStream {
    decoder: Box<xz4rust::XzDecoder<'static>>,
    memory: Ghost<usize>,
    history: Ghost<Seq<(Seq<u8>, usize)>>,
}

impl XzStream {
    /// The memory limit of the decoder.
    pub closed spec fn memory(&self) -> usize {
        self.memory@
    }

    /// What the decoder was fed since it was made or reset.
    pub closed spec fn history(&self) -> Seq<(Seq<u8>, usize)> {
        self.history@
    }
}

/// A heap XZ decoder with the minimum initial dictionary, growing up to
/// `memory_limit` bytes, from `XzDecoder::in_heap_with_alloc_dict_size`.
#[verifier::external_body]
fn xz_decoder(memory_limit: usize) -> (decoder: Box<xz4rust::XzDecoder<'static>>) {
    xz4rust::XzDecoder::in_heap_with_alloc_dict_size(xz4rust::DICT_SIZE_MIN, memory_limit)
}

/// Decodes the next part of an XZ stream with `XzDecoder::decode` into
/// `buffer`: the input bytes consumed, the output bytes produced, and
/// whether the stream ended.
///
/// Trusted: the outcome is `xz_decode_call` of the decoder's memory limit
/// and history, the input and the buffer's length, the produced bytes
/// being the start of the buffer; the counts lie within the input and the
/// buffer, whose length is unchanged; the call joins the history.
#[verifier::external_body]
fn xz_step(stream: &mut XzStream, input: &[u8], buffer: &mut Vec<u8>) -> (step: core::result::Result<(usize, usize, bool), String>)
    ensures
        final(buffer)@.len() == old(buffer)@.len(),
        final(stream).memory() == old(stream).memory(),
        final(stream).history() == old(stream).history().push((input@, old(buffer).len())),
        match step {
            Ok(counts) => counts.0 <= input@.len() && counts.1 <= old(buffer)@.len()
                && xz_decode_call(old(stream).memory(), old(stream).history(), input@, old(buffer).len())
                    == Ok::<(usize, Seq<u8>, bool), Seq<char>>((counts.0, final(buffer)@.subrange(0, counts.1 as int), counts.2)),
            Err(message) => xz_decode_call(old(stream).memory(), old(stream).history(), input@, old(buffer).len())
                == Err::<(usize, Seq<u8>, bool), Seq<char>>(message@),
        },
{
    match stream.decoder.decode(input, buffer.as_mut_slice()) {
        Ok(xz4rust::XzNextBlockResult::NeedMoreData(consumed, produced)) => Ok((consumed, produced, false)),
        Ok(xz4rust::XzNextBlockResult::EndOfStream(consumed, produced)) => Ok((consumed, produced, true)),
        Err(error) => Err(error.to_string()),
    }
}

/// Resets an XZ decoder for the next concatenated stream with
/// `XzDecoder::reset`.
///
/// Trusted: a reset decoder decodes as a new one with the same memory
/// limit.
#[verifier::external_body]
fn xz_reset(stream: &mut XzStream)
    ensures
        final(stream).memory() == old(stream).memory(),
        final(stream).history() == Seq::<(Seq<u8>, usize)>::empty(),
{
    stream.decoder.reset();
}

/// The position of the first non-zero byte at or after `from`.
pub open spec fn padding_end(bytes: Seq<u8>, from: int) -> int
    decreases bytes.len() - from,
{
    if from < 0 || from >= bytes.len() || bytes[from] != 0 {
        from
    } else {
        padding_end(bytes, from + 1)
    }
}

/// `rest` starts with the XZ stream magic bytes.
pub open spec fn xz_magic(rest: Seq<u8>) -> bool {
    rest.len() >= 6 && rest[0] == 0xFDu8 && rest[1] == 0x37u8 && rest[2] == 0x7Au8 && rest[3] == 0x58u8
        && rest[4] == 0x5Au8 && rest[5] == 0u8
}

/// The message of the limit failure of XZ output over `limit` bytes.
pub open spec fn xz_exceeds_message(limit: int) -> Seq<char> {
    "expanded XZ content exceeds "@ + decimal_chars(limit as nat) + " bytes"@
}

/// What decoding concatenated XZ streams in `bytes` from `position` does,
/// having produced `output` so far with a decoder fed `history` since the
/// current stream began, each call offering 16 KiB of output space: the
/// output, or a failure (a limit failure when `true`) and its message.
/// A stream that ends is followed by zero padding in groups of four and
/// either the end of the input or the next stream's magic bytes. A call
/// that makes no progress fails, unless it ends a stream on a decoder
/// already fed; a fresh decoder that makes none would make none again.
pub open spec fn xz_run(bytes: Seq<u8>, position: int, output: Seq<u8>, history: Seq<(Seq<u8>, usize)>, limit: int, memory: usize)
    -> core::result::Result<Seq<u8>, (bool, Seq<char>)>
    decreases bytes.len() - position + limit - output.len(), if history.len() > 0 { 1int } else { 0int },
{
    let input = bytes.subrange(position, bytes.len() as int);
    if position < 0 || position > bytes.len() || output.len() > limit {
        Err((false, Seq::empty()))
    } else {
        match xz_decode_call(memory, history, input, 16384) {
            Err(message) => Err((false, message)),
            Ok((consumed, produced, end)) => {
                let next = position + consumed;
                if consumed > input.len() {
                    Err((false, Seq::empty()))
                } else if produced.len() > limit - output.len() {
                    Err((true, xz_exceeds_message(limit)))
                } else if consumed == 0 && produced.len() == 0 && (!end || history.len() == 0) {
                    Err((false, "XZ decoder made no progress"@))
                } else if !end {
                    if next >= bytes.len() {
                        Err((false, "truncated XZ stream"@))
                    } else {
                        xz_run(bytes, next, output + produced, history.push((input, 16384usize)), limit, memory)
                    }
                } else {
                    let resume = padding_end(bytes, next);
                    if (resume - next) % 4 != 0 {
                        Err((false, "XZ stream padding is not a multiple of four bytes"@))
                    } else if resume == bytes.len() {
                        Ok(output + produced)
                    } else if !xz_magic(bytes.subrange(resume, bytes.len() as int)) {
                        Err((false, "unexpected data after XZ stream"@))
                    } else {
                        proof {
                            lemma_padding_end(bytes, next);
                        }
                        xz_run(bytes, resume, output + produced, Seq::empty(), limit, memory)
                    }
                }
            },
        }
    }
}

/// Where zero padding that starts at `from` ends.
pub proof fn lemma_padding_end(bytes: Seq<u8>, from: int)
    requires
        0 <= from <= bytes.len(),
    ensures
        from <= padding_end(bytes, from) <= bytes.len(),
        padding_end(bytes, from) < bytes.len() ==> bytes[padding_end(bytes, from)] != 0,
    decreases bytes.len() - from,
{
    if from < bytes.len() && bytes[from] == 0 {
        lemma_padding_end(bytes, from + 1);
    }
}

/// The output limit of XZ decoding, as a machine size.
pub open spec fn xz_limit(output_limit: u64) -> int {
    if output_limit > usize::MAX { usize::MAX as int } else { output_limit as int }
}

/// Decodes concatenated XZ streams with their zero padding, producing at
/// most `output_limit` bytes.
pub fn decode_xz(bytes: &[u8], output_limit: u64, memory_limit: usize, path: &str) -> (decoded: Result<Vec<u8>>)
    ensures
        memory_limit < 4096 ==> (decoded matches Err(Error::Limit { path: p, message: m }) && p@ == path@
            && m@ == "XZ needs at least 4096 decoder bytes; configured "@ + decimal_chars(memory_limit as nat)),
        memory_limit >= 4096 ==> match xz_run(bytes@, 0, Seq::empty(), Seq::empty(), xz_limit(output_limit), memory_limit) {
            Ok(output) => decoded matches Ok(content) && content@ == output,
            Err((true, message)) => decoded matches Err(Error::Limit { path: p, message: m }) && p@ == path@ && m@ == message,
            Err((false, message)) => decoded matches Err(Error::Archive { path: p, message: m }) && p@ == path@ && m@ == message,
        },
        decoded matches Ok(output) ==> output@.len() <= output_limit,
        decoded matches Err(error) ==> (error matches Error::Archive { path: p, .. } && p@ == path@)
            || (error matches Error::Limit { path: p, .. } && p@ == path@),
{
    let minimum = xz_dict_size_min();
    if memory_limit < minimum {
        let mut message = String::from_str("XZ needs at least ");
        append_decimal(&mut message, minimum as u64);
        message.append(" decoder bytes; configured ");
        append_decimal(&mut message, memory_limit as u64);
        proof {
            reveal_strlit("XZ needs at least ");
            reveal_strlit(" decoder bytes; configured ");
            reveal_strlit("XZ needs at least 4096 decoder bytes; configured ");
            assert(decimal_chars(4nat) =~= seq!['4']);
            assert(decimal_chars(40nat) =~= seq!['4', '0']);
            assert(decimal_chars(409nat) =~= seq!['4', '0', '9']);
            assert(decimal_chars(4096nat) =~= seq!['4', '0', '9', '6']);
            assert(message@ =~= "XZ needs at least 4096 decoder bytes; configured "@ + decimal_chars(memory_limit as nat));
        }
        return Err(limit_error(path, message));
    }
    let limit: usize = if output_limit > usize::MAX as u64 { usize::MAX } else { output_limit as usize };
    let mut stream = XzStream { decoder: xz_decoder(memory_limit), memory: Ghost(memory_limit), history: Ghost(Seq::empty()) };
    let mut output: Vec<u8> = Vec::new();
    let mut buffer: Vec<u8> = vec![0u8; 16384];
    let mut input_position: usize = 0;
    let mut fresh = true;
    let ghost whole = xz_run(bytes@, 0, Seq::empty(), Seq::empty(), limit as int, memory_limit);
    proof {
        assert(output@ =~= Seq::<u8>::empty());
    }
    loop
        invariant
            input_position <= bytes@.len(),
            output@.len() <= limit,
            limit <= output_limit,
            limit as int == xz_limit(output_limit),
            buffer@.len() == 16384,
            memory_limit >= 4096,
            stream.memory() == memory_limit,
            fresh == (stream.history().len() == 0),
            whole == xz_run(bytes@, 0, Seq::empty(), Seq::empty(), limit as int, memory_limit),
            whole == xz_run(bytes@, input_position as int, output@, stream.history(), limit as int, memory_limit),
        decreases bytes@.len() - input_position + limit - output@.len(), if stream.history().len() > 0 { 1int } else { 0int },
    {
        let was_fresh = fresh;
        let ghost input = bytes@.subrange(input_position as int, bytes@.len() as int);
        let ghost history = stream.history();
        let ghost before = output@;
        let ghost position = input_position as int;
        let step = match xz_step(&mut stream, &bytes[input_position..bytes.len()], &mut buffer) {
            Ok(step) => step,
            Err(message) => {
                proof {
                    assert(whole == Err::<Seq<u8>, (bool, Seq<char>)>((false, message@)));
                }
                return Err(Error::Archive { path: String::from_str(path), message });
            }
        };
        fresh = false;
        let consumed = step.0;
        let produced = step.1;
        let end_of_stream = step.2;
        let ghost made = buffer@.subrange(0, produced as int);
        input_position = input_position + consumed;
        if produced > limit - output.len() {
            let mut message = String::from_str("expanded XZ content exceeds ");
            append_decimal(&mut message, limit as u64);
            message.append(" bytes");
            proof {
                reveal_strlit("expanded XZ content exceeds ");
                reveal_strlit(" bytes");
                assert(message@ =~= xz_exceeds_message(limit as int));
                assert(whole == Err::<Seq<u8>, (bool, Seq<char>)>((true, xz_exceeds_message(limit as int))));
            }
            return Err(limit_error(path, message));
        }
        crate::text::push_bytes(&mut output, &buffer.as_slice()[0..produced]);
        proof {
            assert(output@ == before + made);
        }
        if consumed == 0 && produced == 0 && (!end_of_stream || was_fresh) {
            proof {
                reveal_strlit("XZ decoder made no progress");
                assert(whole == Err::<Seq<u8>, (bool, Seq<char>)>((false, "XZ decoder made no progress"@)));
            }
            return Err(archive_error(path, "XZ decoder made no progress"));
        }
        if !end_of_stream {
            if input_position >= bytes.len() {
                proof {
                    reveal_strlit("truncated XZ stream");
                    assert(whole == Err::<Seq<u8>, (bool, Seq<char>)>((false, "truncated XZ stream"@)));
                }
                return Err(archive_error(path, "truncated XZ stream"));
            }
            proof {
                assert(stream.history() == history.push((input, 16384usize)));
            }
        } else {
            let padding_start = input_position;
            proof {
                lemma_padding_end(bytes@, padding_start as int);
            }
            while input_position < bytes.len() && bytes[input_position] == 0u8
                invariant
                    padding_start <= input_position <= bytes@.len(),
                    padding_end(bytes@, padding_start as int) == padding_end(bytes@, input_position as int),
                decreases bytes@.len() - input_position,
            {
                input_position = input_position + 1;
            }
            proof {
                assert(input_position as int == padding_end(bytes@, padding_start as int));
            }
            let padding = input_position - padding_start;
            if padding % 4 != 0 {
                proof {
                    reveal_strlit("XZ stream padding is not a multiple of four bytes");
                    assert(whole == Err::<Seq<u8>, (bool, Seq<char>)>((false, "XZ stream padding is not a multiple of four bytes"@)));
                }
                return Err(archive_error(path, "XZ stream padding is not a multiple of four bytes"));
            }
            if input_position == bytes.len() {
                proof {
                    assert(whole == Ok::<Seq<u8>, (bool, Seq<char>)>(output@));
                }
                return Ok(output);
            }
            let rest = &bytes[input_position..bytes.len()];
            let magic = rest.len() >= 6 && rest[0] == 0xFDu8 && rest[1] == 0x37u8 && rest[2] == 0x7Au8
                && rest[3] == 0x58u8 && rest[4] == 0x5Au8 && rest[5] == 0u8;
            if !magic {
                proof {
                    reveal_strlit("unexpected data after XZ stream");
                    assert(!xz_magic(bytes@.subrange(input_position as int, bytes@.len() as int)));
                    assert(whole == Err::<Seq<u8>, (bool, Seq<char>)>((false, "unexpected data after XZ stream"@)));
                }
                return Err(archive_error(path, "unexpected data after XZ stream"));
            }
            xz_reset(&mut stream);
            fresh = true;
            proof {
                assert(xz_magic(bytes@.subrange(input_position as int, bytes@.len() as int)));
            }
        }
    }
}

/// Decodes an LZMA stream, producing at most `output_limit` bytes.
pub fn decode_lzma(bytes: &[u8], output_limit: u64, memory_limit: usize, path: &str) -> (decoded: Result<Vec<u8>>)
    ensures
        match lzma_stream(bytes@, memory_limit) {
            Ok(output) => if output.len() > output_limit {
                decoded matches Err(Error::Archive { path: p, message: m }) && p@ == path@ && m@ == exceeds_message(output_limit)
            } else {
                decoded matches Ok(content) && content@ == output
            },
            Err(message) => decoded matches Err(Error::Archive { path: p, message: m }) && p@ == path@ && m@ == message,
        },
{
    match decode_lzma_stream(bytes, memory_limit) {
        Ok(output) => {
            if output.len() as u64 > output_limit {
                Err(Error::Archive { path: String::from_str(path), message: exceeds_text(output_limit) })
            } else {
                Ok(output)
            }
        }
        Err(message) => Err(Error::Archive { path: String::from_str(path), message }),
    }
}

/// A ZIP archive reader.
#[verifier::external_type_specification]
#[verifier::external_body]
#[verifier::reject_recursive_types(R)]
pub struct ExZipArchive<R>(zip::ZipArchive<R>);

/// An in-memory reader.
#[verifier::external_type_specification]
#[verifier::external_body]
#[verifier::reject_recursive_types(T)]
pub struct ExCursor<T>(std::io::Cursor<T>);

/// What the logic reads of one ZIP member's metadata.
pub struct ZipEntryView {
    pub is_dir: bool,
    pub name: Seq<char>,
    pub size: u64,
}

/// The member count of the ZIP archive in `bytes`, or why `zip` cannot
/// open it.
pub uninterp spec fn zip_opened(bytes: Seq<u8>) -> core::result::Result<usize, Seq<char>>;

/// The metadata of member `index` of the ZIP archive in `bytes`, or why
/// `zip` cannot read it.
pub uninterp spec fn zip_entry(bytes: Seq<u8>, index: usize) -> core::result::Result<ZipEntryView, Seq<char>>;

/// The first `limit + 1` decompressed bytes of member `index` of the ZIP
/// archive in `bytes`, or why reading them fails.
pub uninterp spec fn zip_content(bytes: Seq<u8>, index: usize, limit: u64) -> core::result::Result<Seq<u8>, Seq<char>>;

/// A ZIP archive and the bytes it was opened over; only `search_zip`
/// makes one, right after opening those bytes.
pub struct ZipReader<'a> {
    archive: zip::ZipArchive<std::io::Cursor<&'a [u8]>>,
    bytes: Ghost<Seq<u8>>,
}

impl<'a> ZipReader<'a> {
    /// The archive's bytes.
    pub closed spec fn source(&self) -> Seq<u8> {
        self.bytes@
    }
}

/// What the logic reads of one ZIP member.
pub struct ZipMember {
    /// Whether the member is a directory.
    pub is_dir: bool,
    /// Its `enclosed_name`, decoded lossily, when it has one.
    pub enclosed: Option<String>,
    /// Its name.
    pub name: String,
    /// Its uncompressed size.
    pub size: u64,
}

/// Opens a ZIP archive over `bytes` with `ZipArchive::new` and reads its
/// member count with `ZipArchive::len`.
///
/// Trusted: the outcome is `zip_opened` of the bytes.
#[verifier::external_body]
fn zip_open<'a>(bytes: &'a [u8]) -> (opened: core::result::Result<(zip::ZipArchive<std::io::Cursor<&'a [u8]>>, usize), String>)
    ensures
        match opened {
            Ok(archive) => zip_opened(bytes@) == Ok::<usize, Seq<char>>(archive.1),
            Err(message) => zip_opened(bytes@) == Err::<usize, Seq<char>>(message@),
        },
{
    zip::ZipArchive::new(std::io::Cursor::new(bytes)).map(|archive| {
        let count = archive.len();
        (archive, count)
    }).map_err(|error| error.to_string())
}

/// Reads the metadata of member `index` with `ZipArchive::by_index`: its
/// directory flag, `enclosed_name`, name (the raw name, decoded lossily,
/// where `name` fails) and size.
///
/// Trusted: the directory flag, name and size are `zip_entry` of the
/// archive's bytes; nothing is claimed of the enclosed name, which
/// `std::path` splits by the platform's rules.
#[verifier::external_body]
fn zip_member(reader: &mut ZipReader, index: usize) -> (member: core::result::Result<ZipMember, String>)
    ensures
        final(reader).source() == old(reader).source(),
        match member {
            Ok(found) => zip_entry(old(reader).source(), index) == Ok::<ZipEntryView, Seq<char>>(ZipEntryView {
                is_dir: found.is_dir,
                name: found.name@,
                size: found.size,
            }),
            Err(message) => zip_entry(old(reader).source(), index) == Err::<ZipEntryView, Seq<char>>(message@),
        },
{
    let entry = reader.archive.by_index(index).map_err(|error| error.to_string())?;
    Ok(ZipMember {
        is_dir: entry.is_dir(),
        enclosed: entry.enclosed_name().map(|name| name.to_string_lossy().into_owned()),
        name: match entry.name() {
            Ok(name) => name.into_owned(),
            Err(_) => String::from_utf8_lossy(entry.name_raw()).into_owned(),
        },
        size: entry.size(),
    })
}

/// Reads at most `limit + 1` bytes of member `index` with
/// `ZipArchive::by_index` and `Read::take`.
///
/// Trusted: the outcome is `zip_content` of the archive's bytes; at most
/// `limit + 1` bytes come back; every failure is a read failure.
#[verifier::external_body]
fn zip_read(reader: &mut ZipReader, index: usize, limit: u64) -> (read: core::result::Result<Vec<u8>, ReadFailure>)
    ensures
        final(reader).source() == old(reader).source(),
        match read {
            Ok(content) => content@.len() <= limit + 1
                && zip_content(old(reader).source(), index, limit) == Ok::<Seq<u8>, Seq<char>>(content@),
            Err(ReadFailure::Read(message)) => zip_content(old(reader).source(), index, limit) == Err::<Seq<u8>, Seq<char>>(message@),
            Err(ReadFailure::Decoder(_)) => false,
        },
{
    let entry = reader.archive.by_index(index).map_err(|error| ReadFailure::Read(error.to_string()))?;
    let mut content = Vec::new();
    entry.take(limit.saturating_add(1)).read_to_end(&mut content).map(|_| content).map_err(|error| ReadFailure::Read(error.to_string()))
}

/// What the logic reads of one TAR member.
pub struct TarMember {
    /// Whether the member is a regular file.
    pub is_file: bool,
    /// Its path, decoded lossily.
    pub path: String,
    /// Its size.
    pub size: u64,
    /// Where its data starts in the archive bytes.
    pub data_start: u64,
}

/// The mathematical form of a TAR member.
pub struct TarEntryView {
    pub is_file: bool,
    pub path: Seq<char>,
    pub size: u64,
    pub data_start: u64,
}

impl TarMember {
    /// The mathematical form of this member.
    pub open spec fn view(&self) -> TarEntryView {
        TarEntryView { is_file: self.is_file, path: self.path@, size: self.size, data_start: self.data_start }
    }
}

/// The view of one listed TAR member.
pub open spec fn listed_view(entry: core::result::Result<TarMember, String>) -> core::result::Result<TarEntryView, Seq<char>> {
    match entry {
        Ok(member) => Ok(member.view()),
        Err(message) => Err(message@),
    }
}

/// The first `count` members of the TAR archive in `bytes`, up to and
/// including the first that `tar` cannot read, or why `tar` cannot list
/// them at all.
pub uninterp spec fn tar_listing(bytes: Seq<u8>, count: usize) -> core::result::Result<Seq<core::result::Result<TarEntryView, Seq<char>>>, Seq<char>>;

/// Lists up to `count` members of a TAR archive over `bytes` with
/// `Archive::entries`, stopping after the first member that cannot be
/// read; each member's type, `path_bytes` decoded lossily, size and
/// `raw_file_position`.
///
/// Trusted: the listing is `tar_listing` of the arguments; no more than
/// `count` members are listed and only the last can be a failure, as the
/// loop over the entries shows.
#[verifier::external_body]
fn tar_members(bytes: &[u8], count: usize) -> (listed: core::result::Result<Vec<core::result::Result<TarMember, String>>, String>)
    ensures
        match listed {
            Ok(members) => tar_listing(bytes@, count) == Ok::<Seq<core::result::Result<TarEntryView, Seq<char>>>, Seq<char>>(
                members@.map_values(|entry: core::result::Result<TarMember, String>| listed_view(entry))),
            Err(message) => tar_listing(bytes@, count) == Err::<Seq<core::result::Result<TarEntryView, Seq<char>>>, Seq<char>>(message@),
        },
        listed matches Ok(members) ==> members@.len() <= count
            && forall|i: int| 0 <= i < members@.len() - 1 ==> #[trigger] members@[i] is Ok,
{
    let mut archive = tar::Archive::new(std::io::Cursor::new(bytes));
    let entries = archive.entries().map_err(|error| error.to_string())?;
    let mut members = Vec::new();
    for entry in entries.take(count) {
        let failed = entry.is_err();
        members.push(entry.map(|entry| TarMember {
            is_file: entry.header().entry_type().is_file(),
            path: String::from_utf8_lossy(&entry.path_bytes()).into_owned(),
            size: entry.size(),
            data_start: entry.raw_file_position(),
        }).map_err(|error| error.to_string()));
        if failed { break; }
    }
    Ok(members)
}

/// `after` is `before` with warning `w` offered: nothing else changes
/// but the count of dropped warnings, which grows when the retained
/// warnings were at their limit.
pub open spec fn warned_once(before: Collector, after: Collector, w: SearchWarning) -> bool {
    &&& only_warned(before, after, seq![w])
    &&& after.dropped_warning_count() == if before.warning_ranking().retained().len() == before.warning_ranking().limit() {
        before.dropped_warning_count().wrapping_add(1)
    } else {
        before.dropped_warning_count()
    }
}

/// `w` is the warning for a member of an archive at `outer` whose path is
/// unsafe; `format` names the archive format and `name` the member.
pub open spec fn is_unsafe_warning(w: SearchWarning, outer: Seq<char>, format: Seq<char>, name: Seq<char>) -> bool {
    &&& w.path@ == outer
    &&& w.kind == SearchWarningKind::Archive
    &&& w.message@ == "unsafe "@ + format + " member path was skipped: "@ + name
}

fn warn_limit(collector: &mut Collector, path: String, message: String)
    requires
        old(collector).wf(),
    ensures
        final(collector).wf(),
        final(collector).kept_setup(*old(collector)),
        warned_once(*old(collector), *final(collector), SearchWarning { path, kind: SearchWarningKind::Limit, message }),
{
    let warning = SearchWarning { path, kind: SearchWarningKind::Limit, message };
    let ghost w = warning;
    collector.warn(warning);
    proof {
        assert(collector.warning_ranking().offered() =~= old(collector).warning_ranking().offered() + seq![w]);
    }
}

fn warn_unsafe(collector: &mut Collector, outer: &str, format: &str, name: &str)
    requires
        old(collector).wf(),
    ensures
        final(collector).wf(),
        final(collector).kept_setup(*old(collector)),
        final(collector).warning_ranking().offered().len() == old(collector).warning_ranking().offered().len() + 1,
        warned_once(*old(collector), *final(collector), final(collector).warning_ranking().offered().last()),
        is_unsafe_warning(final(collector).warning_ranking().offered().last(), outer@, format@, name@),
{
    let mut message = String::from_str("unsafe ");
    message.append(format);
    message.append(" member path was skipped: ");
    message.append(name);
    let warning = SearchWarning { path: String::from_str(outer), kind: SearchWarningKind::Archive, message };
    let ghost w = warning;
    collector.warn(warning);
    proof {
        assert(collector.warning_ranking().offered().last() == w);
        assert(collector.warning_ranking().offered() =~= old(collector).warning_ranking().offered() + seq![w]);
    }
}

fn member_limit_message() -> (message: String)
    ensures
        message@ == "archive member exceeds configured expansion limits"@,
{
    String::from_str("archive member exceeds configured expansion limits")
}

/// Whether a member of `size` bytes is over the member limit or would take
/// the archive over its expansion budget.
pub open spec fn over_budget(size: u64, expanded: u64, options: SearchOptions) -> bool {
    size > options.archives.max_entry_bytes || crate::lines::sat_add(expanded, size as int) > options.archives.max_expanded_bytes
}

fn exceeds_budget(size: u64, expanded: u64, options: &SearchOptions) -> (over: bool)
    ensures
        over == over_budget(size, expanded, *options),
{
    size > options.archives.max_entry_bytes || expanded.saturating_add(size) > options.archives.max_expanded_bytes
}

/// What searching one expanded member of display path `path` under root
/// `root_index` does, as for any complete source handed over as an archive
/// member: an unknown encoding label fails and leaves the collector;
/// anything else is decoded, its warnings offered, its text searched unless
/// it is skipped as binary, and, in line mode outside quiet mode, its
/// matches counted.
pub open spec fn member_searched(
    result: Result<()>,
    before: Collector,
    after: Collector,
    root_index: usize,
    path: Seq<char>,
    content: Seq<u8>,
    query: CompiledQuery,
    options: SearchOptions,
) -> bool {
    &&& exists|given: SearchIdentity| given_identity(given, root_index, path, content.len(), true)
        && #[trigger] complete_outcome(before, after, result, given, content, query, options)
    &&& options.mode == SearchMode::Line && before.mode() != ResultMode::Quiet
        ==> counted(before, after, source_line_counts(content, options, query_matcher(query)))
}

/// What the walk over an archive's members meets at one member.
pub enum MemberStep {
    /// The member cannot be read: the walk fails with this message.
    Fail(Seq<char>),
    /// The member is not a regular file.
    Skip,
    /// A regular member: its name, its declared size, and its bytes or,
    /// where reading them fails, whether the decoder failed and why.
    Entry { name: Seq<char>, size: u64, read: core::result::Result<Seq<u8>, (bool, Seq<char>)> },
    /// More members remain than the entry limit allows.
    Truncated(Seq<char>),
}

/// `after` is `before` with one limit warning of `path` and `message`.
pub open spec fn limit_warned(before: Collector, after: Collector, path: Seq<char>, message: Seq<char>) -> bool {
    exists|w: SearchWarning| w.path@ == path && w.kind == SearchWarningKind::Limit && w.message@ == message
        && #[trigger] warned_once(before, after, w)
}

/// `after` is `before` with the warning that a member named `name` of the
/// `format` archive at `outer` has an unsafe path.
pub open spec fn unsafe_warned(before: Collector, after: Collector, outer: Seq<char>, format: Seq<char>, name: Seq<char>) -> bool {
    exists|w: SearchWarning| is_unsafe_warning(w, outer, format, name) && #[trigger] warned_once(before, after, w)
}

/// The message of the warning for a member over the expansion limits.
pub open spec fn member_limit_text() -> Seq<char> {
    "archive member exceeds configured expansion limits"@
}

/// The error of a failed member read at `path`.
pub open spec fn read_failed(result: Result<u64>, decoder: bool, path: Seq<char>, message: Seq<char>) -> bool {
    if decoder {
        result matches Err(Error::Archive { path: p, message: m }) && p@ == path && m@ == message
    } else {
        result matches Err(Error::Io { path: p, message: m }) && p@ == path && m@ == message
    }
}

/// What the walk records at one member: how the member's path splits into
/// `std::path` components, the collector after the member, and, for a
/// searched member, the search's outcome.
pub struct WalkStep {
    pub parts: Seq<PathPart>,
    pub collector: Collector,
    pub searched: Result<()>,
}

/// What walking `steps` of the `format` archive at `outer` does, having
/// expanded `expanded` bytes so far, with `trace` recording each member:
/// a member that cannot be read fails the walk; a non-file is skipped; a
/// member whose path components do not form a safe virtual path is warned
/// about; a member over the member limit or the expansion budget is warned
/// about; a member whose bytes cannot be read, or that holds more than the
/// member limit, fails the walk; any other member is searched at
/// `outer!inner` and its size counted, and a failed search ends the walk;
/// past the entry limit the walk warns and stops. The walk returns the
/// bytes searched.
pub open spec fn member_walk(
    steps: Seq<MemberStep>,
    trace: Seq<WalkStep>,
    format: Seq<char>,
    outer: Seq<char>,
    expanded: u64,
    before: Collector,
    after: Collector,
    result: Result<u64>,
    query: CompiledQuery,
    options: SearchOptions,
    root_index: usize,
) -> bool
    decreases steps.len(),
{
    if steps.len() == 0 {
        after == before && result == Ok::<u64, Error>(expanded)
    } else if trace.len() == 0 {
        false
    } else {
        let rest = steps.drop_first();
        let more = trace.drop_first();
        let mid = trace[0].collector;
        match steps[0] {
            MemberStep::Fail(message) => after == before
                && (result matches Err(Error::Archive { path: p, message: m }) && p@ == outer && m@ == message),
            MemberStep::Skip => member_walk(rest, more, format, outer, expanded, before, after, result, query, options, root_index),
            MemberStep::Truncated(message) => limit_warned(before, after, outer, message) && result == Ok::<u64, Error>(expanded),
            MemberStep::Entry { name, size, read } => (format == seq!['T', 'A', 'R'] && plain_name(name)
                ==> virtual_path(trace[0].parts) == Some(name)) && match virtual_path(trace[0].parts) {
                None => unsafe_warned(before, mid, outer, format, name)
                    && member_walk(rest, more, format, outer, expanded, mid, after, result, query, options, root_index),
                Some(inner) => {
                    let path = member_path(outer, inner);
                    if over_budget(size, expanded, options) {
                        limit_warned(before, mid, path, member_limit_text())
                            && member_walk(rest, more, format, outer, expanded, mid, after, result, query, options, root_index)
                    } else {
                        match read {
                            Err((decoder, message)) => after == before && read_failed(result, decoder, path, message),
                            Ok(content) => if content.len() > options.archives.max_entry_bytes {
                                after == before && (result matches Err(Error::Archive { path: p, message: m }) && p@ == path
                                    && m@ == exceeds_message(options.archives.max_entry_bytes))
                            } else if crate::lines::sat_add(expanded, content.len() as int) > options.archives.max_expanded_bytes {
                                limit_warned(before, mid, path, member_limit_text())
                                    && member_walk(rest, more, format, outer, expanded, mid, after, result, query, options, root_index)
                            } else {
                                &&& member_searched(trace[0].searched, before, mid, root_index, path, content, query, options)
                                &&& match trace[0].searched {
                                    Ok(_) => member_walk(rest, more, format, outer, crate::lines::sat_add(expanded, content.len() as int),
                                        mid, after, result, query, options, root_index),
                                    Err(error) => after == mid && result == Err::<u64, Error>(error),
                                }
                            },
                        }
                    }
                },
            },
        }
    }
}

/// The walk from member `k`, met with `this` recorded, unfolds into member
/// `k` and the walk from member `k + 1`.
proof fn lemma_walk_step(steps: Seq<MemberStep>, k: int, this: WalkStep, tail: Seq<WalkStep>)
    requires
        0 <= k < steps.len(),
    ensures
        steps.skip(k).len() > 0,
        steps.skip(k)[0] == steps[k],
        steps.skip(k).drop_first() == steps.skip(k + 1),
        (seq![this] + tail).len() > 0,
        (seq![this] + tail)[0] == this,
        (seq![this] + tail).drop_first() == tail,
{
    assert(steps.skip(k).drop_first() =~= steps.skip(k + 1));
    assert((seq![this] + tail).drop_first() =~= tail);
}

/// Recording one more member before the rest of a trace.
proof fn lemma_trace_push(trace: Seq<WalkStep>, this: WalkStep, tail: Seq<WalkStep>)
    ensures
        trace + (seq![this] + tail) == trace.push(this) + tail,
{
    assert(trace + (seq![this] + tail) =~= trace.push(this) + tail);
}

/// The data of a TAR member: `size` bytes from `start`, cut at the end of
/// the archive.
pub open spec fn tar_data(bytes: Seq<u8>, start: u64, size: u64) -> Seq<u8> {
    let from: int = if start > bytes.len() { bytes.len() as int } else { start as int };
    let to: int = if size > bytes.len() - from { bytes.len() as int } else { from + size };
    bytes.subrange(from, to)
}

/// What the walk meets at one listed TAR member.
pub open spec fn tar_step(entry: core::result::Result<TarEntryView, Seq<char>>, bytes: Seq<u8>) -> MemberStep {
    match entry {
        Err(message) => MemberStep::Fail(message),
        Ok(member) => if !member.is_file {
            MemberStep::Skip
        } else {
            MemberStep::Entry { name: member.path, size: member.size, read: Ok(tar_data(bytes, member.data_start, member.size)) }
        },
    }
}

/// The message of the warning for a TAR archive over the entry limit.
pub open spec fn tar_truncated_message(max: usize) -> Seq<char> {
    "archive entry count exceeds "@ + decimal_chars(max as nat) + "; remaining members were skipped"@
}

/// The walk over a TAR listing: its first `max` members, then a warning
/// when more were listed.
pub open spec fn tar_steps(listing: Seq<core::result::Result<TarEntryView, Seq<char>>>, max: usize, bytes: Seq<u8>) -> Seq<MemberStep> {
    let walked = Seq::new(if listing.len() < max { listing.len() } else { max as nat }, |i: int| tar_step(listing[i], bytes));
    if listing.len() > max {
        walked.push(MemberStep::Truncated(tar_truncated_message(max)))
    } else {
        walked
    }
}

/// What the walk meets at member `index` of a ZIP archive.
pub open spec fn zip_step(bytes: Seq<u8>, index: usize, limit: u64) -> MemberStep {
    match zip_entry(bytes, index) {
        Err(message) => MemberStep::Fail(message),
        Ok(member) => if member.is_dir {
            MemberStep::Skip
        } else {
            MemberStep::Entry {
                name: member.name,
                size: member.size,
                read: match zip_content(bytes, index, limit) {
                    Ok(content) => Ok(content),
                    Err(message) => Err((false, message)),
                },
            }
        },
    }
}

/// The walk over the first `count` members of a ZIP archive.
pub open spec fn zip_steps(bytes: Seq<u8>, count: usize, limit: u64) -> Seq<MemberStep> {
    Seq::new(count as nat, |i: int| zip_step(bytes, i as usize, limit))
}

/// The message of the warning for a ZIP archive over the entry limit.
pub open spec fn zip_truncated_message(total: usize, max: usize) -> Seq<char> {
    "archive has "@ + decimal_chars(total as nat) + " entries; only the first "@ + decimal_chars(max as nat) + " are searched"@
}

/// The entry count a TAR listing asks for: one more than the limit.
pub open spec fn tar_count(max: usize) -> usize {
    if max == usize::MAX { max } else { (max + 1) as usize }
}

/// The display path of the single file a compressed file at `outer`
/// expands to: the outer path without the first of `suffixes` it ends
/// with, or `content` when it ends with none.
pub open spec fn expanded_path(outer: Seq<char>, suffixes: Seq<&str>) -> Seq<char> {
    match first_suffix(encode_utf8(outer), strs_bytes(suffixes)) {
        Some(suffix) => member_path(outer, lossy_utf8(encode_utf8(outer).subrange(0, encode_utf8(outer).len() - suffix.len()))),
        None => member_path(outer, "content"@),
    }
}

/// The failures searching an archive at `outer` can report: a reader,
/// decoder or limit failure of the archive itself or of one of its members,
/// whose paths extend the archive's with `!`, or an unknown encoding label.
pub open spec fn archive_failure(error: Error, outer: Seq<char>, options: SearchOptions) -> bool {
    match error {
        Error::Archive { path, .. } => path@ == outer || (outer + seq!['!']).is_prefix_of(path@),
        Error::Io { path, .. } => path@ == outer || (outer + seq!['!']).is_prefix_of(path@),
        Error::Limit { path, .. } => path@ == outer || (outer + seq!['!']).is_prefix_of(path@),
        Error::InvalidEncoding(label) => options.encoding == EncodingMode::Label(label)
            && label_encoding_name(encode_utf8(label@)) is None,
        _ => false,
    }
}

/// A member's path extends the archive's with `!`.
proof fn lemma_member_prefix(outer: Seq<char>, inner: Seq<char>)
    ensures
        (outer + seq!['!']).is_prefix_of(member_path(outer, inner)),
{
    assert(member_path(outer, inner).subrange(0, (outer.len() + 1) as int) =~= outer + seq!['!']);
}

/// Searches one expanded member as a source of its own.
fn search_member(
    root_index: usize,
    path: String,
    content: &[u8],
    query: &CompiledQuery,
    cache: &mut QueryCache,
    options: &SearchOptions,
    collector: &mut Collector,
) -> (result: Result<()>)
    requires
        old(collector).wf(),
        cache_matches(query, old(cache)),
        query is Literal ==> query->Literal_0@.len() > 0,
    ensures
        final(collector).wf(),
        final(collector).kept_setup(*old(collector)),
        cache_matches(query, final(cache)),
        member_searched(result, *old(collector), *final(collector), root_index, path@, content@, *query, *options),
{
    let identity = SearchIdentity {
        root_index,
        path,
        source_bytes: content.len() as u64,
        encoding: String::new(),
        archive: true,
        source_offset_base: Some(0),
        lossy: false,
    };
    let ghost given = identity;
    let result = search_complete_bytes(identity, content, query, cache, options, collector);
    proof {
        assert(given_identity(given, root_index, path@, content@.len(), true));
        assert(complete_outcome(*old(collector), *collector, result, given, content@, *query, *options));
    }
    result
}

/// What a TAR search of `bytes` at `outer` under root `root_index` does: a
/// listing failure fails it and leaves the collector; otherwise it walks
/// the listing.
pub open spec fn tar_outcome(bytes: Seq<u8>, outer: Seq<char>, before: Collector, after: Collector, result: Result<u64>,
    query: CompiledQuery, options: SearchOptions, root_index: usize) -> bool {
    match tar_listing(bytes, tar_count(options.archives.max_entries)) {
        Err(message) => after == before
            && (result matches Err(Error::Archive { path: p, message: m }) && p@ == outer && m@ == message),
        Ok(listing) => exists|trace: Seq<WalkStep>| #[trigger] member_walk(tar_steps(listing, options.archives.max_entries, bytes),
            trace, "TAR"@, outer, 0, before, after, result, query, options, root_index),
    }
}

/// What a ZIP search of `bytes` at `outer` does: an archive `zip` cannot
/// open fails it and leaves the collector; otherwise it warns when the
/// archive has more members than the entry limit and walks the first ones.
pub open spec fn zip_outcome(bytes: Seq<u8>, outer: Seq<char>, before: Collector, after: Collector, result: Result<u64>,
    query: CompiledQuery, options: SearchOptions, root_index: usize) -> bool {
    match zip_opened(bytes) {
        Err(message) => after == before
            && (result matches Err(Error::Archive { path: p, message: m }) && p@ == outer && m@ == message),
        Ok(total) => exists|started: Collector, trace: Seq<WalkStep>|
            #![trigger zip_started(before, started, outer, total, options.archives.max_entries), member_walk(zip_steps(bytes, zip_walked(total, options.archives.max_entries), options.archives.max_entry_bytes), trace, "ZIP"@, outer, 0, started, after, result, query, options, root_index)]
            zip_started(before, started, outer, total, options.archives.max_entries)
            && member_walk(zip_steps(bytes, zip_walked(total, options.archives.max_entries), options.archives.max_entry_bytes), trace,
                "ZIP"@, outer, 0, started, after, result, query, options, root_index),
    }
}

/// How many members of a ZIP archive of `total` members are walked.
pub open spec fn zip_walked(total: usize, max: usize) -> usize {
    if total < max { total } else { max }
}

/// How a ZIP search starts: with one limit warning when the archive has
/// more members than the entry limit.
pub open spec fn zip_started(before: Collector, after: Collector, outer: Seq<char>, total: usize, max: usize) -> bool {
    if total > max {
        limit_warned(before, after, outer, zip_truncated_message(total, max))
    } else {
        after == before
    }
}

/// Searches the members of a ZIP archive within the member and expansion
/// limits; returns the member bytes searched.
pub fn search_zip(
    root_index: usize,
    outer_path: &str,
    bytes: &[u8],
    query: &CompiledQuery,
    cache: &mut QueryCache,
    options: &SearchOptions,
    collector: &mut Collector,
) -> (result: Result<u64>)
    requires
        old(collector).wf(),
        cache_matches(query, old(cache)),
        query is Literal ==> query->Literal_0@.len() > 0,
    ensures
        final(collector).wf(),
        final(collector).kept_setup(*old(collector)),
        cache_matches(query, final(cache)),
        result matches Ok(expanded) ==> expanded <= options.archives.max_expanded_bytes,
        result matches Err(error) ==> archive_failure(error, outer_path@, *options),
        zip_outcome(bytes@, outer_path@, *old(collector), *final(collector), result, *query, *options, root_index),
{
    let (archive, total) = match zip_open(bytes) {
        Ok(opened) => opened,
        Err(message) => {
            return Err(Error::Archive { path: String::from_str(outer_path), message });
        }
    };
    let mut reader = ZipReader { archive, bytes: Ghost(bytes@) };
    let max_entries = options.archives.max_entries;
    let entries = if total < max_entries { total } else { max_entries };
    if total > max_entries {
        let mut message = String::from_str("archive has ");
        append_decimal(&mut message, total as u64);
        message.append(" entries; only the first ");
        append_decimal(&mut message, max_entries as u64);
        message.append(" are searched");
        proof {
            reveal_strlit("archive has ");
            reveal_strlit(" entries; only the first ");
            reveal_strlit(" are searched");
            assert(message@ =~= zip_truncated_message(total, max_entries));
        }
        let outer_text = String::from_str(outer_path);
        let ghost w = SearchWarning { path: outer_text, kind: SearchWarningKind::Limit, message };
        let ghost before_warning = *collector;
        warn_limit(collector, outer_text, message);
        proof {
            assert(warned_once(before_warning, *collector, w));
        }
    }
    let ghost started = *collector;
    proof {
        assert(zip_started(*old(collector), started, outer_path@, total, max_entries));
    }
    let ghost limit = options.archives.max_entry_bytes;
    let ghost steps = zip_steps(bytes@, entries, limit);
    let ghost fmt = "ZIP"@;
    proof {
        reveal_strlit("ZIP");
        assert(fmt != seq!['T', 'A', 'R']);
    }
    let ghost mut trace: Seq<WalkStep> = Seq::empty();
    let mut expanded: u64 = 0;
    let mut index: usize = 0;
    proof {
        assert forall|tail: Seq<WalkStep>, a: Collector, r: Result<u64>| #[trigger] member_walk(steps.skip(0), tail, fmt,
            outer_path@, 0, started, a, r, *query, *options, root_index)
            implies member_walk(steps, trace + tail, fmt, outer_path@, 0, started, a, r, *query, *options, root_index) by {
            assert(steps.skip(0) =~= steps);
            assert(trace + tail =~= tail);
        }
    }
    while index < entries
        invariant
            collector.wf(),
            collector.kept_setup(*old(collector)),
            cache_matches(query, cache),
            query is Literal ==> query->Literal_0@.len() > 0,
            expanded <= options.archives.max_expanded_bytes,
            index <= entries,
            reader.source() == bytes@,
            limit == options.archives.max_entry_bytes,
            steps == zip_steps(bytes@, entries, limit),
            steps.len() == entries,
            fmt == "ZIP"@,
            fmt != seq!['T', 'A', 'R'],
            zip_started(*old(collector), started, outer_path@, total, max_entries),
            zip_opened(bytes@) == Ok::<usize, Seq<char>>(total),
            max_entries == options.archives.max_entries,
            entries == if total < max_entries { total } else { max_entries },
            forall|tail: Seq<WalkStep>, a: Collector, r: Result<u64>| #[trigger] member_walk(steps.skip(index as int), tail, fmt,
                outer_path@, expanded, *collector, a, r, *query, *options, root_index)
                ==> member_walk(steps, trace + tail, fmt, outer_path@, 0, started, a, r, *query, *options, root_index),
        decreases entries - index,
    {
        let ghost here = *collector;
        let ghost k = index as int;
        proof {
            assert(steps[k] == zip_step(bytes@, index, limit));
        }
        let member = match zip_member(&mut reader, index) {
            Ok(member) => member,
            Err(message) => {
                let result = Err(Error::Archive { path: String::from_str(outer_path), message });
                let ghost this = WalkStep { parts: Seq::empty(), collector: here, searched: Ok(()) };
                proof {
                    lemma_walk_step(steps, k, this, Seq::<WalkStep>::empty());
                    assert(member_walk(steps.skip(k), seq![this] + Seq::<WalkStep>::empty(), fmt, outer_path@, expanded, here, here, result,
                        *query, *options, root_index));
                    assert(member_walk(steps, trace + (seq![this] + Seq::<WalkStep>::empty()), fmt, outer_path@, 0, started, here, result,
                        *query, *options, root_index));
                    assert(member_walk(zip_steps(bytes@, zip_walked(total, options.archives.max_entries), options.archives.max_entry_bytes),
                        trace + (seq![this] + Seq::<WalkStep>::empty()), "ZIP"@, outer_path@, 0, started, here, result, *query, *options, root_index));
                    assert(zip_opened(bytes@)->Ok_0 == total);
                    assert(zip_started(*old(collector), started, outer_path@, total, options.archives.max_entries));
                    assert(zip_outcome(bytes@, outer_path@, *old(collector), here, result, *query, *options, root_index));
                }
                return result;
            }
        };
        let current = index;
        index = index + 1;
        if member.is_dir {
                let ghost this = WalkStep { parts: Seq::empty(), collector: here, searched: Ok(()) };
                proof {
                    assert forall|tail: Seq<WalkStep>, a: Collector, r: Result<u64>| #[trigger] member_walk(steps.skip(index as int), tail, fmt,
                        outer_path@, expanded, here, a, r, *query, *options, root_index)
                        implies member_walk(steps, trace.push(this) + tail, fmt, outer_path@, 0, started, a, r, *query, *options, root_index) by {
                        lemma_walk_step(steps, k, this, tail);
                        lemma_trace_push(trace, this, tail);
                        assert(member_walk(steps.skip(k), seq![this] + tail, fmt, outer_path@, expanded, here, a, r, *query, *options, root_index));
                    }
                    trace = trace.push(this);
                }
            continue;
        }
        let ghost name = member.name@;
        let ghost step_read: core::result::Result<Seq<u8>, (bool, Seq<char>)> = match zip_content(bytes@, current, limit) {
            Ok(content) => Ok(content),
            Err(message) => Err((false, message)),
        };
        proof {
            assert(steps[k] == MemberStep::Entry { name, size: member.size, read: step_read });
        }
        let parts = match &member.enclosed {
            Some(enclosed) => Some(path_parts(enclosed.as_str())),
            None => None,
        };
        let ghost split: Seq<PathPart> = if parts is Some { parts->Some_0@ } else { Seq::empty() };
        let safe = match &parts {
            Some(found) => safe_virtual_path(found),
            None => None,
        };
        proof {
            if parts is None {
                lemma_no_parts_unsafe();
            }
        }
        let inner = match safe {
            Some(inner) => inner,
            None => {
                warn_unsafe(collector, outer_path, "ZIP", member.name.as_str());
                let ghost now = *collector;
                proof {
                    assert(unsafe_warned(here, now, outer_path@, fmt, name));
                }
                let ghost this = WalkStep { parts: split, collector: now, searched: Ok(()) };
                proof {
                    assert forall|tail: Seq<WalkStep>, a: Collector, r: Result<u64>| #[trigger] member_walk(steps.skip(index as int), tail, fmt,
                        outer_path@, expanded, now, a, r, *query, *options, root_index)
                        implies member_walk(steps, trace.push(this) + tail, fmt, outer_path@, 0, started, a, r, *query, *options, root_index) by {
                        lemma_walk_step(steps, k, this, tail);
                        lemma_trace_push(trace, this, tail);
                        assert(member_walk(steps.skip(k), seq![this] + tail, fmt, outer_path@, expanded, here, a, r, *query, *options, root_index));
                    }
                    trace = trace.push(this);
                }
                continue;
            }
        };
        let member_at = member_text(outer_path, inner.as_str());
        let ghost named = member_at;
        proof {
            lemma_member_prefix(outer_path@, inner@);
            assert(virtual_path(split) == Some(inner@));
        }
        if exceeds_budget(member.size, expanded, options) {
            let message = member_limit_message();
            let ghost w = SearchWarning { path: member_at, kind: SearchWarningKind::Limit, message };
            warn_limit(collector, member_at, message);
            let ghost now = *collector;
            proof {
                assert(warned_once(here, now, w));
                assert(limit_warned(here, now, named@, member_limit_text()));
            }
                let ghost this = WalkStep { parts: split, collector: now, searched: Ok(()) };
                proof {
                    assert forall|tail: Seq<WalkStep>, a: Collector, r: Result<u64>| #[trigger] member_walk(steps.skip(index as int), tail, fmt,
                        outer_path@, expanded, now, a, r, *query, *options, root_index)
                        implies member_walk(steps, trace.push(this) + tail, fmt, outer_path@, 0, started, a, r, *query, *options, root_index) by {
                        lemma_walk_step(steps, k, this, tail);
                        lemma_trace_push(trace, this, tail);
                        assert(member_walk(steps.skip(k), seq![this] + tail, fmt, outer_path@, expanded, here, a, r, *query, *options, root_index));
                    }
                    trace = trace.push(this);
                }
            continue;
        }
        let read = zip_read(&mut reader, current, options.archives.max_entry_bytes);
        let content = match read_limited(read, options.archives.max_entry_bytes, member_at.as_str()) {
            Ok(content) => content,
            Err(error) => {
                let result = Err(error);
                let ghost this = WalkStep { parts: split, collector: here, searched: Ok(()) };
                proof {
                    lemma_walk_step(steps, k, this, Seq::<WalkStep>::empty());
                    assert(member_walk(steps.skip(k), seq![this] + Seq::<WalkStep>::empty(), fmt, outer_path@, expanded, here, here, result,
                        *query, *options, root_index));
                    assert(member_walk(steps, trace + (seq![this] + Seq::<WalkStep>::empty()), fmt, outer_path@, 0, started, here, result,
                        *query, *options, root_index));
                    assert(member_walk(zip_steps(bytes@, zip_walked(total, options.archives.max_entries), options.archives.max_entry_bytes),
                        trace + (seq![this] + Seq::<WalkStep>::empty()), "ZIP"@, outer_path@, 0, started, here, result, *query, *options, root_index));
                    assert(zip_opened(bytes@)->Ok_0 == total);
                    assert(zip_started(*old(collector), started, outer_path@, total, options.archives.max_entries));
                    assert(zip_outcome(bytes@, outer_path@, *old(collector), here, result, *query, *options, root_index));
                }
                return result;
            }
        };
        let next = expanded.saturating_add(content.len() as u64);
        if next > options.archives.max_expanded_bytes {
            let message = member_limit_message();
            let ghost w = SearchWarning { path: member_at, kind: SearchWarningKind::Limit, message };
            warn_limit(collector, member_at, message);
            let ghost now = *collector;
            proof {
                assert(warned_once(here, now, w));
                assert(limit_warned(here, now, named@, member_limit_text()));
            }
            let ghost this = WalkStep { parts: split, collector: now, searched: Ok(()) };
            proof {
                assert forall|tail: Seq<WalkStep>, a: Collector, r: Result<u64>| #[trigger] member_walk(steps.skip(index as int), tail, fmt,
                    outer_path@, expanded, now, a, r, *query, *options, root_index)
                    implies member_walk(steps, trace.push(this) + tail, fmt, outer_path@, 0, started, a, r, *query, *options, root_index) by {
                    lemma_walk_step(steps, k, this, tail);
                    lemma_trace_push(trace, this, tail);
                    assert(member_walk(steps.skip(k), seq![this] + tail, fmt, outer_path@, expanded, here, a, r, *query, *options, root_index));
                }
                trace = trace.push(this);
            }
            continue;
        }
        let ghost before_expanded = expanded;
        expanded = next;
        let searched = search_member(root_index, member_at, content.as_slice(), query, cache, options, collector);
        let ghost now = *collector;
        match searched {
            Ok(()) => {
                let ghost this = WalkStep { parts: split, collector: now, searched: searched };
                proof {
                    assert forall|tail: Seq<WalkStep>, a: Collector, r: Result<u64>| #[trigger] member_walk(steps.skip(index as int), tail, fmt,
                        outer_path@, expanded, now, a, r, *query, *options, root_index)
                        implies member_walk(steps, trace.push(this) + tail, fmt, outer_path@, 0, started, a, r, *query, *options, root_index) by {
                        lemma_walk_step(steps, k, this, tail);
                        lemma_trace_push(trace, this, tail);
                        assert(member_walk(steps.skip(k), seq![this] + tail, fmt, outer_path@, before_expanded, here, a, r, *query, *options, root_index));
                    }
                    trace = trace.push(this);
                }
            }
            Err(error) => {
                let result = Err(error);
                let ghost this = WalkStep { parts: split, collector: now, searched: searched };
                proof {
                    lemma_walk_step(steps, k, this, Seq::<WalkStep>::empty());
                    assert(member_walk(steps.skip(k), seq![this] + Seq::<WalkStep>::empty(), fmt, outer_path@, before_expanded, here, now, result,
                        *query, *options, root_index));
                    assert(member_walk(steps, trace + (seq![this] + Seq::<WalkStep>::empty()), fmt, outer_path@, 0, started, now, result,
                        *query, *options, root_index));
                    assert(member_walk(zip_steps(bytes@, zip_walked(total, options.archives.max_entries), options.archives.max_entry_bytes),
                        trace + (seq![this] + Seq::<WalkStep>::empty()), "ZIP"@, outer_path@, 0, started, now, result, *query, *options, root_index));
                    assert(zip_opened(bytes@)->Ok_0 == total);
                    assert(zip_started(*old(collector), started, outer_path@, total, options.archives.max_entries));
                    assert(zip_outcome(bytes@, outer_path@, *old(collector), now, result, *query, *options, root_index));
                }
                return result;
            }
        }
    }
    proof {
        assert(steps.skip(index as int) =~= Seq::<MemberStep>::empty());
        assert(member_walk(steps.skip(index as int), Seq::<WalkStep>::empty(), fmt, outer_path@, expanded, *collector, *collector,
            Ok::<u64, Error>(expanded), *query, *options, root_index));
        assert(member_walk(steps, trace + Seq::<WalkStep>::empty(), fmt, outer_path@, 0, started, *collector,
            Ok::<u64, Error>(expanded), *query, *options, root_index));
        assert(member_walk(zip_steps(bytes@, zip_walked(total, options.archives.max_entries), options.archives.max_entry_bytes),
            trace + Seq::<WalkStep>::empty(), "ZIP"@, outer_path@, 0, started, *collector, Ok::<u64, Error>(expanded), *query, *options, root_index));
        assert(zip_opened(bytes@)->Ok_0 == total);
        assert(zip_started(*old(collector), started, outer_path@, total, options.archives.max_entries));
        assert(zip_outcome(bytes@, outer_path@, *old(collector), *collector, Ok::<u64, Error>(expanded), *query, *options, root_index));
    }
    Ok(expanded)
}

/// A member without an enclosed name has no safe path.
proof fn lemma_no_parts_unsafe()
    ensures
        virtual_path(Seq::<PathPart>::empty()) is None,
{
    assert(normal_names(Seq::<PathPart>::empty()) == Some(Seq::<Seq<char>>::empty()));
}


/// Searches the members of a TAR archive held in `bytes` within the entry,
/// member and expansion limits; returns the member bytes searched.
pub fn search_tar(
    root_index: usize,
    outer_path: &str,
    bytes: &[u8],
    query: &CompiledQuery,
    cache: &mut QueryCache,
    options: &SearchOptions,
    collector: &mut Collector,
) -> (result: Result<u64>)
    requires
        old(collector).wf(),
        cache_matches(query, old(cache)),
        query is Literal ==> query->Literal_0@.len() > 0,
    ensures
        final(collector).wf(),
        final(collector).kept_setup(*old(collector)),
        cache_matches(query, final(cache)),
        result matches Ok(expanded) ==> expanded <= options.archives.max_expanded_bytes,
        result matches Err(error) ==> archive_failure(error, outer_path@, *options),
        tar_outcome(bytes@, outer_path@, *old(collector), *final(collector), result, *query, *options, root_index),
{
    let max_entries = options.archives.max_entries;
    let members = match tar_members(bytes, max_entries.saturating_add(1)) {
        Ok(members) => members,
        Err(message) => {
            return Err(Error::Archive { path: String::from_str(outer_path), message });
        }
    };
    let ghost listing = members@.map_values(|entry: core::result::Result<TarMember, String>| listed_view(entry));
    let ghost steps = tar_steps(listing, max_entries, bytes@);
    let ghost started = *collector;
    let ghost fmt = "TAR"@;
    proof {
        reveal_strlit("TAR");
        assert(fmt == seq!['T', 'A', 'R']);
    }
    let ghost mut trace: Seq<WalkStep> = Seq::empty();
    let mut expanded: u64 = 0;
    let mut index: usize = 0;
    proof {
        assert forall|tail: Seq<WalkStep>, a: Collector, r: Result<u64>| #[trigger] member_walk(steps.skip(0), tail, fmt,
            outer_path@, 0, started, a, r, *query, *options, root_index)
            implies member_walk(steps, trace + tail, fmt, outer_path@, 0, started, a, r, *query, *options, root_index) by {
            assert(steps.skip(0) =~= steps);
            assert(trace + tail =~= tail);
        }
    }
    while index < members.len()
        invariant
            collector.wf(),
            collector.kept_setup(*old(collector)),
            cache_matches(query, cache),
            query is Literal ==> query->Literal_0@.len() > 0,
            expanded <= options.archives.max_expanded_bytes,
            index <= members@.len(),
            index <= max_entries,
            max_entries == options.archives.max_entries,
            listing == members@.map_values(|entry: core::result::Result<TarMember, String>| listed_view(entry)),
            steps == tar_steps(listing, max_entries, bytes@),
            tar_listing(bytes@, tar_count(max_entries)) == Ok::<Seq<core::result::Result<TarEntryView, Seq<char>>>, Seq<char>>(listing),
            started == *old(collector),
            fmt == "TAR"@,
            fmt == seq!['T', 'A', 'R'],
            forall|tail: Seq<WalkStep>, a: Collector, r: Result<u64>| #[trigger] member_walk(steps.skip(index as int), tail, fmt,
                outer_path@, expanded, *collector, a, r, *query, *options, root_index)
                ==> member_walk(steps, trace + tail, fmt, outer_path@, 0, started, a, r, *query, *options, root_index),
        decreases members@.len() - index,
    {
        let ghost here = *collector;
        let ghost k = index as int;
        if index >= max_entries {
            let mut message = String::from_str("archive entry count exceeds ");
            append_decimal(&mut message, max_entries as u64);
            message.append("; remaining members were skipped");
            proof {
                reveal_strlit("archive entry count exceeds ");
                reveal_strlit("; remaining members were skipped");
                assert(message@ =~= tar_truncated_message(max_entries));
            }
            let outer_text = String::from_str(outer_path);
            let ghost w = SearchWarning { path: outer_text, kind: SearchWarningKind::Limit, message };
            warn_limit(collector, outer_text, message);
            let ghost now = *collector;
            proof {
                assert(steps.len() == max_entries + 1);
                assert(steps[k] == MemberStep::Truncated(tar_truncated_message(max_entries)));
                assert(warned_once(here, now, w));
            }
            let ghost this = WalkStep { parts: Seq::empty(), collector: now, searched: Ok(()) };
            proof {
                lemma_walk_step(steps, k, this, Seq::<WalkStep>::empty());
                assert(member_walk(steps.skip(k), seq![this] + Seq::<WalkStep>::empty(), fmt, outer_path@, expanded, here, now, Ok::<u64, Error>(expanded),
                    *query, *options, root_index));
                assert(member_walk(steps, trace + (seq![this] + Seq::<WalkStep>::empty()), fmt, outer_path@, 0, started, now, Ok::<u64, Error>(expanded),
                    *query, *options, root_index));
                assert(member_walk(tar_steps(listing, options.archives.max_entries, bytes@), trace + (seq![this] + Seq::<WalkStep>::empty()), "TAR"@, outer_path@, 0,
                    *old(collector), now, Ok::<u64, Error>(expanded), *query, *options, root_index));
                assert(tar_listing(bytes@, tar_count(options.archives.max_entries))->Ok_0 == listing);
                assert(tar_outcome(bytes@, outer_path@, *old(collector), now, Ok::<u64, Error>(expanded), *query, *options, root_index));
            }
            return Ok(expanded);
        }
        proof {
            assert(listing[k] == listed_view(members@[k]));
            assert(steps[k] == tar_step(listing[k], bytes@));
        }
        let member = match &members[index] {
            Ok(member) => member,
            Err(message) => {
                let result = Err(Error::Archive { path: String::from_str(outer_path), message: message.clone() });
                let ghost this = WalkStep { parts: Seq::empty(), collector: here, searched: Ok(()) };
                proof {
                    lemma_walk_step(steps, k, this, Seq::<WalkStep>::empty());
                    assert(member_walk(steps.skip(k), seq![this] + Seq::<WalkStep>::empty(), fmt, outer_path@, expanded, here, here, result,
                        *query, *options, root_index));
                    assert(member_walk(steps, trace + (seq![this] + Seq::<WalkStep>::empty()), fmt, outer_path@, 0, started, here, result,
                        *query, *options, root_index));
                    assert(member_walk(tar_steps(listing, options.archives.max_entries, bytes@), trace + (seq![this] + Seq::<WalkStep>::empty()), "TAR"@, outer_path@, 0,
                        *old(collector), here, result, *query, *options, root_index));
                    assert(tar_listing(bytes@, tar_count(options.archives.max_entries))->Ok_0 == listing);
                    assert(tar_outcome(bytes@, outer_path@, *old(collector), here, result, *query, *options, root_index));
                }
                return result;
            }
        };
        index = index + 1;
        if !member.is_file {
            let ghost this = WalkStep { parts: Seq::empty(), collector: here, searched: Ok(()) };
            proof {
                assert forall|tail: Seq<WalkStep>, a: Collector, r: Result<u64>| #[trigger] member_walk(steps.skip(index as int), tail, fmt,
                    outer_path@, expanded, here, a, r, *query, *options, root_index)
                    implies member_walk(steps, trace.push(this) + tail, fmt, outer_path@, 0, started, a, r, *query, *options, root_index) by {
                    lemma_walk_step(steps, k, this, tail);
                    lemma_trace_push(trace, this, tail);
                    assert(member_walk(steps.skip(k), seq![this] + tail, fmt, outer_path@, expanded, here, a, r, *query, *options, root_index));
                }
                trace = trace.push(this);
            }
            continue;
        }
        let ghost name = member.path@;
        let ghost step_read = Ok::<Seq<u8>, (bool, Seq<char>)>(tar_data(bytes@, member.data_start, member.size));
        proof {
            assert(steps[k] == MemberStep::Entry { name, size: member.size, read: step_read });
        }
        let parts = path_parts(member.path.as_str());
        let ghost split = parts@;
        proof {
            if plain_name(member.path@) {
                lemma_plain_virtual(split, member.path@);
            }
        }
        let inner = match safe_virtual_path(&parts) {
            Some(inner) => inner,
            None => {
                warn_unsafe(collector, outer_path, "TAR", member.path.as_str());
                let ghost now = *collector;
                proof {
                    assert(unsafe_warned(here, now, outer_path@, fmt, name));
                }
                let ghost this = WalkStep { parts: split, collector: now, searched: Ok(()) };
                proof {
                    assert forall|tail: Seq<WalkStep>, a: Collector, r: Result<u64>| #[trigger] member_walk(steps.skip(index as int), tail, fmt,
                        outer_path@, expanded, now, a, r, *query, *options, root_index)
                        implies member_walk(steps, trace.push(this) + tail, fmt, outer_path@, 0, started, a, r, *query, *options, root_index) by {
                        lemma_walk_step(steps, k, this, tail);
                        lemma_trace_push(trace, this, tail);
                        assert(member_walk(steps.skip(k), seq![this] + tail, fmt, outer_path@, expanded, here, a, r, *query, *options, root_index));
                    }
                    trace = trace.push(this);
                }
                continue;
            }
        };
        let member_at = member_text(outer_path, inner.as_str());
        let ghost named = member_at;
        proof {
            lemma_member_prefix(outer_path@, inner@);
            assert(virtual_path(split) == Some(inner@));
        }
        if exceeds_budget(member.size, expanded, options) {
            let message = member_limit_message();
            let ghost w = SearchWarning { path: member_at, kind: SearchWarningKind::Limit, message };
            warn_limit(collector, member_at, message);
            let ghost now = *collector;
            proof {
                assert(warned_once(here, now, w));
                assert(limit_warned(here, now, named@, member_limit_text()));
            }
            let ghost this = WalkStep { parts: split, collector: now, searched: Ok(()) };
            proof {
                assert forall|tail: Seq<WalkStep>, a: Collector, r: Result<u64>| #[trigger] member_walk(steps.skip(index as int), tail, fmt,
                    outer_path@, expanded, now, a, r, *query, *options, root_index)
                    implies member_walk(steps, trace.push(this) + tail, fmt, outer_path@, 0, started, a, r, *query, *options, root_index) by {
                    lemma_walk_step(steps, k, this, tail);
                    lemma_trace_push(trace, this, tail);
                    assert(member_walk(steps.skip(k), seq![this] + tail, fmt, outer_path@, expanded, here, a, r, *query, *options, root_index));
                }
                trace = trace.push(this);
            }
            continue;
        }
        let length = bytes.len();
        let start: usize = if member.data_start > length as u64 { length } else { member.data_start as usize };
        let end: usize = if member.size > (length - start) as u64 { length } else { start + member.size as usize };
        let content = &bytes[start..end];
        proof {
            assert(content@ == tar_data(bytes@, member.data_start, member.size));
        }
        let next = expanded.saturating_add(content.len() as u64);
        if next > options.archives.max_expanded_bytes {
            let message = member_limit_message();
            let ghost w = SearchWarning { path: member_at, kind: SearchWarningKind::Limit, message };
            warn_limit(collector, member_at, message);
            let ghost now = *collector;
            proof {
                assert(warned_once(here, now, w));
                assert(limit_warned(here, now, named@, member_limit_text()));
            }
            let ghost this = WalkStep { parts: split, collector: now, searched: Ok(()) };
            proof {
                assert forall|tail: Seq<WalkStep>, a: Collector, r: Result<u64>| #[trigger] member_walk(steps.skip(index as int), tail, fmt,
                    outer_path@, expanded, now, a, r, *query, *options, root_index)
                    implies member_walk(steps, trace.push(this) + tail, fmt, outer_path@, 0, started, a, r, *query, *options, root_index) by {
                    lemma_walk_step(steps, k, this, tail);
                    lemma_trace_push(trace, this, tail);
                    assert(member_walk(steps.skip(k), seq![this] + tail, fmt, outer_path@, expanded, here, a, r, *query, *options, root_index));
                }
                trace = trace.push(this);
            }
            continue;
        }
        let ghost before_expanded = expanded;
        expanded = next;
        let searched = search_member(root_index, member_at, content, query, cache, options, collector);
        let ghost now = *collector;
        match searched {
            Ok(()) => {
                let ghost this = WalkStep { parts: split, collector: now, searched: searched };
                proof {
                    assert forall|tail: Seq<WalkStep>, a: Collector, r: Result<u64>| #[trigger] member_walk(steps.skip(index as int), tail, fmt,
                        outer_path@, expanded, now, a, r, *query, *options, root_index)
                        implies member_walk(steps, trace.push(this) + tail, fmt, outer_path@, 0, started, a, r, *query, *options, root_index) by {
                        lemma_walk_step(steps, k, this, tail);
                        lemma_trace_push(trace, this, tail);
                        assert(member_walk(steps.skip(k), seq![this] + tail, fmt, outer_path@, before_expanded, here, a, r, *query, *options, root_index));
                    }
                    trace = trace.push(this);
                }
            }
            Err(error) => {
                let result = Err(error);
                let ghost this = WalkStep { parts: split, collector: now, searched: searched };
                proof {
                    lemma_walk_step(steps, k, this, Seq::<WalkStep>::empty());
                    assert(member_walk(steps.skip(k), seq![this] + Seq::<WalkStep>::empty(), fmt, outer_path@, before_expanded, here, now, result,
                        *query, *options, root_index));
                    assert(member_walk(steps, trace + (seq![this] + Seq::<WalkStep>::empty()), fmt, outer_path@, 0, started, now, result,
                        *query, *options, root_index));
                    assert(member_walk(tar_steps(listing, options.archives.max_entries, bytes@), trace + (seq![this] + Seq::<WalkStep>::empty()), "TAR"@, outer_path@, 0,
                        *old(collector), now, result, *query, *options, root_index));
                    assert(tar_listing(bytes@, tar_count(options.archives.max_entries))->Ok_0 == listing);
                    assert(tar_outcome(bytes@, outer_path@, *old(collector), now, result, *query, *options, root_index));
                }
                return result;
            }
        }
    }
    proof {
        assert(steps.skip(index as int) =~= Seq::<MemberStep>::empty());
        assert(member_walk(steps.skip(index as int), Seq::<WalkStep>::empty(), fmt, outer_path@, expanded, *collector, *collector,
            Ok::<u64, Error>(expanded), *query, *options, root_index));
        assert(member_walk(steps, trace + Seq::<WalkStep>::empty(), fmt, outer_path@, 0, started, *collector,
            Ok::<u64, Error>(expanded), *query, *options, root_index));
        assert(member_walk(tar_steps(listing, options.archives.max_entries, bytes@), trace + Seq::<WalkStep>::empty(), "TAR"@,
            outer_path@, 0, *old(collector), *collector, Ok::<u64, Error>(expanded), *query, *options, root_index));
        assert(tar_listing(bytes@, tar_count(options.archives.max_entries))->Ok_0 == listing);
        assert(tar_outcome(bytes@, outer_path@, *old(collector), *collector, Ok::<u64, Error>(expanded), *query, *options, root_index));
    }
    Ok(expanded)
}

/// Searches one decompressed file, named after the archive without its
/// compression suffix (or `content`).
fn search_expanded_file(
    root_index: usize,
    outer_path: &str,
    expanded: &[u8],
    suffixes: &[&str],
    query: &CompiledQuery,
    cache: &mut QueryCache,
    options: &SearchOptions,
    collector: &mut Collector,
) -> (result: Result<()>)
    requires
        old(collector).wf(),
        cache_matches(query, old(cache)),
        query is Literal ==> query->Literal_0@.len() > 0,
    ensures
        final(collector).wf(),
        final(collector).kept_setup(*old(collector)),
        cache_matches(query, final(cache)),
        member_searched(result, *old(collector), *final(collector), root_index, expanded_path(outer_path@, suffixes@), expanded@,
            *query, *options),
{
    let inner = match strip_suffix_ignore_ascii_case(outer_path, suffixes) {
        Some(stem) => stem,
        None => String::from_str("content"),
    };
    proof {
        reveal_strlit("content");
    }
    let path = member_text(outer_path, inner.as_str());
    let ghost name = path;
    let result = search_member(root_index, path, expanded, query, cache, options, collector);
    proof {
        assert(name@ == expanded_path(outer_path@, suffixes@));
    }
    result
}

/// The compressed single-file kinds whose decoder is one outside call.
pub open spec fn single_kind(kind: ArchiveKind) -> bool {
    kind == ArchiveKind::Gzip || kind == ArchiveKind::Bzip2 || kind == ArchiveKind::Zstd || kind == ArchiveKind::Lz4
        || kind == ArchiveKind::Lzma || kind == ArchiveKind::Brotli
}

/// What the decoder of a single-file kind makes of `bytes`, reading at
/// most `limit + 1` bytes: the bytes, or whether the failure is the
/// decoder's (an archive failure) rather than a read's, and its text.
pub open spec fn single_read(kind: ArchiveKind, bytes: Seq<u8>, limit: u64, memory: usize)
    -> core::result::Result<Seq<u8>, (bool, Seq<char>)> {
    match kind {
        ArchiveKind::Gzip => gzip_read(bytes, limit),
        ArchiveKind::Bzip2 => bzip2_read(bytes, limit),
        ArchiveKind::Zstd => zstd_read(bytes, limit),
        ArchiveKind::Lz4 => lz4_read(bytes, limit),
        ArchiveKind::Brotli => brotli_read(bytes, limit),
        _ => match lzma_stream(bytes, memory) {
            Ok(output) => Ok(output),
            Err(message) => Err((true, message)),
        },
    }
}

/// The compressed tar kinds whose decoder is one outside call.
pub open spec fn tar_kind(kind: ArchiveKind) -> bool {
    kind == ArchiveKind::TarGzip || kind == ArchiveKind::TarBzip2 || kind == ArchiveKind::TarZstd
        || kind == ArchiveKind::TarLz4 || kind == ArchiveKind::TarLzma || kind == ArchiveKind::TarBrotli
}

/// The single-file kind whose decoder a compressed tar kind uses.
pub open spec fn stream_kind(kind: ArchiveKind) -> ArchiveKind {
    match kind {
        ArchiveKind::TarGzip => ArchiveKind::Gzip,
        ArchiveKind::TarBzip2 => ArchiveKind::Bzip2,
        ArchiveKind::TarZstd => ArchiveKind::Zstd,
        ArchiveKind::TarLz4 => ArchiveKind::Lz4,
        ArchiveKind::TarBrotli => ArchiveKind::Brotli,
        _ => ArchiveKind::Lzma,
    }
}

/// The compression suffixes stripped from the name of a single
/// compressed file, in the order they are tried.
pub open spec fn kind_suffixes(kind: ArchiveKind) -> Seq<&'static str> {
    match kind {
        ArchiveKind::Gzip => seq![".gz"],
        ArchiveKind::Bzip2 => seq![".bz2", ".bz"],
        ArchiveKind::Zstd => seq![".zstd", ".zst"],
        ArchiveKind::Lz4 => seq![".lz4"],
        ArchiveKind::Lzma => seq![".lzma"],
        ArchiveKind::Xz => seq![".xz"],
        _ => seq![".br"],
    }
}

/// The outcome of a member walk, without the count of bytes searched.
pub open spec fn unit_outcome(walked: Result<u64>) -> Result<()> {
    match walked {
        Ok(_) => Ok(()),
        Err(error) => Err(error),
    }
}

/// What searching the archive of kind `kind` at `outer` under root
/// `root_index` does (see `search_archive`).
pub open spec fn archive_searched(
    kind: ArchiveKind,
    root_index: usize,
    outer: Seq<char>,
    bytes: Seq<u8>,
    before: Collector,
    after: Collector,
    result: Result<()>,
    query: CompiledQuery,
    options: SearchOptions,
) -> bool {
    &&& (result matches Err(error) ==> archive_failure(error, outer, options))
    &&& (kind == ArchiveKind::Xz || kind == ArchiveKind::TarXz) && options.archives.max_decoder_memory_bytes < 4096
        ==> (result matches Err(Error::Limit { .. }) && after == before)
    &&& single_kind(kind) ==> (match single_read(kind, bytes, options.archives.max_entry_bytes,
        options.archives.max_decoder_memory_bytes) {
        Ok(output) => if output.len() > options.archives.max_entry_bytes {
            (result matches Err(Error::Archive { path: p, message: m }) && p@ == outer
                && m@ == exceeds_message(options.archives.max_entry_bytes) && after == before)
        } else {
            member_searched(result, before, after, root_index, expanded_path(outer, kind_suffixes(kind)),
                output, query, options)
        },
        Err((true, message)) => (result matches Err(Error::Archive { path: p, message: m }) && p@ == outer && m@ == message && after == before),
        Err((false, message)) => (result matches Err(Error::Io { path: p, message: m }) && p@ == outer && m@ == message && after == before),
    })
    &&& tar_kind(kind) ==> (match single_read(stream_kind(kind), bytes, options.archives.max_expanded_bytes,
        options.archives.max_decoder_memory_bytes) {
        Ok(output) => if output.len() > options.archives.max_expanded_bytes {
            (result matches Err(Error::Archive { path: p, message: m }) && p@ == outer
                && m@ == exceeds_message(options.archives.max_expanded_bytes) && after == before)
        } else {
            exists|walked: Result<u64>| #[trigger] tar_outcome(output, outer, before, after, walked,
                query, options, root_index) && result == unit_outcome(walked)
        },
        Err((true, message)) => (result matches Err(Error::Archive { path: p, message: m }) && p@ == outer && m@ == message && after == before),
        Err((false, message)) => (result matches Err(Error::Io { path: p, message: m }) && p@ == outer && m@ == message && after == before),
    })
    &&& kind == ArchiveKind::Xz && options.archives.max_decoder_memory_bytes >= 4096 ==> match xz_run(bytes, 0, Seq::empty(),
        Seq::empty(), xz_limit(options.archives.max_entry_bytes), options.archives.max_decoder_memory_bytes) {
        Ok(output) => member_searched(result, before, after, root_index, expanded_path(outer, kind_suffixes(kind)),
            output, query, options),
        Err((true, message)) => (result matches Err(Error::Limit { path: p, message: m }) && p@ == outer && m@ == message && after == before),
        Err((false, message)) => (result matches Err(Error::Archive { path: p, message: m }) && p@ == outer && m@ == message && after == before),
    }
    &&& kind == ArchiveKind::TarXz && options.archives.max_decoder_memory_bytes >= 4096 ==> match xz_run(bytes, 0, Seq::empty(),
        Seq::empty(), xz_limit(options.archives.max_expanded_bytes), options.archives.max_decoder_memory_bytes) {
        Ok(output) => exists|walked: Result<u64>| #[trigger] tar_outcome(output, outer, before, after,
            walked, query, options, root_index) && result == unit_outcome(walked),
        Err((true, message)) => (result matches Err(Error::Limit { path: p, message: m }) && p@ == outer && m@ == message && after == before),
        Err((false, message)) => (result matches Err(Error::Archive { path: p, message: m }) && p@ == outer && m@ == message && after == before),
    }
    &&& kind == ArchiveKind::Zip ==> exists|walked: Result<u64>| #[trigger] zip_outcome(bytes, outer, before,
        after, walked, query, options, root_index) && result == unit_outcome(walked)
    &&& kind == ArchiveKind::Tar ==> exists|walked: Result<u64>| #[trigger] tar_outcome(bytes, outer, before,
        after, walked, query, options, root_index) && result == unit_outcome(walked)
}

/// One limit warning keeps every offered root.
proof fn lemma_limit_rooted(before: Collector, after: Collector, path: Seq<char>, message: Seq<char>, n: nat)
    requires
        limit_warned(before, after, path, message),
        rooted(before, n),
    ensures
        rooted(after, n),
{
    let w = choose|w: SearchWarning| w.path@ == path && w.kind == SearchWarningKind::Limit && w.message@ == message
        && #[trigger] warned_once(before, after, w);
}

/// Searching an expanded member under a root below `n` keeps every
/// offered root below `n`.
proof fn lemma_member_rooted(result: Result<()>, before: Collector, after: Collector, root_index: usize, path: Seq<char>,
    content: Seq<u8>, query: CompiledQuery, options: SearchOptions, n: nat)
    requires
        member_searched(result, before, after, root_index, path, content, query, options),
        rooted(before, n),
        root_index < n,
    ensures
        rooted(after, n),
{
    let given = choose|given: SearchIdentity| given_identity(given, root_index, path, content.len(), true)
        && #[trigger] complete_outcome(before, after, result, given, content, query, options);
    lemma_complete_rooted(before, after, result, given, content, query, options, n);
}

/// A walk over members under a root below `n` keeps every offered root
/// below `n`.
proof fn lemma_walk_rooted(steps: Seq<MemberStep>, trace: Seq<WalkStep>, format: Seq<char>, outer: Seq<char>, expanded: u64,
    before: Collector, after: Collector, result: Result<u64>, query: CompiledQuery, options: SearchOptions, root_index: usize,
    n: nat)
    requires
        member_walk(steps, trace, format, outer, expanded, before, after, result, query, options, root_index),
        rooted(before, n),
        root_index < n,
    ensures
        rooted(after, n),
    decreases steps.len(),
{
    if steps.len() > 0 && trace.len() > 0 {
        let rest = steps.drop_first();
        let more = trace.drop_first();
        let mid = trace[0].collector;
        match steps[0] {
            MemberStep::Fail(message) => {},
            MemberStep::Skip => {
                lemma_walk_rooted(rest, more, format, outer, expanded, before, after, result, query, options, root_index, n);
            },
            MemberStep::Truncated(message) => {
                lemma_limit_rooted(before, after, outer, message, n);
            },
            MemberStep::Entry { name, size, read } => {
                match virtual_path(trace[0].parts) {
                    None => {
                        let w = choose|w: SearchWarning| is_unsafe_warning(w, outer, format, name) && #[trigger] warned_once(before, mid, w);
                        lemma_walk_rooted(rest, more, format, outer, expanded, mid, after, result, query, options, root_index, n);
                    },
                    Some(inner) => {
                        let path = member_path(outer, inner);
                        if over_budget(size, expanded, options) {
                            lemma_limit_rooted(before, mid, path, member_limit_text(), n);
                            lemma_walk_rooted(rest, more, format, outer, expanded, mid, after, result, query, options, root_index, n);
                        } else if let Ok(content) = read {
                            if content.len() > options.archives.max_entry_bytes {
                            } else if crate::lines::sat_add(expanded, content.len() as int) > options.archives.max_expanded_bytes {
                                lemma_limit_rooted(before, mid, path, member_limit_text(), n);
                                lemma_walk_rooted(rest, more, format, outer, expanded, mid, after, result, query, options, root_index, n);
                            } else {
                                lemma_member_rooted(trace[0].searched, before, mid, root_index, path, content, query, options, n);
                                if trace[0].searched is Ok {
                                    lemma_walk_rooted(rest, more, format, outer, crate::lines::sat_add(expanded, content.len() as int),
                                        mid, after, result, query, options, root_index, n);
                                }
                            }
                        }
                    },
                }
            },
        }
    }
}

/// A TAR search under a root below `n` keeps every offered root below `n`.
proof fn lemma_tar_rooted(bytes: Seq<u8>, outer: Seq<char>, before: Collector, after: Collector, result: Result<u64>,
    query: CompiledQuery, options: SearchOptions, root_index: usize, n: nat)
    requires
        tar_outcome(bytes, outer, before, after, result, query, options, root_index),
        rooted(before, n),
        root_index < n,
    ensures
        rooted(after, n),
{
    if let Ok(listing) = tar_listing(bytes, tar_count(options.archives.max_entries)) {
        let trace = choose|trace: Seq<WalkStep>| #[trigger] member_walk(tar_steps(listing, options.archives.max_entries, bytes),
            trace, "TAR"@, outer, 0, before, after, result, query, options, root_index);
        lemma_walk_rooted(tar_steps(listing, options.archives.max_entries, bytes), trace, "TAR"@, outer, 0, before, after, result,
            query, options, root_index, n);
    }
}

/// Searching an archive under a root below `n` keeps every offered root
/// below `n`.
pub proof fn lemma_archive_rooted(kind: ArchiveKind, root_index: usize, outer: Seq<char>, bytes: Seq<u8>, before: Collector,
    after: Collector, result: Result<()>, query: CompiledQuery, options: SearchOptions, n: nat)
    requires
        archive_searched(kind, root_index, outer, bytes, before, after, result, query, options),
        rooted(before, n),
        root_index < n,
    ensures
        rooted(after, n),
{
    let memory = options.archives.max_decoder_memory_bytes;
    if single_kind(kind) {
        if let Ok(output) = single_read(kind, bytes, options.archives.max_entry_bytes, memory) {
            if output.len() <= options.archives.max_entry_bytes {
                lemma_member_rooted(result, before, after, root_index, expanded_path(outer, kind_suffixes(kind)), output, query,
                    options, n);
            }
        }
    } else if tar_kind(kind) {
        if let Ok(output) = single_read(stream_kind(kind), bytes, options.archives.max_expanded_bytes, memory) {
            if output.len() <= options.archives.max_expanded_bytes {
                let walked = choose|walked: Result<u64>| #[trigger] tar_outcome(output, outer, before, after, walked, query, options,
                    root_index) && result == unit_outcome(walked);
                lemma_tar_rooted(output, outer, before, after, walked, query, options, root_index, n);
            }
        }
    } else if kind == ArchiveKind::Xz {
        if memory >= 4096 {
            if let Ok(output) = xz_run(bytes, 0, Seq::empty(), Seq::empty(), xz_limit(options.archives.max_entry_bytes), memory) {
                lemma_member_rooted(result, before, after, root_index, expanded_path(outer, kind_suffixes(kind)), output, query,
                    options, n);
            }
        }
    } else if kind == ArchiveKind::TarXz {
        if memory >= 4096 {
            if let Ok(output) = xz_run(bytes, 0, Seq::empty(), Seq::empty(), xz_limit(options.archives.max_expanded_bytes), memory) {
                let walked = choose|walked: Result<u64>| #[trigger] tar_outcome(output, outer, before, after, walked, query, options,
                    root_index) && result == unit_outcome(walked);
                lemma_tar_rooted(output, outer, before, after, walked, query, options, root_index, n);
            }
        }
    } else if kind == ArchiveKind::Zip {
        let walked = choose|walked: Result<u64>| #[trigger] zip_outcome(bytes, outer, before, after, walked, query, options,
            root_index) && result == unit_outcome(walked);
        if let Ok(total) = zip_opened(bytes) {
            let steps = zip_steps(bytes, zip_walked(total, options.archives.max_entries), options.archives.max_entry_bytes);
            let (started, trace) = choose|started: Collector, trace: Seq<WalkStep>|
                #![trigger zip_started(before, started, outer, total, options.archives.max_entries), member_walk(steps, trace, "ZIP"@, outer, 0, started, after, walked, query, options, root_index)]
                zip_started(before, started, outer, total, options.archives.max_entries)
                && member_walk(steps, trace, "ZIP"@, outer, 0, started, after, walked, query, options, root_index);
            if total > options.archives.max_entries {
                lemma_limit_rooted(before, started, outer, zip_truncated_message(total, options.archives.max_entries), n);
            }
            lemma_walk_rooted(steps, trace, "ZIP"@, outer, 0, started, after, walked, query, options, root_index, n);
        }
    } else {
        let walked = choose|walked: Result<u64>| #[trigger] tar_outcome(bytes, outer, before, after, walked, query, options,
            root_index) && result == unit_outcome(walked);
        lemma_tar_rooted(bytes, outer, before, after, walked, query, options, root_index, n);
    }
}

/// Searches one archive or compressed file of a recognized kind. Tar
/// streams are expanded within the archive's expansion limit, single
/// compressed files within the member limit.
pub fn search_archive(
    kind: ArchiveKind,
    root_index: usize,
    outer_path: &str,
    bytes: &[u8],
    query: &CompiledQuery,
    cache: &mut QueryCache,
    options: &SearchOptions,
    collector: &mut Collector,
) -> (result: Result<()>)
    requires
        old(collector).wf(),
        cache_matches(query, old(cache)),
        query is Literal ==> query->Literal_0@.len() > 0,
    ensures
        final(collector).wf(),
        final(collector).kept_setup(*old(collector)),
        cache_matches(query, final(cache)),
        archive_searched(kind, root_index, outer_path@, bytes@, *old(collector), *final(collector), result, *query, *options),
{
    proof {
        reveal(ends_with_ignore_case);
    }
    let whole = options.archives.max_expanded_bytes;
    let single = options.archives.max_entry_bytes;
    let memory = options.archives.max_decoder_memory_bytes;
    let tar_expansion = match kind {
        ArchiveKind::TarGzip => Some(read_limited(read_gzip(bytes, whole), whole, outer_path)),
        ArchiveKind::TarBzip2 => Some(read_limited(read_bzip2(bytes, whole), whole, outer_path)),
        ArchiveKind::TarZstd => Some(read_limited(read_zstd(bytes, whole), whole, outer_path)),
        ArchiveKind::TarLz4 => Some(read_limited(read_lz4(bytes, whole), whole, outer_path)),
        ArchiveKind::TarLzma => Some(decode_lzma(bytes, whole, memory, outer_path)),
        ArchiveKind::TarXz => Some(decode_xz(bytes, whole, memory, outer_path)),
        ArchiveKind::TarBrotli => Some(read_limited(read_brotli(bytes, whole), whole, outer_path)),
        _ => None,
    };
    if let Some(expansion) = tar_expansion {
        return match expansion {
            Ok(expanded) => {
                let walked = search_tar(root_index, outer_path, expanded.as_slice(), query, cache, options, collector);
                let ghost recorded = walked;
                let result = match walked {
                    Ok(_) => Ok(()),
                    Err(error) => Err(error),
                };
                proof {
                    assert(result == unit_outcome(recorded));
                    if tar_kind(kind) {
                        assert(single_read(stream_kind(kind), bytes@, whole, memory)
                            == Ok::<Seq<u8>, (bool, Seq<char>)>(expanded@));
                        assert(tar_outcome(expanded@, outer_path@, *old(collector), *collector, recorded, *query, *options, root_index));
                    }
                    assert(tar_outcome(expanded@, outer_path@, *old(collector), *collector, recorded, *query, *options, root_index));
                }
                result
            },
            Err(error) => Err(error),
        };
    }
    let single_expansion = match kind {
        ArchiveKind::Gzip => Some(read_limited(read_gzip(bytes, single), single, outer_path)),
        ArchiveKind::Bzip2 => Some(read_limited(read_bzip2(bytes, single), single, outer_path)),
        ArchiveKind::Zstd => Some(read_limited(read_zstd(bytes, single), single, outer_path)),
        ArchiveKind::Lz4 => Some(read_limited(read_lz4(bytes, single), single, outer_path)),
        ArchiveKind::Lzma => Some(decode_lzma(bytes, single, memory, outer_path)),
        ArchiveKind::Xz => Some(decode_xz(bytes, single, memory, outer_path)),
        ArchiveKind::Brotli => Some(read_limited(read_brotli(bytes, single), single, outer_path)),
        _ => None,
    };
    if let Some(expansion) = single_expansion {
        let expanded = match expansion {
            Ok(expanded) => expanded,
            Err(error) => {
                return Err(error);
            }
        };
        let gz: [&str; 1] = [".gz"];
        let bz: [&str; 2] = [".bz2", ".bz"];
        let zst: [&str; 2] = [".zstd", ".zst"];
        let lz4: [&str; 1] = [".lz4"];
        let lzma: [&str; 1] = [".lzma"];
        let xz: [&str; 1] = [".xz"];
        let br: [&str; 1] = [".br"];
        let content = expanded.as_slice();
        proof {
            assert(gz@ =~= kind_suffixes(ArchiveKind::Gzip));
            assert(bz@ =~= kind_suffixes(ArchiveKind::Bzip2));
            assert(zst@ =~= kind_suffixes(ArchiveKind::Zstd));
            assert(lz4@ =~= kind_suffixes(ArchiveKind::Lz4));
            assert(lzma@ =~= kind_suffixes(ArchiveKind::Lzma));
            assert(xz@ =~= kind_suffixes(ArchiveKind::Xz));
            assert(br@ =~= kind_suffixes(ArchiveKind::Brotli));
        }
        return match kind {
            ArchiveKind::Gzip => search_expanded_file(root_index, outer_path, content, &gz, query, cache, options, collector),
            ArchiveKind::Bzip2 => search_expanded_file(root_index, outer_path, content, &bz, query, cache, options, collector),
            ArchiveKind::Zstd => search_expanded_file(root_index, outer_path, content, &zst, query, cache, options, collector),
            ArchiveKind::Lz4 => search_expanded_file(root_index, outer_path, content, &lz4, query, cache, options, collector),
            ArchiveKind::Lzma => search_expanded_file(root_index, outer_path, content, &lzma, query, cache, options, collector),
            ArchiveKind::Xz => search_expanded_file(root_index, outer_path, content, &xz, query, cache, options, collector),
            _ => search_expanded_file(root_index, outer_path, content, &br, query, cache, options, collector),
        };
    }
    let walked = match kind {
        ArchiveKind::Zip => search_zip(root_index, outer_path, bytes, query, cache, options, collector),
        _ => search_tar(root_index, outer_path, bytes, query, cache, options, collector),
    };
    let ghost recorded = walked;
    let result = match walked {
        Ok(_) => Ok(()),
        Err(error) => Err(error),
    };
    proof {
        assert(result == unit_outcome(recorded));
    }
    result
}

} // verus!

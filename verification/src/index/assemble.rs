//! Building a snapshot from the selected files of its roots.
use vstd::prelude::*;
use vstd::utf8::encode_utf8;
use core::cmp::Ordering;
use crate::error::{Error, Result};
use crate::index::codec::hex;
use crate::index::model::{built_entry, byte_strings, content_total, entry_models, key_before, model_wf, revision_bytes, EntryModel, IndexEntry, IndexModel, IndexOptions, PersistentIndex, MAX_ROOTS};
use crate::index::storage::entries_in_order;
use crate::index::order::{key_sorted, keys_distinct, lemma_distinct_permutation, lemma_sorted_strict};
use crate::index::changes::{content_weight, entries_total, weight_sum, lemma_content_total_monotone, lemma_total_is_sum, lemma_weight_permutation};
use crate::searcher::SourceFile;
use crate::text::{append_decimal, compare_bytes, decimal_chars, string_bytes};

verus! {

/// The order of two entries by root, then by path bytes.
fn entry_order(a: &IndexEntry, b: &IndexEntry) -> (order: Ordering)
    ensures
        order == Ordering::Less <==> key_before(a@, b@),
        order == Ordering::Greater <==> key_before(b@, a@),
{
    if a.root_index < b.root_index {
        return Ordering::Less;
    }
    if a.root_index > b.root_index {
        return Ordering::Greater;
    }
    let order = compare_bytes(string_bytes(&a.path), string_bytes(&b.path));
    proof {
        crate::text::lemma_bytes_lt_irreflexive(a@.path);
        crate::text::lemma_bytes_lt_asymmetric(a@.path, b@.path);
    }
    if order < 0 {
        Ordering::Less
    } else if order > 0 {
        Ordering::Greater
    } else {
        Ordering::Equal
    }
}

/// Sorts entries by key with `slice::sort_unstable_by`.
///
/// Trusted: the standard library sorts by the comparison, which orders by
/// root and then by path bytes and is total, so the result holds the same
/// entries with no entry sorting after a later one.
#[verifier::external_body]
pub(crate) fn sort_entries(entries: &mut Vec<IndexEntry>)
    ensures
        entry_models(final(entries)@).to_multiset() == entry_models(old(entries)@).to_multiset(),
        forall|i: int, j: int| 0 <= i < j < final(entries)@.len() ==> !key_before(final(entries)@[j]@, final(entries)@[i]@),
{
    entries.sort_unstable_by(|a, b| entry_order(a, b));
}

/// Content bytes of the first `n` sources.
pub open spec fn source_total(sources: Seq<SourceFile>, n: int) -> nat
    decreases n,
{
    if n <= 0 { 0 } else { source_total(sources, n - 1) + sources[n - 1].bytes@.len() }
}

/// The entries built from the first `n` sources, in source order.
pub open spec fn built_entries(sources: Seq<SourceFile>, n: int) -> Seq<EntryModel>
    decreases n,
{
    if n <= 0 {
        Seq::empty()
    } else {
        built_entries(sources, n - 1).push(built_entry(sources[n - 1].root_index, encode_utf8(sources[n - 1].path@),
            sources[n - 1].bytes@))
    }
}

/// The entries built from sources hold as many bytes as the sources, one
/// entry per source.
proof fn lemma_built_total(sources: Seq<SourceFile>, n: int)
    requires
        0 <= n <= sources.len(),
    ensures
        entries_total(built_entries(sources, n)) == source_total(sources, n),
        built_entries(sources, n).len() == n,
    decreases n,
{
    if n > 0 {
        lemma_built_total(sources, n - 1);
        let built = built_entries(sources, n);
        let entry = built_entry(sources[n - 1].root_index, encode_utf8(sources[n - 1].path@), sources[n - 1].bytes@);
        assert(built == built_entries(sources, n - 1).push(entry));
        assert(built.last() == entry);
        reveal(built_entry);
        assert(built.drop_last() =~= built_entries(sources, n - 1));
        assert(content_weight()(built.last()) == sources[n - 1].bytes@.len());
        assert(weight_sum(built, content_weight()) == weight_sum(built.drop_last(), content_weight())
            + content_weight()(built.last()));
    }
}

/// Sources that meet no fault stay within the entry and content limits.
proof fn lemma_no_fault_limits(sources: Seq<SourceFile>, root_count: int, options: IndexOptions, n: int)
    requires
        0 <= n,
        source_fault(sources, root_count, options, n) is None,
    ensures
        n <= options.max_entries,
        source_total(sources, n) <= options.max_content_bytes,
{
}

/// The first failure building from `sources` meets before sorting: an
/// unknown root, then the content limit, then the entry limit, source by
/// source.
pub open spec fn source_fault(sources: Seq<SourceFile>, root_count: int, options: IndexOptions, n: int) -> Option<int>
    decreases n,
{
    if n <= 0 {
        None
    } else if source_fault(sources, root_count, options, n - 1) is Some {
        source_fault(sources, root_count, options, n - 1)
    } else if sources[n - 1].root_index >= root_count
        || source_total(sources, n) > options.max_content_bytes
        || n > options.max_entries {
        Some(n - 1)
    } else {
        None
    }
}

/// What every built entry satisfies.
pub open spec fn entry_facts(e: EntryModel, root_count: int) -> bool {
    &&& e.root_index < root_count
    &&& e.hash.len() == 32
    &&& e.bloom.len() == crate::index::bloom::BLOOM_WORDS
    &&& vstd::utf8::valid_utf8(e.path)
    &&& e.content.len() <= usize::MAX
}

/// Whether the roots can form an index on `platform`.
pub open spec fn roots_usable(roots: Seq<Seq<u8>>, event_roots: Seq<Seq<u8>>, platform: u8) -> bool {
    &&& 1 <= roots.len() <= MAX_ROOTS
    &&& platform == 1 ==> forall|i: int| 0 <= i < roots.len() ==> (#[trigger] roots[i]).len() % 2 == 0
    &&& platform == 1 ==> forall|i: int| 0 <= i < event_roots.len() ==> (#[trigger] event_roots[i]).len() % 2 == 0
}

proof fn lemma_fault_stays(sources: Seq<SourceFile>, root_count: int, options: IndexOptions, at: int, n: int)
    requires
        0 <= at < n,
        source_fault(sources, root_count, options, at + 1) == Some(at),
    ensures
        source_fault(sources, root_count, options, n) == Some(at),
    decreases n,
{
    if n > at + 1 {
        lemma_fault_stays(sources, root_count, options, at, n - 1);
    }
}

fn odd_root(roots: &Vec<Vec<u8>>) -> (found: bool)
    ensures
        found == exists|i: int| 0 <= i < roots@.len() && (#[trigger] byte_strings(roots@)[i]).len() % 2 == 1,
{
    let ghost all = byte_strings(roots@);
    let mut i: usize = 0;
    while i < roots.len()
        invariant
            i <= roots@.len(),
            all == byte_strings(roots@),
            forall|k: int| 0 <= k < i ==> (#[trigger] all[k]).len() % 2 == 0,
        decreases roots@.len() - i,
    {
        if roots[i].len() % 2 == 1 {
            proof {
                assert(all[i as int] == roots@[i as int]@);
            }
            return true;
        }
        i = i + 1;
    }
    false
}

pub(crate) fn memory_error(message: String) -> (error: Error)
    ensures
        error == (Error::Index { path: error->Index_path, message }),
        error->Index_path@ == "<memory>"@,
{
    Error::Index { path: String::from_str("<memory>"), message }
}

/// Checks one source against the root count and the content and entry
/// limits, and builds its entry.
fn admit_source(source: SourceFile, root_count: usize, retained: u64, count: usize, options: &IndexOptions)
    -> (result: core::result::Result<(IndexEntry, u64), Error>)
    ensures
        match result {
            Ok((entry, next)) => {
                &&& source.root_index < root_count
                &&& retained + source.bytes@.len() <= options.max_content_bytes
                &&& count < options.max_entries
                &&& next == retained + source.bytes@.len()
                &&& entry@ == built_entry(source.root_index, encode_utf8(source.path@), source.bytes@)
                &&& entry_facts(entry@, root_count as int)
            },
            Err(error) => {
                &&& error matches Error::Index { path: p, .. } && p == source.path
                &&& source.root_index >= root_count || retained + source.bytes@.len() > options.max_content_bytes
                    || count >= options.max_entries
            },
        },
{
    let size = source.bytes.len() as u64;
    if source.root_index >= root_count {
        return Err(Error::Index { path: source.path, message: String::from_str("entry root index is out of range") });
    }
    if size > options.max_content_bytes || retained > options.max_content_bytes - size {
        let mut message = String::from_str("content exceeds ");
        append_decimal(&mut message, options.max_content_bytes);
        message.append(" bytes");
        return Err(Error::Index { path: source.path, message });
    }
    if count as u64 >= options.max_entries {
        let mut message = String::from_str("entry count exceeds ");
        append_decimal(&mut message, options.max_entries);
        return Err(Error::Index { path: source.path, message });
    }
    let entry = IndexEntry::from_parts(source.root_index, source.path, source.bytes);
    Ok((entry, retained + size))
}

/// Admits every source, taking them from the last, and builds their
/// entries.
pub(crate) fn admit_all(sources: Vec<SourceFile>, root_count: usize, options: &IndexOptions)
    -> (result: core::result::Result<(Vec<IndexEntry>, u64), Error>)
    ensures
        match result {
            Ok((entries, total)) => {
                &&& entry_models(entries@) == built_entries(sources@.reverse(), sources@.len() as int)
                &&& total == source_total(sources@.reverse(), sources@.len() as int)
                &&& source_fault(sources@.reverse(), root_count as int, *options, sources@.len() as int) is None
                &&& forall|k: int| 0 <= k < entries@.len() ==> entry_facts(#[trigger] entry_models(entries@)[k], root_count as int)
            },
            Err(error) => {
                &&& source_fault(sources@.reverse(), root_count as int, *options, sources@.len() as int) is Some
                &&& error matches Error::Index { path: p, .. } && p == sources@.reverse()[
                    source_fault(sources@.reverse(), root_count as int, *options, sources@.len() as int)->Some_0].path
            },
        },
{
    let ghost all = sources@;
    let ghost order = sources@.reverse();
    let mut entries: Vec<IndexEntry> = Vec::new();
    let mut retained: u64 = 0;
    let mut remaining = sources;
    let ghost mut i: int = 0;
    let ghost mut models: Seq<EntryModel> = Seq::empty();
    proof {
        assert(entry_models(entries@) =~= models);
        assert(remaining@ =~= all.subrange(0, all.len() as int));
    }
    while remaining.len() > 0
        invariant
            all == sources@,
            order == all.reverse(),
            0 <= i <= all.len(),
            remaining@ == all.subrange(0, all.len() - i),
            entry_models(entries@) == models,
            models == built_entries(order, i as int),
            retained == source_total(order, i as int),
            source_fault(order, root_count as int, *options, i as int) is None,
            entries@.len() == i,
            models.len() == i,
            forall|k: int| 0 <= k < i ==> entry_facts(#[trigger] models[k], root_count as int),
        decreases remaining@.len(),
    {
        let source = remaining.pop().unwrap();
        proof {
            assert(source == order[i as int]);
            assert(remaining@ =~= all.subrange(0, all.len() - i - 1));
        }
        let (entry, next) = match admit_source(source, root_count, retained, entries.len(), options) {
            Ok(admitted) => admitted,
            Err(error) => {
                proof {
                    assert(source_fault(order, root_count as int, *options, i + 1) == Some(i as int));
                    lemma_fault_stays(order, root_count as int, *options, i as int, order.len() as int);
                    assert(order == sources@.reverse());
                    assert(order.len() == sources@.len());
                }
                return Err(error);
            }
        };
        let ghost model = entry@;
        entries.push(entry);
        retained = next;
        proof {
            let source_i = order[i as int];
            assert(built_entries(order, i + 1) == built_entries(order, i as int).push(
                built_entry(source_i.root_index, encode_utf8(source_i.path@), source_i.bytes@)));
            assert(source_total(order, i + 1) == source_total(order, i as int) + source_i.bytes@.len());
            models = models.push(model);
            assert(entry_models(entries@) =~= models);
            i = i + 1;
        }
    }
    proof {
        assert(models =~= entry_models(entries@));
    }
    Ok((entries, retained))
}

impl PersistentIndex {
    /// Builds a snapshot from the selected files of `roots`, in any order;
    /// files are admitted from the last, so a limit is reported against the
    /// first file, counted from the end, that passes it. `event_roots` holds
    /// the absolute form of each root, for watcher events. Fails on an unusable policy, no roots or too many, a Windows
    /// root of odd length, a file of an unknown root, more content or files
    /// than the limits admit, or two files with one root and path.
    pub fn build_from_sources(
        roots: Vec<Vec<u8>>,
        event_roots: Vec<Vec<u8>>,
        sources: Vec<SourceFile>,
        options: IndexOptions,
        platform: u8,
    ) -> (result: Result<PersistentIndex>)
        requires
            event_roots@.len() == roots@.len(),
        ensures
            options.complaint() is Some ==> (result matches Err(Error::Index { path: p, message: m })
                && p@ == "<memory>"@ && m@ == options.complaint().unwrap()),
            options.complaint() is None && roots@.len() == 0 ==> (result matches Err(Error::Index { message: m, .. })
                && m@ == "at least one root is required"@),
            options.complaint() is None && roots@.len() > 4096 ==> (result matches Err(Error::Index { path: p, message: m })
                && p@ == "<memory>"@ && m@ == "root count "@ + decimal_chars(roots@.len() as nat) + " exceeds 4096"@),
            result is Ok ==> {
                &&& options.complaint() is None
                &&& roots_usable(byte_strings(roots@), byte_strings(event_roots@), platform)
                &&& source_fault(sources@.reverse(), roots@.len() as int, options, sources@.len() as int) is None
            },
            options.complaint() is None && roots_usable(byte_strings(roots@), byte_strings(event_roots@), platform)
                && source_fault(sources@.reverse(), roots@.len() as int, options, sources@.len() as int) is Some
                ==> (result matches Err(Error::Index { path: p, .. })
                    && p == sources@.reverse()[source_fault(sources@.reverse(), roots@.len() as int, options, sources@.len() as int)->Some_0].path),
            options.complaint() is None && roots_usable(byte_strings(roots@), byte_strings(event_roots@), platform)
                && source_fault(sources@.reverse(), roots@.len() as int, options, sources@.len() as int) is None
                ==> (result is Ok <==> keys_distinct(built_entries(sources@.reverse(), sources@.len() as int))
                    && entries_total(built_entries(sources@.reverse(), sources@.len() as int)) <= u64::MAX),
            options.complaint() is None && roots_usable(byte_strings(roots@), byte_strings(event_roots@), platform)
                && source_fault(sources@.reverse(), roots@.len() as int, options, sources@.len() as int) is None
                && !keys_distinct(built_entries(sources@.reverse(), sources@.len() as int))
                ==> (result matches Err(Error::Index { path: p, message: m }) && p@ == "<memory>"@
                    && m@ == "entries are not strictly ordered"@),
            result matches Ok(index) ==> {
                &&& index@.roots == byte_strings(roots@)
                &&& index@.event_roots == byte_strings(event_roots@)
                &&& index@.entries.to_multiset() == built_entries(sources@.reverse(), sources@.len() as int).to_multiset()
                &&& index.platform_id() == platform
                &&& index.policy() == options
            },
    {
        if let Err(error) = options.validate("<memory>") {
            return Err(error);
        }
        if roots.len() == 0 {
            return Err(memory_error(String::from_str("at least one root is required")));
        }
        if roots.len() > MAX_ROOTS {
            let mut message = String::from_str("root count ");
            append_decimal(&mut message, roots.len() as u64);
            message.append(" exceeds 4096");
            proof {
                reveal_strlit("root count ");
                reveal_strlit(" exceeds 4096");
                assert(message@ =~= "root count "@ + decimal_chars(roots@.len() as nat) + " exceeds 4096"@);
            }
            return Err(memory_error(message));
        }
        if platform == 1 && (odd_root(&roots) || odd_root(&event_roots)) {
            return Err(memory_error(String::from_str("Windows root path has an odd byte length")));
        }
        let ghost order = sources@.reverse();
        let (mut entries, retained) = match admit_all(sources, roots.len(), &options) {
            Ok(admitted) => admitted,
            Err(error) => {
                return Err(error);
            }
        };
        let ghost unsorted = entry_models(entries@);
        sort_entries(&mut entries);
        proof {
            let sorted = entry_models(entries@);
            assert(key_sorted(sorted)) by {
                assert forall|i: int, j: int| 0 <= i < j < sorted.len() implies !key_before(#[trigger] sorted[j], #[trigger] sorted[i]) by {
                    assert(sorted[i] == entries@[i]@ && sorted[j] == entries@[j]@);
                }
            }
            lemma_sorted_strict(sorted);
            if keys_distinct(unsorted) {
                lemma_distinct_permutation(unsorted, sorted);
            }
            if keys_distinct(sorted) {
                lemma_distinct_permutation(sorted, unsorted);
            }
            lemma_weight_permutation(sorted, unsorted, content_weight());
            lemma_total_is_sum(sorted);
        }
        if !entries_in_order(&entries) {
            return Err(memory_error(String::from_str("entries are not strictly ordered")));
        }
        let mut total: u64 = 0;
        let mut j: usize = 0;
        while j < entries.len()
            invariant
                options.complaint() is None,
                source_fault(order, roots@.len() as int, options, order.len() as int) is None,
                order == sources@.reverse(),
                forall|k: int| 0 <= k < unsorted.len() ==> entry_facts(#[trigger] unsorted[k], roots@.len() as int),
                1 <= roots@.len() <= MAX_ROOTS,
                j <= entries@.len(),
                total == content_total(entry_models(entries@), j as int),
                unsorted == built_entries(order, order.len() as int),
                keys_distinct(unsorted),
                content_total(entry_models(entries@), entries@.len() as int) == entries_total(unsorted),
            decreases entries@.len() - j,
        {
            let size = entries[j].content.len() as u64;
            proof {
                assert(entry_models(entries@)[j as int] == entries@[j as int]@);
                lemma_content_total_monotone(entry_models(entries@), j + 1, entries@.len() as int);
            }
            if size > u64::MAX - total {
                return Err(memory_error(String::from_str("content byte count overflow")));
            }
            total = total + size;
            j = j + 1;
        }
        let digest = revision_bytes(&roots, &entries);
        let revision = hex(digest.as_slice());
        proof {
            let sorted = entry_models(entries@);
            assert forall|k: int| 0 <= k < sorted.len() implies entry_facts(#[trigger] sorted[k], roots@.len() as int) by {
                broadcast use vstd::seq_lib::group_to_multiset_ensures;
                assert(sorted.contains(sorted[k]));
                assert(sorted.to_multiset().count(sorted[k]) > 0);
                assert(unsorted.to_multiset().count(sorted[k]) > 0);
                assert(unsorted.contains(sorted[k]));
                let w = choose|w: int| 0 <= w < unsorted.len() && unsorted[w] == sorted[k];
                assert(entry_facts(unsorted[w], roots@.len() as int));
            }
            let m = IndexModel {
                roots: byte_strings(roots@),
                event_roots: byte_strings(event_roots@),
                entries: sorted,
                content_bytes: total,
            };
            assert(model_wf(m, platform));
            lemma_built_total(order, order.len() as int);
            lemma_no_fault_limits(order, roots@.len() as int, options, order.len() as int);
            sorted.to_multiset_ensures();
            unsorted.to_multiset_ensures();
            assert(sorted.len() == unsorted.len());
        }
        Ok(PersistentIndex::from_checked(roots, event_roots, entries, revision, total, options, platform))
    }
}

} // verus!

//! Searching a snapshot: trigram prefiltering of literal queries and
//! verification of the candidate files.
use vstd::prelude::*;
use vstd::utf8::encode_utf8;
use crate::collector::{fresh_collector, lemma_retained_rooted, rooted, Collector};
use crate::archive::kind_of;
use crate::encoding::{counted, decode_with_bom_removal, decoded, source_line_counts, utf16le_encoding, utf16le_name};
use crate::error::{Error, Result};
use crate::index::bloom::{bloom_contains, bloom_of, holds, lemma_bloom_holds_occurrence, trigram_at, BLOOM_WORDS};
use crate::index::model::{entry_models, model_wf, EntryModel, IndexEntry, IndexModel, PersistentIndex};
use crate::line_search::counters;
use crate::options::{EncodingMode, FileEvidenceMode, ResultMode, SearchMode, SearchOptions};
use crate::query::{cache_matches, occurs_at, patterns_view, prepared, query_matcher, CompiledQuery, PreparedPattern, QueryCache, SearchQuery, SpecMatcher};
use crate::report::{IndexEvidence, SearchBackend, SearchReport};
use crate::searcher::{build_report, lemma_step_rooted, prepare_query, query_usable, regex_refused, report_bounds, report_of, report_rooted, search_matcher, search_one, setup_failure, source_step};
use crate::text::{lossy_string, lossy_utf8, string_bytes};

verus! {

/// The trigrams of `bytes`, in order.
pub open spec fn trigrams_of(bytes: Seq<u8>) -> Seq<u32> {
    Seq::new(if bytes.len() < 3 { 0 } else { (bytes.len() - 2) as nat }, |k: int| trigram_at(bytes, k))
}

/// The literals a query reduces to when every prepared pattern is a
/// case-sensitive literal of at least three bytes; otherwise `None`, and
/// no prefilter applies.
pub open spec fn literal_alternatives(query: SearchQuery, options: SearchOptions) -> Option<Seq<Seq<u8>>> {
    match prepared(query, options.case) {
        Some(found) => if found.len() > 0 && forall|i: int| 0 <= i < found.len() ==> {
            &&& (#[trigger] found[i]) is SensitiveLiteral
            &&& encode_utf8(found[i]->SensitiveLiteral_0).len() >= 3
        } {
            Some(Seq::new(found.len(), |i: int| encode_utf8(found[i]->SensitiveLiteral_0)))
        } else {
            None
        },
        None => None,
    }
}

/// The prefilter a search applies: the trigrams of each literal
/// alternative, unless every file's evidence is wanted or the encoding is
/// not UTF-8.
pub open spec fn prefilter(query: SearchQuery, options: SearchOptions) -> Option<Seq<Seq<u32>>> {
    if options.file_evidence == FileEvidenceMode::All {
        None
    } else if !(options.encoding is Auto || options.encoding is Utf8) {
        None
    } else {
        match literal_alternatives(query, options) {
            Some(literals) => Some(literals.map_values(|l: Seq<u8>| trigrams_of(l))),
            None => None,
        }
    }
}

/// Whether a file may hold a match: files that are not prefilterable
/// always may; others when their filter holds every trigram of one
/// alternative.
pub open spec fn may_match(entry: EntryModel, alternatives: Seq<Seq<u32>>) -> bool {
    !entry.prefilterable || exists|i: int| 0 <= i < alternatives.len() && #[trigger] all_held(entry.bloom, alternatives[i])
}

/// Whether the filter holds every trigram of the list.
pub open spec fn all_held(bloom: Seq<u64>, trigrams: Seq<u32>) -> bool {
    forall|k: int| 0 <= k < trigrams.len() ==> holds(bloom, #[trigger] trigrams[k])
}

/// The trigrams of `bytes`.
pub fn trigrams(bytes: &[u8]) -> (found: Vec<u32>)
    ensures
        found@ == trigrams_of(bytes@),
{
    let mut found: Vec<u32> = Vec::new();
    let count: usize = if bytes.len() < 3 { 0 } else { bytes.len() - 2 };
    let mut i: usize = 0;
    while i < count
        invariant
            i <= count,
            count == (if bytes@.len() < 3 { 0 } else { bytes@.len() - 2 }),
            found@ == trigrams_of(bytes@).subrange(0, i as int),
        decreases count - i,
    {
        let trigram = ((bytes[i] as u32) << 16u32) | ((bytes[i + 1] as u32) << 8u32) | (bytes[i + 2] as u32);
        found.push(trigram);
        i = i + 1;
        proof {
            assert(found@ =~= trigrams_of(bytes@).subrange(0, i as int));
        }
    }
    proof {
        assert(trigrams_of(bytes@).subrange(0, count as int) =~= trigrams_of(bytes@));
    }
    found
}

/// The trigram lists of a query's literal alternatives, when it reduces
/// to case-sensitive literals of at least three bytes.
pub fn prefilter_trigrams(query: &SearchQuery, options: &SearchOptions) -> (alternatives: Option<Vec<Vec<u32>>>)
    ensures
        match literal_alternatives(*query, *options) {
            Some(literals) => alternatives matches Some(lists) && lists@.len() == literals.len()
                && forall|i: int| 0 <= i < literals.len() ==> (#[trigger] lists@[i])@ == trigrams_of(literals[i]),
            None => alternatives is None,
        },
{
    let mut patterns: Vec<PreparedPattern> = Vec::new();
    if query.collect_patterns(options.case, &mut patterns).is_err() {
        return None;
    }
    let ghost found = patterns_view(patterns@);
    proof {
        assert(found =~= prepared(*query, options.case).unwrap());
    }
    if patterns.len() == 0 {
        return None;
    }
    let mut lists: Vec<Vec<u32>> = Vec::new();
    let mut i: usize = 0;
    while i < patterns.len()
        invariant
            i <= patterns@.len(),
            found == patterns_view(patterns@),
            found == prepared(*query, options.case).unwrap(),
            prepared(*query, options.case) is Some,
            found.len() > 0,
            lists@.len() == i,
            forall|k: int| 0 <= k < i ==> {
                &&& (#[trigger] found[k]) is SensitiveLiteral
                &&& encode_utf8(found[k]->SensitiveLiteral_0).len() >= 3
                &&& lists@[k]@ == trigrams_of(encode_utf8(found[k]->SensitiveLiteral_0))
            },
        decreases patterns@.len() - i,
    {
        match &patterns[i] {
            PreparedPattern::SensitiveLiteral(text) => {
                let bytes = string_bytes(text);
                if bytes.len() < 3 {
                    proof {
                        assert(found[i as int] == patterns@[i as int].view());
                    }
                    return None;
                }
                lists.push(trigrams(bytes));
                proof {
                    assert(found[i as int] == patterns@[i as int].view());
                }
            }
            PreparedPattern::Regex(_) => {
                proof {
                    assert(found[i as int] == patterns@[i as int].view());
                }
                return None;
            }
        }
        i = i + 1;
    }
    Some(lists)
}

/// Whether an entry may hold a match of one of the alternatives.
pub fn entry_may_match(entry: &IndexEntry, alternatives: &Vec<Vec<u32>>) -> (possible: bool)
    requires
        entry@.bloom.len() == BLOOM_WORDS,
    ensures
        possible == may_match(entry@, alternatives@.map_values(|l: Vec<u32>| l@)),
{
    let ghost lists = alternatives@.map_values(|l: Vec<u32>| l@);
    if !entry.prefilterable {
        return true;
    }
    let mut i: usize = 0;
    while i < alternatives.len()
        invariant
            i <= alternatives@.len(),
            entry.prefilterable,
            entry@.bloom.len() == BLOOM_WORDS,
            lists == alternatives@.map_values(|l: Vec<u32>| l@),
            forall|a: int| 0 <= a < i ==> !all_held(entry@.bloom, #[trigger] lists[a]),
        decreases alternatives@.len() - i,
    {
        let trigrams = &alternatives[i];
        let mut all = true;
        proof {
            assert(lists[i as int] == trigrams@);
        }
        let mut k: usize = 0;
        while k < trigrams.len()
            invariant_except_break
                all,
            invariant
                k <= trigrams@.len(),
                entry@.bloom.len() == BLOOM_WORDS,
                forall|j: int| 0 <= j < k ==> holds(entry@.bloom, #[trigger] trigrams@[j]),
            ensures
                all ==> forall|j: int| 0 <= j < trigrams@.len() ==> holds(entry@.bloom, #[trigger] trigrams@[j]),
                !all ==> exists|j: int| 0 <= j < trigrams@.len() && !holds(entry@.bloom, #[trigger] trigrams@[j]),
            decreases trigrams@.len() - k,
        {
            if !bloom_contains(&entry.bloom, trigrams[k]) {
                all = false;
                proof {
                    assert(!holds(entry@.bloom, trigrams@[k as int]));
                }
                break;
            }
            k = k + 1;
        }
        proof {
            assert(lists[i as int] == trigrams@);
        }
        if all {
            proof {
                assert(all_held(entry@.bloom, lists[i as int]));
            }
            return true;
        }
        i = i + 1;
    }
    false
}

/// The prefilter keeps every file that holds a literal: when an entry's
/// filter is the filter of its content and one alternative occurs in that
/// content, the entry may match the alternatives' trigram lists.
pub proof fn lemma_prefilter_keeps_occurrences(entry: EntryModel, literals: Seq<Seq<u8>>, i: int, at: int)
    requires
        entry.prefilterable ==> entry.bloom == bloom_of(entry.content),
        0 <= i < literals.len(),
        occurs_at(entry.content, literals[i], at),
    ensures
        may_match(entry, literals.map_values(|l: Seq<u8>| trigrams_of(l))),
{
    let lists = literals.map_values(|l: Seq<u8>| trigrams_of(l));
    if entry.prefilterable {
        assert forall|k: int| 0 <= k < lists[i].len() implies holds(entry.bloom, #[trigger] lists[i][k]) by {
            assert(lists[i][k] == trigram_at(literals[i], k));
            lemma_bloom_holds_occurrence(entry.content, literals[i], at, k);
        }
        assert(all_held(entry.bloom, lists[i]));
    }
}

/// Entries among the first `n` that may match; every entry when no
/// prefilter applies.
pub open spec fn candidate_count(entries: Seq<EntryModel>, alternatives: Option<Seq<Seq<u32>>>, n: int) -> nat
    decreases n,
{
    if n <= 0 {
        0
    } else {
        candidate_count(entries, alternatives, n - 1) + if is_candidate(entries[n - 1], alternatives) { 1nat } else { 0nat }
    }
}

/// Whether the entry is verified against the query.
pub open spec fn is_candidate(entry: EntryModel, alternatives: Option<Seq<Seq<u32>>>) -> bool {
    match alternatives {
        Some(lists) => may_match(entry, lists),
        None => true,
    }
}

/// The entries among the first `n` that are verified against the query,
/// in entry order.
pub open spec fn candidate_entries(entries: Seq<EntryModel>, alternatives: Option<Seq<Seq<u32>>>, n: int) -> Seq<EntryModel>
    decreases n,
{
    if n <= 0 {
        Seq::empty()
    } else if is_candidate(entries[n - 1], alternatives) {
        candidate_entries(entries, alternatives, n - 1).push(entries[n - 1])
    } else {
        candidate_entries(entries, alternatives, n - 1)
    }
}

/// The matching lines, matches and matched files a line search of the
/// first `n` entries with `matcher` counts, each sum wrapping.
pub open spec fn entry_counts(entries: Seq<EntryModel>, n: int, options: SearchOptions, matcher: SpecMatcher) -> (u64, u64, u64)
    decreases n,
{
    if n <= 0 {
        (0, 0, 0)
    } else {
        let before = entry_counts(entries, n - 1, options, matcher);
        let counts = source_line_counts(entries[n - 1].content, options, matcher);
        if counts.1 > 0 {
            (before.0.wrapping_add(counts.0), before.1.wrapping_add(counts.1), before.2.wrapping_add(1))
        } else {
            before
        }
    }
}

/// What an index search in line mode, in a mode other than quiet and over
/// entries searched as plain text, counts: every matching line, match and
/// matched file of every candidate entry, however many records are
/// retained.
pub open spec fn index_counts(
    result: Result<SearchReport>,
    index: IndexModel,
    query: SearchQuery,
    options: SearchOptions,
) -> bool {
    result is Ok && options.mode == SearchMode::Line && options.result_mode != ResultMode::Quiet
        && (forall|i: int| 0 <= i < index.entries.len()
            ==> !(options.archives.enabled && kind_of((#[trigger] index.entries[i]).path) is Some))
        ==> ({
            let report = result->Ok_0;
            let candidates = candidate_entries(index.entries, prefilter(query, options), index.entries.len() as int);
            (report.matching_lines, report.occurrences, report.files_with_matches) == entry_counts(candidates,
                candidates.len() as int, options, search_matcher(query, options.case)->Some_0)
        })
}

/// The display form of an encoded root: UTF-16 on Windows (platform 1),
/// UTF-8 with replacement elsewhere.
pub open spec fn display_root(bytes: Seq<u8>, platform: u8) -> Seq<char> {
    if platform == 1 { decoded(utf16le_name(), bytes).0 } else { lossy_utf8(bytes) }
}

/// Lists of trigram lists as sequences.
pub open spec fn lists_view(lists: Seq<Vec<u32>>) -> Seq<Seq<u32>> {
    lists.map_values(|l: Vec<u32>| l@)
}

/// What a search of a snapshot returns: zero workers are refused, then
/// the query's own failures; a report is that of a fresh collector that
/// searched every candidate in key order, each as `source_searched` says,
/// with the snapshot's evidence.
pub open spec fn index_search_outcome(
    result: Result<SearchReport>,
    index: IndexModel,
    platform: u8,
    revision: Seq<char>,
    query: SearchQuery,
    options: SearchOptions,
    parallelism: usize,
) -> bool {
    &&& parallelism == 0 ==> (result matches Err(Error::Index { path: p, message: m }) && p@ == "<memory>"@
        && m@ == "search parallelism must be greater than zero"@)
    &&& parallelism > 0 ==> setup_failure(result, query, options)
    &&& result is Ok ==> parallelism > 0 && query_usable(query, options)
    &&& result is Err && parallelism > 0 && query_usable(query, options) && !regex_refused(query, options.case)
        ==> options.error_policy == crate::options::SearchErrorPolicy::Abort
    &&& parallelism > 0 && query_usable(query, options) && !regex_refused(query, options.case)
        && options.error_policy == crate::options::SearchErrorPolicy::Continue ==> result is Ok
    &&& result is Ok ==> {
        let report = result->Ok_0;
        let candidates = candidate_count(index.entries, prefilter(query, options), index.entries.len() as int);
        &&& report_bounds(report, options)
        &&& report.backend == SearchBackend::PersistentIndex
        &&& report.roots@.len() == index.roots.len()
        &&& forall|i: int| 0 <= i < index.roots.len() ==> (#[trigger] report.roots@[i])@ == display_root(index.roots[i], platform)
        &&& report.index matches Some(evidence) && {
            &&& evidence.revision@ == revision
            &&& evidence.indexed_files == index.entries.len()
            &&& evidence.candidate_files == candidates
            &&& evidence.prefiltered == prefilter(query, options) is Some
        }
        &&& report.files_searched <= candidates
        &&& options.result_mode != ResultMode::Quiet ==> report.files_searched == candidates
        &&& exists|compiled: CompiledQuery, collectors: Seq<Collector>, paths: Seq<Seq<char>>|
            #[trigger] entries_searched(collectors, candidate_entries(index.entries, prefilter(query, options), index.entries.len() as int),
                paths, report.files_searched as int, compiled, options)
            && query_matcher(compiled) == search_matcher(query, options.case)->Some_0
            && fresh_collector(collectors[0], options) && report_of(report, collectors.last())
            && (report.files_searched < candidates ==> options.result_mode == ResultMode::Quiet
                && collectors.last().quiet_recorded())
            && (options.result_mode == ResultMode::Quiet ==> forall|k: int| 0 <= k < report.files_searched
                ==> !(#[trigger] collectors[k]).quiet_recorded())
        &&& report_rooted(report, index.roots.len())
    }
}

/// Whether a search with these options and query applies the literal
/// prefilter, and with which trigram lists.
pub fn search_prefilter(query: &SearchQuery, options: &SearchOptions) -> (alternatives: Option<Vec<Vec<u32>>>)
    ensures
        match prefilter(*query, *options) {
            Some(lists) => alternatives matches Some(found) && lists_view(found@) == lists,
            None => alternatives is None,
        },
{
    if options.file_evidence == FileEvidenceMode::All {
        return None;
    }
    match &options.encoding {
        EncodingMode::Auto | EncodingMode::Utf8 => {}
        _ => {
            return None;
        }
    }
    let found = prefilter_trigrams(query, options);
    proof {
        if found is Some {
            let literals = literal_alternatives(*query, *options).unwrap();
            assert(lists_view(found->Some_0@) =~= literals.map_values(|l: Seq<u8>| trigrams_of(l)));
        }
    }
    found
}

/// `collectors` holds the collector before each of the first `n`
/// candidate entries and after the last, each entry searched in turn at
/// the path `paths` gives it, whose UTF-8 bytes are the entry's path.
pub open spec fn entries_searched(
    collectors: Seq<Collector>,
    entries: Seq<EntryModel>,
    paths: Seq<Seq<char>>,
    n: int,
    query: CompiledQuery,
    options: SearchOptions,
) -> bool {
    &&& collectors.len() == n + 1
    &&& paths.len() == n
    &&& forall|i: int| 0 <= i < n ==> encode_utf8(#[trigger] paths[i]) == entries[i].path
    &&& forall|i: int| 0 <= i < n ==> #[trigger] source_step(collectors[i], collectors[i + 1], entries[i].root_index, paths[i],
        entries[i].content, query, options)
}

/// One more entry searched extends the chain.
proof fn lemma_entries_step(collectors: Seq<Collector>, entries: Seq<EntryModel>, paths: Seq<Seq<char>>, n: int,
    query: CompiledQuery, options: SearchOptions, next: Collector, path: Seq<char>)
    requires
        entries_searched(collectors, entries, paths, n, query, options),
        0 <= n < entries.len(),
        encode_utf8(path) == entries[n].path,
        source_step(collectors.last(), next, entries[n].root_index, path, entries[n].content, query, options),
    ensures
        entries_searched(collectors.push(next), entries, paths.push(path), n + 1, query, options),
        collectors.push(next)[0] == collectors[0],
{
    let grown = collectors.push(next);
    let named = paths.push(path);
    assert forall|i: int| 0 <= i < n + 1 implies encode_utf8(#[trigger] named[i]) == entries[i].path by {
        if i < n {
            assert(named[i] == paths[i]);
        }
    }
    assert forall|i: int| 0 <= i < n + 1 implies #[trigger] source_step(grown[i], grown[i + 1], entries[i].root_index, named[i],
        entries[i].content, query, options) by {
        if i < n {
            assert(grown[i] == collectors[i] && grown[i + 1] == collectors[i + 1] && named[i] == paths[i]);
        }
    }
}

/// Searching entries whose roots are below `n` keeps every offered root
/// below `n`.
proof fn lemma_entries_rooted(collectors: Seq<Collector>, entries: Seq<EntryModel>, paths: Seq<Seq<char>>, m: int,
    query: CompiledQuery, options: SearchOptions, n: nat, k: int)
    requires
        entries_searched(collectors, entries, paths, m, query, options),
        0 <= k <= m <= entries.len(),
        forall|i: int| 0 <= i < entries.len() ==> (#[trigger] entries[i]).root_index < n,
        rooted(collectors[0], n),
    ensures
        rooted(collectors[k], n),
    decreases k,
{
    if k > 0 {
        let i = k - 1;
        lemma_entries_rooted(collectors, entries, paths, m, query, options, n, i);
        assert(source_step(collectors[i], collectors[i + 1], entries[i].root_index, paths[i], entries[i].content, query, options));
        lemma_step_rooted(collectors[i], collectors[i + 1], entries[i].root_index, paths[i], entries[i].content, query, options, n);
    }
}

/// A line search outside quiet mode whose candidate entries are all
/// searched as plain text: every match of every entry is counted.
#[verifier::opaque]
pub open spec fn counts_every_entry(entries: Seq<EntryModel>, options: SearchOptions) -> bool {
    options.mode == SearchMode::Line && options.result_mode != ResultMode::Quiet
        && forall|k: int| 0 <= k < entries.len() ==> !(options.archives.enabled && kind_of((#[trigger] entries[k]).path) is Some)
}

/// Counting one more entry extends the running totals.
proof fn lemma_entry_count_step(entries: Seq<EntryModel>, j: int, options: SearchOptions, matcher: SpecMatcher, before: Collector,
    after: Collector)
    requires
        0 <= j < entries.len(),
        counters(before) == entry_counts(entries, j, options, matcher),
        counted(before, after, source_line_counts(entries[j].content, options, matcher)),
    ensures
        counters(after) == entry_counts(entries, j + 1, options, matcher),
{
}

/// Searches the candidate entries in key order into `collector` until it
/// asks to quit, and returns how many entries and bytes were searched,
/// with the collector before each entry and after the last, and the path
/// each entry was searched at.
fn search_candidates(
    entries: &Vec<IndexEntry>,
    candidates: &Vec<usize>,
    Ghost(cands): Ghost<Seq<EntryModel>>,
    compiled: &CompiledQuery,
    cache: &mut QueryCache,
    options: &SearchOptions,
    collector: &mut Collector,
) -> (searched: (u64, u64, Ghost<(Seq<Collector>, Seq<Seq<char>>)>))
    requires
        fresh_collector(*old(collector), *options),
        cache_matches(compiled, old(cache)),
        compiled is Literal ==> compiled->Literal_0@.len() > 0,
        candidates@.len() == cands.len(),
        forall|k: int| 0 <= k < candidates@.len() ==> (#[trigger] candidates@[k]) < entries@.len(),
        forall|k: int| 0 <= k < candidates@.len() ==> entries@[#[trigger] candidates@[k] as int]@ == cands[k],
    ensures
        final(collector).wf(),
        final(collector).config() == old(collector).config(),
        searched.0 <= cands.len(),
        entries_searched(searched.2@.0, cands, searched.2@.1, searched.0 as int, *compiled, *options),
        searched.2@.0[0] == *old(collector),
        searched.2@.0.last() == *final(collector),
        final(collector).fatal_failure() is Some ==> options.error_policy == crate::options::SearchErrorPolicy::Abort,
        final(collector).fatal_failure() matches Some(error) ==> !(error is Regex),
        final(collector).fatal_failure() is None && options.result_mode != ResultMode::Quiet ==> searched.0 == cands.len(),
        searched.0 < cands.len() ==> final(collector).fatal_failure() is Some
            || (options.result_mode == ResultMode::Quiet && final(collector).quiet_recorded()),
        options.result_mode == ResultMode::Quiet ==> forall|k: int| 0 <= k < searched.0 ==> !(#[trigger] searched.2@.0[k]).quiet_recorded(),
        final(collector).fatal_failure() is None && counts_every_entry(cands, *options) ==> counters(*final(collector))
            == entry_counts(cands, cands.len() as int, *options, query_matcher(*compiled)),
{
    let ghost counting = counts_every_entry(cands, *options);
    let ghost matcher = query_matcher(*compiled);
    let ghost mut collectors: Seq<Collector> = seq![*collector];
    let ghost mut paths: Seq<Seq<char>> = Seq::empty();
    let mut files_searched: u64 = 0;
    let mut bytes_searched: u64 = 0;
    let mut j: usize = 0;
    while j < candidates.len() && !collector.should_quit()
        invariant
            j <= candidates@.len(),
            files_searched == j,
            candidates@.len() == cands.len(),
            forall|k: int| 0 <= k < candidates@.len() ==> (#[trigger] candidates@[k]) < entries@.len(),
            forall|k: int| 0 <= k < candidates@.len() ==> entries@[#[trigger] candidates@[k] as int]@ == cands[k],
            entries_searched(collectors, cands, paths, j as int, *compiled, *options),
            collectors[0] == *old(collector),
            collectors.last() == *collector,
            options.result_mode == ResultMode::Quiet ==> forall|k: int| 0 <= k < j ==> !(#[trigger] collectors[k]).quiet_recorded(),
            collector.wf(),
            collector.config() == old(collector).config(),
            cache_matches(compiled, cache),
            compiled is Literal ==> compiled->Literal_0@.len() > 0,
            collector.fatal_failure() is Some ==> options.error_policy == crate::options::SearchErrorPolicy::Abort,
            collector.fatal_failure() matches Some(error) ==> !(error is Regex),
            collector.mode() == options.result_mode,
            counting ==> counters(*collector) == entry_counts(cands, j as int, *options, matcher),
            counting == counts_every_entry(cands, *options),
            matcher == query_matcher(*compiled),
        decreases candidates@.len() - j,
    {
        let entry = &entries[candidates[j]];
        proof {
            assert(entry@ == cands[j as int]);
            if counting {
                reveal(counts_every_entry);
                assert(!(options.archives.enabled && kind_of(cands[j as int].path) is Some));
            }
        }
        let ghost here = *collector;
        search_one(entry.root_index, &entry.path, entry.content.as_slice(), compiled, cache, options, collector);
        proof {
            assert(options.result_mode == ResultMode::Quiet ==> !here.quiet_recorded());
            let grown = collectors.push(*collector);
            assert forall|k: int| 0 <= k < j + 1 implies #[trigger] grown[k] == if k < j { collectors[k] } else { here } by {}
            if counting {
                reveal(counts_every_entry);
                lemma_entry_count_step(cands, j as int, *options, matcher, here, *collector);
            }
            lemma_entries_step(collectors, cands, paths, j as int, *compiled, *options, *collector, entry.path@);
            collectors = collectors.push(*collector);
            paths = paths.push(entry.path@);
        }
        files_searched = files_searched + 1;
        bytes_searched = bytes_searched.saturating_add(entry.content.len() as u64);
        j = j + 1;
    }
    proof {
        reveal(counts_every_entry);
    }
    (files_searched, bytes_searched, Ghost((collectors, paths)))
}

impl PersistentIndex {
    /// The display form of each root.
    pub fn display_roots(&self) -> (roots: Vec<String>)
        ensures
            roots@.len() == self@.roots.len(),
            forall|i: int| 0 <= i < self@.roots.len() ==> (#[trigger] roots@[i])@ == display_root(self@.roots[i], self.platform_id()),
    {
        let encoded = self.roots();
        let platform = self.platform();
        let mut roots: Vec<String> = Vec::new();
        let mut i: usize = 0;
        while i < encoded.len()
            invariant
                i <= encoded@.len(),
                crate::index::model::byte_strings(encoded@) == self@.roots,
                platform == self.platform_id(),
                roots@.len() == i,
                forall|k: int| 0 <= k < i ==> (#[trigger] roots@[k])@ == display_root(self@.roots[k], platform),
            decreases encoded@.len() - i,
        {
            let bytes = encoded[i].as_slice();
            let text = if platform == 1 {
                let utf16 = utf16le_encoding();
                decode_with_bom_removal(&utf16, bytes).0
            } else {
                lossy_string(bytes)
            };
            proof {
                assert(self@.roots[i as int] == encoded@[i as int]@);
            }
            roots.push(text);
            i = i + 1;
        }
        roots
    }

    /// Searches the snapshot with the policy's worker count.
    pub fn search(&self, query: SearchQuery, options: SearchOptions) -> (result: Result<SearchReport>)
        ensures
            index_search_outcome(result, self@, self.platform_id(), self.revision_text(), query, options,
                self.policy().search_parallelism),
            index_counts(result, self@, query, options),
    {
        let parallelism = self.options().search_parallelism;
        self.search_with_parallelism(query, options, parallelism)
    }

    /// Searches the snapshot with an explicit worker count: files that the
    /// literal prefilter cannot exclude are verified against the query, in
    /// key order. Candidates are verified one after another; the worker
    /// count is validated.
    pub fn search_with_parallelism(&self, query: SearchQuery, options: SearchOptions, parallelism: usize)
        -> (result: Result<SearchReport>)
        ensures
            index_search_outcome(result, self@, self.platform_id(), self.revision_text(), query, options, parallelism),
            index_counts(result, self@, query, options),
    {
        if parallelism == 0 {
            return Err(Error::Index {
                path: String::from_str("<memory>"),
                message: String::from_str("search parallelism must be greater than zero"),
            });
        }
        let alternatives = search_prefilter(&query, &options);
        let ghost filter = prefilter(query, options);
        let entries = self.entries();
        let ghost models = entry_models(entries@);
        let mut candidates: Vec<usize> = Vec::new();
        let mut i: usize = 0;
        while i < entries.len()
            invariant
                i <= entries@.len(),
                models == entry_models(entries@),
                model_wf(self@, self.platform_id()),
                models == self@.entries,
                match filter {
                    Some(lists) => alternatives matches Some(found) && lists_view(found@) == lists,
                    None => alternatives is None,
                },
                candidates@.len() == candidate_count(models, filter, i as int),
                candidates@.len() == candidate_entries(models, filter, i as int).len(),
                forall|k: int| 0 <= k < candidates@.len() ==> (#[trigger] candidates@[k]) < i,
                forall|k: int| 0 <= k < candidates@.len() ==> models[#[trigger] candidates@[k] as int]
                    == candidate_entries(models, filter, i as int)[k],
            decreases entries@.len() - i,
        {
            let keep = match &alternatives {
                Some(found) => {
                    proof {
                        assert(models[i as int] == entries@[i as int]@);
                    }
                    entry_may_match(&entries[i], found)
                }
                None => true,
            };
            proof {
                assert(models[i as int] == entries@[i as int]@);
                assert(keep == is_candidate(models[i as int], filter));
            }
            if keep {
                candidates.push(i);
            }
            i = i + 1;
        }
        let compiled = match prepare_query(&query, &options) {
            Ok(compiled) => compiled,
            Err(error) => {
                return Err(error);
            }
        };
        let ghost cands = candidate_entries(models, filter, models.len() as int);
        proof {
            assert forall|k: int| 0 <= k < candidates@.len() implies entries@[#[trigger] candidates@[k] as int]@ == cands[k] by {
                assert(models[candidates@[k] as int] == entries@[candidates@[k] as int]@);
            }
            if options.mode == SearchMode::Line && options.result_mode != ResultMode::Quiet
                && (forall|k: int| 0 <= k < models.len()
                    ==> !(options.archives.enabled && kind_of((#[trigger] models[k]).path) is Some)) {
                reveal(counts_every_entry);
                assert forall|k: int| 0 <= k < cands.len() implies !(options.archives.enabled
                    && kind_of((#[trigger] cands[k]).path) is Some) by {
                    assert(models[candidates@[k] as int] == cands[k]);
                }
            }
        }
        let mut cache = compiled.create_cache();
        let mut collector = Collector::new(&options);
        let searched = search_candidates(entries, &candidates, Ghost(cands), &compiled, &mut cache, &options, &mut collector);
        let files_searched = searched.0;
        let bytes_searched = searched.1;
        let ghost chain = searched.2@;
        proof {
            reveal(counts_every_entry);
        }
        if let Some(error) = collector.take_fatal() {
            return Err(error);
        }
        let result_mode = collector.result_mode();
        let collected = collector.finish();
        let evidence = IndexEvidence {
            revision: String::from_str(self.revision()),
            indexed_files: entries.len() as u64,
            candidate_files: candidates.len() as u64,
            prefiltered: alternatives.is_some(),
        };
        let report = build_report(collected, self.display_roots(), files_searched, bytes_searched, result_mode,
            SearchBackend::PersistentIndex, Some(evidence));
        proof {
            assert(report_of(report, chain.0.last()));
            assert(entries_searched(chain.0, cands, chain.1, report.files_searched as int, compiled, options));
            assert forall|k: int| 0 <= k < cands.len() implies (#[trigger] cands[k]).root_index < self@.roots.len() by {
                assert(models[candidates@[k] as int] == cands[k]);
            }
            lemma_entries_rooted(chain.0, cands, chain.1, report.files_searched as int, compiled, options, self@.roots.len(),
                report.files_searched as int);
            lemma_retained_rooted(chain.0.last(), self@.roots.len());
        }
        Ok(report)
    }
}

} // verus!

//! Applying the changed files of one root to a snapshot.
use vstd::prelude::*;
use vstd::utf8::encode_utf8;
use std::collections::VecDeque;
use crate::error::{Error, Result};
use crate::index::assemble::sort_entries;
use crate::index::codec::hex;
use crate::index::model::{built_entry, content_total, entry_models, key_before, revision_bytes, strictly_ordered, EntryModel, IndexEntry, IndexModel, IndexOptions, PersistentIndex};
use crate::index::order::{entry_position, has_key, key_sorted, keys_distinct, lemma_distinct_permutation, lemma_key_total, lemma_key_unique, lemma_ordered_pairwise, lemma_sorted_strict};
use crate::index::storage::{entries_in_order, entry_before, lemma_content_total_prefix, same_bytes};
use crate::searcher::SourceFile;
use crate::index::assemble::{admit_all, built_entries, entry_facts, memory_error, source_fault};
use crate::text::{append_decimal, decimal_chars, string_bytes};

verus! {

/// Counts and evidence of one applied update.
#[derive(Debug, Clone, PartialEq, Eq)]
pub struct IndexUpdateReport {
    /// Newly selected paths.
    pub added: u64,
    /// Existing paths whose bytes were replaced.
    pub updated: u64,
    /// Existing paths removed or no longer selected.
    pub removed: u64,
    /// Selected files retained after the update.
    pub files: u64,
    /// Raw source bytes retained after the update.
    pub content_bytes: u64,
    /// New deterministic index revision.
    pub revision: String,
    /// Whether the update rebuilt the whole snapshot.
    pub full_rebuild: bool,
}

/// The UTF-8 bytes of each path.
pub open spec fn path_bytes(paths: Seq<String>) -> Seq<Seq<u8>> {
    paths.map_values(|p: String| encode_utf8(p@))
}

/// Entry `e` of root `root` is named by one of `paths`.
pub open spec fn named(e: EntryModel, root: usize, paths: Seq<Seq<u8>>) -> bool {
    e.root_index == root && exists|a: int| 0 <= a < paths.len() && #[trigger] paths[a] == e.path
}

/// Entry `e` has the key of one of the changed entries.
pub open spec fn replaced(e: EntryModel, changed: Seq<EntryModel>) -> bool {
    exists|c: int| 0 <= c < changed.len() && has_key(e, #[trigger] changed[c].root_index, changed[c].path)
}

/// Entry `e` leaves the snapshot: it is named by the update or replaced.
pub open spec fn affected(e: EntryModel, root: usize, paths: Seq<Seq<u8>>, changed: Seq<EntryModel>) -> bool {
    named(e, root, paths) || replaced(e, changed)
}

/// Some entry of `old` has the key of `c`.
pub open spec fn in_old(old: Seq<EntryModel>, c: EntryModel) -> bool {
    exists|i: int| 0 <= i < old.len() && has_key(#[trigger] old[i], c.root_index, c.path)
}

/// The entry of `old` with the key of `c` has another digest.
pub open spec fn rehashed(old: Seq<EntryModel>, c: EntryModel) -> bool {
    exists|i: int| 0 <= i < old.len() && has_key(#[trigger] old[i], c.root_index, c.path) && old[i].hash != c.hash
}

/// The sum of `w` over the entries of `s`.
pub open spec fn weight_sum(s: Seq<EntryModel>, w: spec_fn(EntryModel) -> nat) -> nat
    decreases s.len(),
{
    if s.len() == 0 { 0 } else { weight_sum(s.drop_last(), w) + w(s.last()) }
}

/// One for a changed entry whose key the snapshot `olds` holds.
pub open spec fn held_weight(olds: Seq<EntryModel>) -> spec_fn(EntryModel) -> nat {
    |c: EntryModel| if in_old(olds, c) { 1nat } else { 0nat }
}

/// One for a changed entry that replaces an entry of `olds` with another
/// digest.
pub open spec fn rehashed_weight(olds: Seq<EntryModel>) -> spec_fn(EntryModel) -> nat {
    |c: EntryModel| if rehashed(olds, c) { 1nat } else { 0nat }
}

/// The content length of an entry.
pub open spec fn content_weight() -> spec_fn(EntryModel) -> nat {
    |e: EntryModel| e.content.len()
}

/// Changed entries whose key the snapshot held.
pub open spec fn held_count(olds: Seq<EntryModel>, changed: Seq<EntryModel>) -> nat {
    weight_sum(changed, held_weight(olds))
}

/// Changed entries that replace an entry with another digest.
pub open spec fn rehashed_count(olds: Seq<EntryModel>, changed: Seq<EntryModel>) -> nat {
    weight_sum(changed, rehashed_weight(olds))
}

/// Content bytes of a list of entries.
pub open spec fn entries_total(entries: Seq<EntryModel>) -> nat {
    weight_sum(entries, content_weight())
}

spec fn add_weight(w: spec_fn(EntryModel) -> nat) -> spec_fn(EntryModel, nat) -> nat {
    |e: EntryModel, acc: nat| acc + w(e)
}

proof fn lemma_weight_fold(s: Seq<EntryModel>, w: spec_fn(EntryModel) -> nat, b: nat)
    ensures
        s.fold_right(add_weight(w), b) == b + weight_sum(s, w),
    decreases s.len(),
{
    if s.len() > 0 {
        lemma_weight_fold(s.drop_last(), w, b + w(s.last()));
    }
}

/// A sum over entries does not depend on their order.
pub proof fn lemma_weight_permutation(a: Seq<EntryModel>, b: Seq<EntryModel>, w: spec_fn(EntryModel) -> nat)
    requires
        a.to_multiset() == b.to_multiset(),
    ensures
        weight_sum(a, w) == weight_sum(b, w),
{
    let f = add_weight(w);
    assert(vstd::seq_lib::commutative_foldr(f)) by {
        assert forall|x: EntryModel, y: EntryModel, v: nat| #[trigger] f(x, f(y, v)) == f(y, f(x, v)) by {}
    }
    vstd::seq_lib::lemma_fold_right_permutation(a, b, f, 0nat);
    lemma_weight_fold(a, w, 0);
    lemma_weight_fold(b, w, 0);
}

/// A sum over entries is at most its number of entries when each weight is
/// at most one.
proof fn lemma_unit_weights(s: Seq<EntryModel>, w: spec_fn(EntryModel) -> nat)
    requires
        forall|e: EntryModel| #[trigger] w(e) <= 1,
    ensures
        weight_sum(s, w) <= s.len(),
    decreases s.len(),
{
    if s.len() > 0 {
        lemma_unit_weights(s.drop_last(), w);
    }
}

/// The content total of all entries is their content sum.
pub proof fn lemma_total_is_sum(s: Seq<EntryModel>)
    ensures
        content_total(s, s.len() as int) == entries_total(s),
    decreases s.len(),
{
    if s.len() > 0 {
        lemma_total_is_sum(s.drop_last());
        lemma_content_total_prefix(s.drop_last(), s, s.len() - 1);
    }
}

/// Affected entries among the first `n`.
pub open spec fn affected_count(old: Seq<EntryModel>, root: usize, paths: Seq<Seq<u8>>, changed: Seq<EntryModel>, n: int) -> nat
    decreases n,
{
    if n <= 0 {
        0
    } else {
        affected_count(old, root, paths, changed, n - 1) + if affected(old[n - 1], root, paths, changed) { 1nat } else { 0nat }
    }
}

/// Content bytes of the affected entries among the first `n`.
pub open spec fn affected_total(old: Seq<EntryModel>, root: usize, paths: Seq<Seq<u8>>, changed: Seq<EntryModel>, n: int) -> nat
    decreases n,
{
    if n <= 0 {
        0
    } else {
        affected_total(old, root, paths, changed, n - 1)
            + if affected(old[n - 1], root, paths, changed) { old[n - 1].content.len() } else { 0nat }
    }
}

/// Content bytes of the unaffected entries among the first `n`.
pub open spec fn kept_total(old: Seq<EntryModel>, root: usize, paths: Seq<Seq<u8>>, changed: Seq<EntryModel>, n: int) -> nat
    decreases n,
{
    if n <= 0 {
        0
    } else {
        kept_total(old, root, paths, changed, n - 1)
            + if affected(old[n - 1], root, paths, changed) { 0nat } else { old[n - 1].content.len() }
    }
}

proof fn lemma_totals_split(old: Seq<EntryModel>, root: usize, paths: Seq<Seq<u8>>, changed: Seq<EntryModel>, n: int)
    requires
        0 <= n <= old.len(),
    ensures
        content_total(old, n) == affected_total(old, root, paths, changed, n) + kept_total(old, root, paths, changed, n),
        affected_total(old, root, paths, changed, n) <= content_total(old, n),
    decreases n,
{
    if n > 0 {
        lemma_totals_split(old, root, paths, changed, n - 1);
    }
}

/// Marks the entries named by `paths` and those replaced by `changed`, and
/// counts the changed entries the snapshot held and those whose digest
/// differs.
fn mark_affected(
    entries: &Vec<IndexEntry>,
    root: usize,
    paths: &Vec<String>,
    changed: &Vec<IndexEntry>,
) -> (result: (Vec<bool>, u64, u64))
    requires
        strictly_ordered(entry_models(entries@)),
        forall|c: int| 0 <= c < changed@.len() ==> (#[trigger] changed@[c]).root_index == root,
    ensures
        result.0@.len() == entries@.len(),
        forall|i: int| 0 <= i < entries@.len() ==> (#[trigger] result.0@[i] <==> affected(entry_models(entries@)[i], root,
            path_bytes(paths@), entry_models(changed@))),
        result.1 == held_count(entry_models(entries@), entry_models(changed@)),
        result.2 == rehashed_count(entry_models(entries@), entry_models(changed@)),
{
    let ghost models = entry_models(entries@);
    let ghost names = path_bytes(paths@);
    let ghost news = entry_models(changed@);
    let mut marks: Vec<bool> = Vec::new();
    let mut i: usize = 0;
    while i < entries.len()
        invariant
            i <= entries@.len(),
            marks@.len() == i,
            forall|k: int| 0 <= k < i ==> !(#[trigger] marks@[k]),
        decreases entries@.len() - i,
    {
        marks.push(false);
        i = i + 1;
    }
    let mut a: usize = 0;
    while a < paths.len()
        invariant
            a <= paths@.len(),
            marks@.len() == entries@.len(),
            models == entry_models(entries@),
            names == path_bytes(paths@),
            strictly_ordered(models),
            forall|k: int| 0 <= k < entries@.len() ==> (#[trigger] marks@[k] <==> (models[k].root_index == root
                && exists|b: int| 0 <= b < a && #[trigger] names[b] == models[k].path)),
        decreases paths@.len() - a,
    {
        let path = string_bytes(&paths[a]);
        proof {
            assert(names[a as int] == path@);
        }
        let ghost before = marks@;
        if let Ok(position) = entry_position(entries, root, path) {
            marks.set(position, true);
            proof {
                assert forall|k: int| 0 <= k < entries@.len() implies (#[trigger] marks@[k] <==> (models[k].root_index == root
                    && exists|b: int| 0 <= b < a + 1 && #[trigger] names[b] == models[k].path)) by {
                    if models[k].root_index == root && names[a as int] == models[k].path {
                        lemma_key_unique(models, k, position as int, root, path@);
                    }
                    if k != position && (exists|b: int| 0 <= b < a + 1 && #[trigger] names[b] == models[k].path) {
                        let b = choose|b: int| 0 <= b < a + 1 && #[trigger] names[b] == models[k].path;
                        if b == a && models[k].root_index == root {
                            lemma_key_unique(models, k, position as int, root, path@);
                        }
                    }
                }
            }
        } else {
            proof {
                assert forall|k: int| 0 <= k < entries@.len() implies (#[trigger] marks@[k] <==> (models[k].root_index == root
                    && exists|b: int| 0 <= b < a + 1 && #[trigger] names[b] == models[k].path)) by {
                    if models[k].root_index == root && (exists|b: int| 0 <= b < a + 1 && #[trigger] names[b] == models[k].path) {
                        let b = choose|b: int| 0 <= b < a + 1 && #[trigger] names[b] == models[k].path;
                        if b == a {
                            assert(has_key(models[k], root, path@));
                        }
                    }
                }
            }
        }
        a = a + 1;
    }
    let mut retained: u64 = 0;
    let mut updated: u64 = 0;
    let mut c: usize = 0;
    while c < changed.len()
        invariant
            c <= changed@.len(),
            marks@.len() == entries@.len(),
            models == entry_models(entries@),
            names == path_bytes(paths@),
            news == entry_models(changed@),
            strictly_ordered(models),
            forall|x: int| 0 <= x < changed@.len() ==> (#[trigger] changed@[x]).root_index == root,
            forall|k: int| 0 <= k < entries@.len() ==> (#[trigger] marks@[k] <==> (named(models[k], root, names)
                || exists|d: int| 0 <= d < c && has_key(models[k], #[trigger] news[d].root_index, news[d].path))),
            retained == held_count(models, news.take(c as int)),
            updated == rehashed_count(models, news.take(c as int)),
            retained <= c,
            updated <= c,
        decreases changed@.len() - c,
    {
        let entry = &changed[c];
        let path = string_bytes(&entry.path);
        proof {
            assert(news[c as int] == entry@);
            assert(news.take(c + 1).drop_last() =~= news.take(c as int));
            assert(news.take(c + 1).last() == news[c as int]);
            lemma_unit_weights(news.take(c as int), held_weight(models));
            lemma_unit_weights(news.take(c as int), rehashed_weight(models));
        }
        if let Ok(position) = entry_position(entries, root, path) {
            marks.set(position, true);
            retained = retained + 1;
            let differs = !same_bytes(entries[position].content_hash.as_slice(), entry.content_hash.as_slice());
            if differs {
                updated = updated + 1;
            }
            proof {
                assert(models[position as int] == entries@[position as int]@);
                assert(in_old(models, news[c as int]));
                assert forall|i: int| 0 <= i < models.len() && has_key(models[i], entry@.root_index, entry@.path)
                    implies i == position by {
                    lemma_key_unique(models, i, position as int, root, path@);
                }
                assert(rehashed(models, news[c as int]) == differs);
                assert forall|k: int| 0 <= k < entries@.len() implies (#[trigger] marks@[k] <==> (named(models[k], root, names)
                    || exists|d: int| 0 <= d < c + 1 && has_key(models[k], #[trigger] news[d].root_index, news[d].path))) by {
                    if exists|d: int| 0 <= d < c + 1 && has_key(models[k], #[trigger] news[d].root_index, news[d].path) {
                        let d = choose|d: int| 0 <= d < c + 1 && has_key(models[k], #[trigger] news[d].root_index, news[d].path);
                        if d == c {
                            lemma_key_unique(models, k, position as int, root, path@);
                        }
                    }
                }
            }
        } else {
            proof {
                assert(!in_old(models, news[c as int]));
                assert(!rehashed(models, news[c as int]));
                assert forall|k: int| 0 <= k < entries@.len() implies (#[trigger] marks@[k] <==> (named(models[k], root, names)
                    || exists|d: int| 0 <= d < c + 1 && has_key(models[k], #[trigger] news[d].root_index, news[d].path))) by {
                    if exists|d: int| 0 <= d < c + 1 && has_key(models[k], #[trigger] news[d].root_index, news[d].path) {
                        let d = choose|d: int| 0 <= d < c + 1 && has_key(models[k], #[trigger] news[d].root_index, news[d].path);
                        if d == c {
                            assert(has_key(models[k], root, path@));
                        }
                    }
                }
            }
        }
        c = c + 1;
    }
    proof {
        assert forall|k: int| 0 <= k < entries@.len() implies (#[trigger] marks@[k] <==> affected(models[k], root, names, news)) by {
        }
        assert(news.take(changed@.len() as int) =~= news);
    }
    (marks, retained, updated)
}

/// Key order is transitive.
proof fn lemma_key_before_transitive(a: EntryModel, b: EntryModel, c: EntryModel)
    requires
        key_before(a, b),
        key_before(b, c),
    ensures
        key_before(a, c),
{
    if a.root_index == b.root_index && b.root_index == c.root_index {
        crate::text::lemma_bytes_lt_transitive(a.path, b.path, c.path);
    }
}

/// The entries of a vector, in order, in a queue.
fn into_queue(entries: Vec<IndexEntry>) -> (queue: VecDeque<IndexEntry>)
    ensures
        queue@ == entries@,
{
    let ghost all = entries@;
    let mut rest = entries;
    let mut queue: VecDeque<IndexEntry> = VecDeque::new();
    while rest.len() > 0
        invariant
            rest@ + queue@ == all,
        decreases rest@.len(),
    {
        let last = rest.pop().unwrap();
        let ghost before = queue@;
        queue.push_front(last);
        proof {
            assert(rest@ + queue@ =~= all);
        }
    }
    proof {
        assert(queue@ =~= all);
    }
    queue
}

/// The order part of a merge state: entries in strict key order, the last
/// before every unaffected old entry and changed entry not yet consumed.
#[verifier::opaque]
pub open spec fn merge_order(merged: Seq<EntryModel>, olds: Seq<EntryModel>, news: Seq<EntryModel>, marks: Seq<bool>,
    i: int, j: int) -> bool {
    &&& strictly_ordered(merged)
    &&& merged.len() > 0 ==> forall|x: int| i <= x < olds.len() && !marks[x] ==> key_before(merged.last(), #[trigger] olds[x])
    &&& merged.len() > 0 ==> forall|x: int| j <= x < news.len() ==> key_before(merged.last(), #[trigger] news[x])
}

/// The size part of a merge state: the consumed content and count.
#[verifier::opaque]
pub open spec fn merge_sizes(merged: Seq<EntryModel>, olds: Seq<EntryModel>, news: Seq<EntryModel>, i: int, j: int,
    root: usize, names: Seq<Seq<u8>>) -> bool {
    &&& content_total(merged, merged.len() as int) == kept_total(olds, root, names, news, i) + content_total(news, j)
    &&& merged.len() == i - affected_count(olds, root, names, news, i) + j
}

/// The member part of a merge state: exactly the consumed unaffected old
/// entries and the consumed changed ones.
#[verifier::opaque]
pub open spec fn merge_members(merged: Seq<EntryModel>, olds: Seq<EntryModel>, news: Seq<EntryModel>, i: int, j: int,
    root: usize, names: Seq<Seq<u8>>) -> bool {
    &&& forall|x: int| 0 <= x < merged.len() ==> (news.contains(#[trigger] merged[x])
        || exists|o: int| 0 <= o < olds.len() && olds[o] == merged[x] && !affected(olds[o], root, names, news))
    &&& forall|c: int| 0 <= c < j ==> merged.contains(#[trigger] news[c])
    &&& forall|o: int| 0 <= o < i && !affected(#[trigger] olds[o], root, names, news) ==> merged.contains(olds[o])
}

/// What a merge has produced after consuming the first `i` old entries and
/// the first `j` changed ones: entries in strict key order, each before
/// everything not yet consumed, adding up to the consumed content, and
/// holding exactly the consumed unaffected and changed entries.
pub open spec fn merge_state(
    merged: Seq<EntryModel>,
    olds: Seq<EntryModel>,
    news: Seq<EntryModel>,
    marks: Seq<bool>,
    i: int,
    j: int,
    root: usize,
    names: Seq<Seq<u8>>,
) -> bool {
    &&& merge_order(merged, olds, news, marks, i, j)
    &&& merge_sizes(merged, olds, news, i, j, root, names)
    &&& merge_members(merged, olds, news, i, j, root, names)
}

/// What the merge works with: both inputs in strict key order, and the
/// marks saying which old entries are affected.
pub open spec fn merge_inputs(olds: Seq<EntryModel>, news: Seq<EntryModel>, marks: Seq<bool>, root: usize, names: Seq<Seq<u8>>) -> bool {
    &&& strictly_ordered(olds)
    &&& strictly_ordered(news)
    &&& marks.len() == olds.len()
    &&& forall|x: int| 0 <= x < olds.len() ==> (#[trigger] marks[x] <==> affected(olds[x], root, names, news))
}

/// Appending an entry that follows the last one keeps strict key order.
proof fn lemma_push_ordered(merged: Seq<EntryModel>, e: EntryModel)
    requires
        strictly_ordered(merged),
        merged.len() > 0 ==> key_before(merged.last(), e),
    ensures
        strictly_ordered(merged.push(e)),
{
    let after = merged.push(e);
    assert forall|x: int| 0 <= x < after.len() - 1 implies key_before(#[trigger] after[x], after[x + 1]) by {
        if x < merged.len() - 1 {
            assert(key_before(merged[x], merged[x + 1]));
        }
    }
}

/// Appending keeps every member and adds the new one.
proof fn lemma_push_members(merged: Seq<EntryModel>, e: EntryModel)
    ensures
        merged.push(e).contains(e),
        forall|v: EntryModel| merged.contains(v) ==> #[trigger] merged.push(e).contains(v),
{
    assert(merged.push(e)[merged.len() as int] == e);
    assert forall|v: EntryModel| merged.contains(v) implies #[trigger] merged.push(e).contains(v) by {
        let w = choose|w: int| 0 <= w < merged.len() && merged[w] == v;
        assert(merged.push(e)[w] == v);
    }
}

/// Every member of `merged.push(e)` is `e` or a member of `merged`.
proof fn lemma_push_origin(merged: Seq<EntryModel>, e: EntryModel, x: int)
    requires
        0 <= x < merged.len() + 1,
    ensures
        x < merged.len() ==> merged.push(e)[x] == merged[x],
        x == merged.len() ==> merged.push(e)[x] == e,
{
}

/// Appending keeps the content total adding up.
proof fn lemma_push_total(merged: Seq<EntryModel>, e: EntryModel)
    ensures
        content_total(merged.push(e), (merged.len() + 1) as int) == content_total(merged, merged.len() as int) + e.content.len(),
{
    let after = merged.push(e);
    assert(after.drop_last() =~= merged);
    lemma_content_total_prefix(merged, after, merged.len() as int);
}

/// Dropping an affected old entry keeps the state.
proof fn lemma_merge_drop(merged: Seq<EntryModel>, olds: Seq<EntryModel>, news: Seq<EntryModel>, marks: Seq<bool>,
    i: int, j: int, root: usize, names: Seq<Seq<u8>>)
    requires
        merge_inputs(olds, news, marks, root, names),
        0 <= i < olds.len(),
        marks[i],
        merge_state(merged, olds, news, marks, i, j, root, names),
    ensures
        merge_state(merged, olds, news, marks, i + 1, j, root, names),
{
    assert(affected(olds[i], root, names, news));
    assert(merge_order(merged, olds, news, marks, i + 1, j)) by {
        reveal(merge_order);
    }
    assert(merge_sizes(merged, olds, news, i + 1, j, root, names)) by {
        reveal(merge_sizes);
        assert(kept_total(olds, root, names, news, i + 1) == kept_total(olds, root, names, news, i));
        assert(affected_count(olds, root, names, news, i + 1) == affected_count(olds, root, names, news, i) + 1);
    }
    assert(merge_members(merged, olds, news, i + 1, j, root, names)) by {
        reveal(merge_members);
    }
}

/// Taking the next old entry, unaffected and before the next changed one,
/// keeps the order.
proof fn lemma_take_old_order(merged: Seq<EntryModel>, olds: Seq<EntryModel>, news: Seq<EntryModel>, marks: Seq<bool>,
    i: int, j: int, root: usize, names: Seq<Seq<u8>>)
    requires
        merge_inputs(olds, news, marks, root, names),
        0 <= i < olds.len(),
        0 <= j <= news.len(),
        !marks[i],
        j < news.len() ==> key_before(olds[i], news[j]),
        merge_order(merged, olds, news, marks, i, j),
    ensures
        merge_order(merged.push(olds[i]), olds, news, marks, i + 1, j),
{
    reveal(merge_order);
    let e = olds[i];
    let after = merged.push(e);
    lemma_push_ordered(merged, e);
    assert forall|x: int| i + 1 <= x < olds.len() && !marks[x] implies key_before(after.last(), #[trigger] olds[x]) by {
        lemma_ordered_pairwise(olds, i, x);
    }
    assert forall|x: int| j <= x < news.len() implies key_before(after.last(), #[trigger] news[x]) by {
        if x > j {
            lemma_ordered_pairwise(news, j, x);
            lemma_key_before_transitive(e, news[j], news[x]);
        }
    }
}

/// Taking the next old entry, unaffected, keeps the sizes.
proof fn lemma_take_old_sizes(merged: Seq<EntryModel>, olds: Seq<EntryModel>, news: Seq<EntryModel>, marks: Seq<bool>,
    i: int, j: int, root: usize, names: Seq<Seq<u8>>)
    requires
        merge_inputs(olds, news, marks, root, names),
        0 <= i < olds.len(),
        !marks[i],
        merge_sizes(merged, olds, news, i, j, root, names),
    ensures
        merge_sizes(merged.push(olds[i]), olds, news, i + 1, j, root, names),
{
    reveal(merge_sizes);
    assert(!affected(olds[i], root, names, news));
    lemma_push_total(merged, olds[i]);
    assert(kept_total(olds, root, names, news, i + 1) == kept_total(olds, root, names, news, i) + olds[i].content.len());
    assert(affected_count(olds, root, names, news, i + 1) == affected_count(olds, root, names, news, i));
}

/// Taking the next old entry, unaffected, keeps the members.
proof fn lemma_take_old_members(merged: Seq<EntryModel>, olds: Seq<EntryModel>, news: Seq<EntryModel>, marks: Seq<bool>,
    i: int, j: int, root: usize, names: Seq<Seq<u8>>)
    requires
        merge_inputs(olds, news, marks, root, names),
        0 <= i < olds.len(),
        !marks[i],
        merge_members(merged, olds, news, i, j, root, names),
    ensures
        merge_members(merged.push(olds[i]), olds, news, i + 1, j, root, names),
{
    reveal(merge_members);
    let e = olds[i];
    let after = merged.push(e);
    assert(!affected(e, root, names, news));
    lemma_push_members(merged, e);
    assert forall|x: int| 0 <= x < after.len() implies (news.contains(#[trigger] after[x])
        || exists|o: int| 0 <= o < olds.len() && olds[o] == after[x] && !affected(olds[o], root, names, news)) by {
        lemma_push_origin(merged, e, x);
        if x == merged.len() {
            assert(olds[i] == after[x]);
        }
    }
    assert forall|c: int| 0 <= c < j implies after.contains(#[trigger] news[c]) by {
        assert(merged.contains(news[c]));
    }
    assert forall|o: int| 0 <= o < i + 1 && !affected(#[trigger] olds[o], root, names, news) implies after.contains(olds[o]) by {
        if o < i {
            assert(merged.contains(olds[o]));
        }
    }
}

/// Taking the next old entry, unaffected and before the next changed one,
/// keeps the state.
proof fn lemma_merge_take_old(merged: Seq<EntryModel>, olds: Seq<EntryModel>, news: Seq<EntryModel>, marks: Seq<bool>,
    i: int, j: int, root: usize, names: Seq<Seq<u8>>)
    requires
        merge_inputs(olds, news, marks, root, names),
        0 <= i < olds.len(),
        0 <= j <= news.len(),
        !marks[i],
        j < news.len() ==> key_before(olds[i], news[j]),
        merge_state(merged, olds, news, marks, i, j, root, names),
    ensures
        merge_state(merged.push(olds[i]), olds, news, marks, i + 1, j, root, names),
{
    lemma_take_old_order(merged, olds, news, marks, i, j, root, names);
    lemma_take_old_sizes(merged, olds, news, marks, i, j, root, names);
    lemma_take_old_members(merged, olds, news, marks, i, j, root, names);
}

/// A changed entry that does not sort after the next unaffected old entry
/// sorts before every unaffected old entry from there on.
proof fn lemma_new_before_olds(olds: Seq<EntryModel>, news: Seq<EntryModel>, marks: Seq<bool>,
    i: int, j: int, root: usize, names: Seq<Seq<u8>>)
    requires
        merge_inputs(olds, news, marks, root, names),
        0 <= i <= olds.len(),
        0 <= j < news.len(),
        i < olds.len() ==> !marks[i] && !key_before(olds[i], news[j]),
    ensures
        forall|x: int| i <= x < olds.len() && !marks[x] ==> key_before(news[j], #[trigger] olds[x]),
{
    if i < olds.len() {
        let head = olds[i];
        assert(!affected(head, root, names, news));
        assert(!has_key(head, news[j].root_index, news[j].path));
        lemma_key_total(head, news[j]);
        assert forall|x: int| i <= x < olds.len() && !marks[x] implies key_before(news[j], #[trigger] olds[x]) by {
            if x > i {
                lemma_ordered_pairwise(olds, i, x);
                lemma_key_before_transitive(news[j], head, olds[x]);
            }
        }
    }
}

/// Taking the next changed entry, not after the next unaffected old one,
/// keeps the order.
proof fn lemma_take_new_order(merged: Seq<EntryModel>, olds: Seq<EntryModel>, news: Seq<EntryModel>, marks: Seq<bool>,
    i: int, j: int, root: usize, names: Seq<Seq<u8>>)
    requires
        merge_inputs(olds, news, marks, root, names),
        0 <= i <= olds.len(),
        0 <= j < news.len(),
        i < olds.len() ==> !marks[i] && !key_before(olds[i], news[j]),
        merge_order(merged, olds, news, marks, i, j),
    ensures
        merge_order(merged.push(news[j]), olds, news, marks, i, j + 1),
{
    reveal(merge_order);
    let e = news[j];
    let after = merged.push(e);
    lemma_push_ordered(merged, e);
    lemma_new_before_olds(olds, news, marks, i, j, root, names);
    assert forall|x: int| j + 1 <= x < news.len() implies key_before(after.last(), #[trigger] news[x]) by {
        lemma_ordered_pairwise(news, j, x);
    }
}

/// Taking the next changed entry keeps the sizes.
proof fn lemma_take_new_sizes(merged: Seq<EntryModel>, olds: Seq<EntryModel>, news: Seq<EntryModel>, i: int, j: int,
    root: usize, names: Seq<Seq<u8>>)
    requires
        0 <= j < news.len(),
        merge_sizes(merged, olds, news, i, j, root, names),
    ensures
        merge_sizes(merged.push(news[j]), olds, news, i, j + 1, root, names),
{
    reveal(merge_sizes);
    lemma_push_total(merged, news[j]);
}

/// Taking the next changed entry keeps the members.
proof fn lemma_take_new_members(merged: Seq<EntryModel>, olds: Seq<EntryModel>, news: Seq<EntryModel>, i: int, j: int,
    root: usize, names: Seq<Seq<u8>>)
    requires
        0 <= j < news.len(),
        merge_members(merged, olds, news, i, j, root, names),
    ensures
        merge_members(merged.push(news[j]), olds, news, i, j + 1, root, names),
{
    reveal(merge_members);
    let e = news[j];
    let after = merged.push(e);
    lemma_push_members(merged, e);
    assert forall|x: int| 0 <= x < after.len() implies (news.contains(#[trigger] after[x])
        || exists|o: int| 0 <= o < olds.len() && olds[o] == after[x] && !affected(olds[o], root, names, news)) by {
        lemma_push_origin(merged, e, x);
        if x == merged.len() {
            assert(news[j] == after[x]);
        }
    }
    assert forall|c: int| 0 <= c < j + 1 implies after.contains(#[trigger] news[c]) by {
        if c < j {
            assert(merged.contains(news[c]));
        }
    }
    assert forall|o: int| 0 <= o < i && !affected(#[trigger] olds[o], root, names, news) implies after.contains(olds[o]) by {
        assert(merged.contains(olds[o]));
    }
}

/// Taking the next changed entry, not after the next unaffected old one,
/// keeps the state.
proof fn lemma_merge_take_new(merged: Seq<EntryModel>, olds: Seq<EntryModel>, news: Seq<EntryModel>, marks: Seq<bool>,
    i: int, j: int, root: usize, names: Seq<Seq<u8>>)
    requires
        merge_inputs(olds, news, marks, root, names),
        0 <= i <= olds.len(),
        0 <= j < news.len(),
        i < olds.len() ==> !marks[i] && !key_before(olds[i], news[j]),
        merge_state(merged, olds, news, marks, i, j, root, names),
    ensures
        merge_state(merged.push(news[j]), olds, news, marks, i, j + 1, root, names),
{
    lemma_take_new_order(merged, olds, news, marks, i, j, root, names);
    lemma_take_new_sizes(merged, olds, news, i, j, root, names);
    lemma_take_new_members(merged, olds, news, i, j, root, names);
}

/// The unaffected entries of `old` and the `changed` entries, merged in
/// key order; affected entries are dropped.
fn merge_entries(
    old: Vec<IndexEntry>,
    marks: &Vec<bool>,
    changed: Vec<IndexEntry>,
    Ghost(root): Ghost<usize>,
    Ghost(names): Ghost<Seq<Seq<u8>>>,
) -> (merged: Vec<IndexEntry>)
    requires
        merge_inputs(entry_models(old@), entry_models(changed@), marks@, root, names),
    ensures
        merge_state(entry_models(merged@), entry_models(old@), entry_models(changed@), marks@, old@.len() as int,
            changed@.len() as int, root, names),
{
    let ghost olds = entry_models(old@);
    let ghost news = entry_models(changed@);
    let ghost n = old@.len();
    let ghost k = changed@.len();
    let old_len = marks.len();
    let mut old_queue = into_queue(old);
    let mut new_queue = into_queue(changed);
    let mut merged: Vec<IndexEntry> = Vec::new();
    let mut i: usize = 0;
    let ghost mut j: int = 0;
    proof {
        assert(old_queue@ =~= old@.subrange(0, n as int));
        assert(new_queue@ =~= changed@.subrange(0, k as int));
        assert(entry_models(merged@) =~= Seq::<EntryModel>::empty());
        reveal(merge_order);
        reveal(merge_sizes);
        reveal(merge_members);
    }
    while old_queue.len() > 0 || new_queue.len() > 0
        invariant
            0 <= i <= n,
            0 <= j <= k,
            old_len == n,
            olds == entry_models(old@),
            news == entry_models(changed@),
            n == old@.len(),
            k == changed@.len(),
            merge_inputs(olds, news, marks@, root, names),
            old_queue@ == old@.subrange(i as int, n as int),
            new_queue@ == changed@.subrange(j, k as int),
            merge_state(entry_models(merged@), olds, news, marks@, i as int, j, root, names),
        decreases (n - i) + (k - j),
    {
        let ghost before = entry_models(merged@);
        if old_queue.len() > 0 && marks[i] {
            let _dropped = old_queue.pop_front();
            proof {
                assert(old_queue@ =~= old@.subrange(i + 1, n as int));
                lemma_merge_drop(before, olds, news, marks@, i as int, j, root, names);
            }
            i = i + 1;
            continue;
        }
        let take_old = if new_queue.len() == 0 {
            true
        } else if old_queue.len() == 0 {
            false
        } else {
            entry_before(&old_queue[0], &new_queue[0])
        };
        if take_old {
            let entry = old_queue.pop_front().unwrap();
            proof {
                assert(entry@ == olds[i as int]);
                assert(old_queue@ =~= old@.subrange(i + 1, n as int));
                if j < k {
                    assert(new_queue@[0] == changed@[j]);
                }
                lemma_merge_take_old(before, olds, news, marks@, i as int, j, root, names);
            }
            merged.push(entry);
            proof {
                assert(entry_models(merged@) =~= before.push(olds[i as int]));
            }
            i = i + 1;
        } else {
            let entry = new_queue.pop_front().unwrap();
            proof {
                assert(entry@ == news[j]);
                assert(new_queue@ =~= changed@.subrange(j + 1, k as int));
                if i < n {
                    assert(old_queue@[0] == old@[i as int]);
                }
                lemma_merge_take_new(before, olds, news, marks@, i as int, j, root, names);
            }
            merged.push(entry);
            proof {
                assert(entry_models(merged@) =~= before.push(news[j]));
                j = j + 1;
            }
        }
    }
    merged
}

/// The members of two lists with the same multiset are the same.
proof fn lemma_same_members(a: Seq<EntryModel>, b: Seq<EntryModel>)
    requires
        a.to_multiset() == b.to_multiset(),
    ensures
        forall|x: EntryModel| a.contains(x) <==> #[trigger] b.contains(x),
{
    broadcast use vstd::seq_lib::group_to_multiset_ensures;
    assert forall|x: EntryModel| a.contains(x) <==> #[trigger] b.contains(x) by {
        if a.contains(x) {
            assert(a.to_multiset().count(x) > 0);
        }
        if b.contains(x) {
            assert(b.to_multiset().count(x) > 0);
        }
    }
}

/// Whether an entry is affected does not depend on the order of the
/// changed entries.
proof fn lemma_affected_same(root: usize, names: Seq<Seq<u8>>, a: Seq<EntryModel>, b: Seq<EntryModel>)
    requires
        a.to_multiset() == b.to_multiset(),
    ensures
        forall|e: EntryModel| #[trigger] affected(e, root, names, a) == affected(e, root, names, b),
{
    lemma_same_members(a, b);
    assert forall|e: EntryModel| #[trigger] affected(e, root, names, a) == affected(e, root, names, b) by {
        if replaced(e, a) {
            let c = choose|c: int| 0 <= c < a.len() && has_key(e, #[trigger] a[c].root_index, a[c].path);
            assert(a.contains(a[c]));
            assert(b.contains(a[c]));
            let d = choose|d: int| 0 <= d < b.len() && b[d] == a[c];
            assert(has_key(e, b[d].root_index, b[d].path));
        }
        if replaced(e, b) {
            let c = choose|c: int| 0 <= c < b.len() && has_key(e, #[trigger] b[c].root_index, b[c].path);
            assert(b.contains(b[c]));
            assert(a.contains(b[c]));
            let d = choose|d: int| 0 <= d < a.len() && a[d] == b[c];
            assert(has_key(e, a[d].root_index, a[d].path));
        }
    }
}

/// Counts and totals over the snapshot agree for two lists of changed
/// entries that affect the same entries.
proof fn lemma_sums_same(olds: Seq<EntryModel>, root: usize, names: Seq<Seq<u8>>, a: Seq<EntryModel>, b: Seq<EntryModel>, n: int)
    requires
        forall|e: EntryModel| #[trigger] affected(e, root, names, a) == affected(e, root, names, b),
    ensures
        affected_count(olds, root, names, a, n) == affected_count(olds, root, names, b, n),
        affected_total(olds, root, names, a, n) == affected_total(olds, root, names, b, n),
        kept_total(olds, root, names, a, n) == kept_total(olds, root, names, b, n),
    decreases n,
{
    if n > 0 {
        lemma_sums_same(olds, root, names, a, b, n - 1);
        assert(affected(olds[n - 1], root, names, a) == affected(olds[n - 1], root, names, b));
    }
}

proof fn lemma_affected_count_bound(olds: Seq<EntryModel>, root: usize, names: Seq<Seq<u8>>, news: Seq<EntryModel>, n: int)
    requires
        0 <= n,
    ensures
        affected_count(olds, root, names, news, n) <= n,
    decreases n,
{
    if n > 0 {
        lemma_affected_count_bound(olds, root, names, news, n - 1);
    }
}

pub proof fn lemma_content_total_monotone(s: Seq<EntryModel>, i: int, n: int)
    requires
        0 <= i <= n,
    ensures
        content_total(s, i) <= content_total(s, n),
    decreases n,
{
    if n > i {
        lemma_content_total_monotone(s, i, n - 1);
    }
}

/// The first of the first `n` changed files that belongs to another root
/// than `root`.
pub open spec fn foreign_file(changed: Seq<SourceFile>, root: usize, n: int) -> Option<int>
    decreases n,
{
    if n <= 0 {
        None
    } else if foreign_file(changed, root, n - 1) is Some {
        foreign_file(changed, root, n - 1)
    } else if changed[n - 1].root_index != root {
        Some(n - 1)
    } else {
        None
    }
}

fn find_foreign(changed: &Vec<SourceFile>, root: usize) -> (found: Option<usize>)
    ensures
        match found {
            Some(i) => foreign_file(changed@, root, changed@.len() as int) == Some(i as int) && i < changed@.len(),
            None => foreign_file(changed@, root, changed@.len() as int) is None,
        },
{
    let mut i: usize = 0;
    while i < changed.len()
        invariant
            i <= changed@.len(),
            foreign_file(changed@, root, i as int) is None,
        decreases changed@.len() - i,
    {
        if changed[i].root_index != root {
            proof {
                assert(foreign_file(changed@, root, i + 1) == Some(i as int));
                lemma_foreign_stays(changed@, root, i as int, changed@.len() as int);
            }
            return Some(i);
        }
        i = i + 1;
    }
    None
}

proof fn lemma_foreign_stays(changed: Seq<SourceFile>, root: usize, at: int, n: int)
    requires
        0 <= at < n,
        foreign_file(changed, root, at + 1) == Some(at),
    ensures
        foreign_file(changed, root, n) == Some(at),
    decreases n,
{
    if n > at + 1 {
        lemma_foreign_stays(changed, root, at, n - 1);
    }
}

/// The number and content bytes of the marked entries.
fn affected_sums(
    entries: &Vec<IndexEntry>,
    marks: &Vec<bool>,
    Ghost(root): Ghost<usize>,
    Ghost(names): Ghost<Seq<Seq<u8>>>,
    Ghost(news): Ghost<Seq<EntryModel>>,
) -> (sums: (usize, u64))
    requires
        marks@.len() == entries@.len(),
        forall|k: int| 0 <= k < entries@.len() ==> (#[trigger] marks@[k] <==> affected(entry_models(entries@)[k], root, names, news)),
        content_total(entry_models(entries@), entries@.len() as int) <= u64::MAX,
    ensures
        sums.0 == affected_count(entry_models(entries@), root, names, news, entries@.len() as int),
        sums.1 == affected_total(entry_models(entries@), root, names, news, entries@.len() as int),
{
    let ghost models = entry_models(entries@);
    let ghost n = entries@.len() as int;
    let mut count: usize = 0;
    let mut bytes: u64 = 0;
    let mut i: usize = 0;
    while i < entries.len()
        invariant
            i <= n,
            n == entries@.len(),
            models == entry_models(entries@),
            marks@.len() == n,
            forall|k: int| 0 <= k < n ==> (#[trigger] marks@[k] <==> affected(models[k], root, names, news)),
            content_total(models, n) <= u64::MAX,
            count == affected_count(models, root, names, news, i as int),
            bytes == affected_total(models, root, names, news, i as int),
        decreases n - i,
    {
        proof {
            lemma_affected_count_bound(models, root, names, news, i as int);
            lemma_totals_split(models, root, names, news, i + 1);
            lemma_content_total_monotone(models, i + 1, n);
            assert(models[i as int] == entries@[i as int]@);
        }
        if marks[i] {
            count = count + 1;
            bytes = bytes + entries[i].content.len() as u64;
        }
        i = i + 1;
    }
    (count, bytes)
}

/// The content bytes of a list of entries, unless they exceed `u64`.
fn entries_content(entries: &Vec<IndexEntry>) -> (total: Option<u64>)
    ensures
        match total {
            Some(t) => t == entries_total(entry_models(entries@)),
            None => entries_total(entry_models(entries@)) > u64::MAX,
        },
{
    let ghost models = entry_models(entries@);
    let mut total: u64 = 0;
    let mut j: usize = 0;
    while j < entries.len()
        invariant
            j <= entries@.len(),
            models == entry_models(entries@),
            total == content_total(models, j as int),
        decreases entries@.len() - j,
    {
        let size = entries[j].content.len() as u64;
        proof {
            assert(models[j as int] == entries@[j as int]@);
        }
        if size > u64::MAX - total {
            proof {
                lemma_content_total_monotone(models, j + 1, models.len() as int);
                lemma_total_is_sum(models);
            }
            return None;
        }
        total = total + size;
        j = j + 1;
    }
    proof {
        lemma_total_is_sum(models);
    }
    Some(total)
}

proof fn lemma_foreign_none(changed: Seq<SourceFile>, root: usize, n: int)
    requires
        0 <= n <= changed.len(),
        foreign_file(changed, root, n) is None,
    ensures
        forall|i: int| 0 <= i < n ==> (#[trigger] changed[i]).root_index == root,
    decreases n,
{
    if n > 0 {
        lemma_foreign_none(changed, root, n - 1);
    }
}

proof fn lemma_built_len(sources: Seq<SourceFile>, n: int)
    requires
        0 <= n,
    ensures
        built_entries(sources, n).len() == n,
    decreases n,
{
    if n > 0 {
        lemma_built_len(sources, n - 1);
    }
}

proof fn lemma_built_roots(sources: Seq<SourceFile>, root: usize, n: int)
    requires
        0 <= n <= sources.len(),
        forall|i: int| 0 <= i < n ==> (#[trigger] sources[i]).root_index == root,
    ensures
        built_entries(sources, n).len() == n,
        forall|k: int| 0 <= k < n ==> (#[trigger] built_entries(sources, n)[k]).root_index == root,
    decreases n,
{
    if n > 0 {
        lemma_built_roots(sources, root, n - 1);
        reveal(built_entry);
        assert(built_entries(sources, n)[n - 1].root_index == sources[n - 1].root_index);
    }
}

/// The entries built from the changed files, taken from the last file.
pub open spec fn changed_entries(changed: Seq<SourceFile>) -> Seq<EntryModel> {
    built_entries(changed.reverse(), changed.len() as int)
}

/// Entries of snapshot `m` that an update of root `root` naming `names`
/// with the entries `news` leaves out.
pub open spec fn dropped_count(m: IndexModel, root: usize, names: Seq<Seq<u8>>, news: Seq<EntryModel>) -> nat {
    affected_count(m.entries, root, names, news, m.entries.len() as int)
}

/// Content bytes of the entries the update leaves out.
pub open spec fn dropped_total(m: IndexModel, root: usize, names: Seq<Seq<u8>>, news: Seq<EntryModel>) -> nat {
    affected_total(m.entries, root, names, news, m.entries.len() as int)
}

/// The number of entries after the update.
pub open spec fn next_count(m: IndexModel, root: usize, names: Seq<Seq<u8>>, news: Seq<EntryModel>) -> int {
    m.entries.len() - dropped_count(m, root, names, news) + news.len()
}

/// The content bytes after the update.
pub open spec fn next_content(m: IndexModel, root: usize, names: Seq<Seq<u8>>, news: Seq<EntryModel>) -> int {
    m.content_bytes - dropped_total(m, root, names, news) + entries_total(news)
}

/// What an update whose changed entries are well formed fails on, in the
/// order it checks: the content bytes of the changed entries, the entry
/// count, the entry limit, the content bytes and the content limit.
pub open spec fn update_complaint(m: IndexModel, options: IndexOptions, root: usize, names: Seq<Seq<u8>>,
    news: Seq<EntryModel>) -> Option<Seq<char>> {
    if entries_total(news) > u64::MAX {
        Some("content byte count overflow"@)
    } else if next_count(m, root, names, news) > usize::MAX {
        Some("entry count overflow"@)
    } else if next_count(m, root, names, news) > options.max_entries {
        Some("entry count exceeds "@ + decimal_chars(options.max_entries as nat))
    } else if next_content(m, root, names, news) > u64::MAX {
        Some("content byte count overflow"@)
    } else if next_content(m, root, names, news) > options.max_content_bytes {
        Some("content exceeds "@ + decimal_chars(options.max_content_bytes as nat) + " bytes"@)
    } else {
        None
    }
}

/// The checks an update makes before it looks at the snapshot: a known
/// root, changed files of that root only, and changed files within the
/// limits on their own.
pub open spec fn update_admitted(m: IndexModel, options: IndexOptions, root: usize, changed: Seq<SourceFile>) -> bool {
    &&& root < m.roots.len()
    &&& foreign_file(changed, root, changed.len() as int) is None
    &&& source_fault(changed.reverse(), m.roots.len() as int, options, changed.len() as int) is None
}

/// The snapshot after an update: the same roots, and exactly the changed
/// entries and the unaffected old ones.
pub open spec fn updated_model(after: IndexModel, before: IndexModel, root: usize, names: Seq<Seq<u8>>,
    news: Seq<EntryModel>) -> bool {
    &&& after.roots == before.roots
    &&& after.event_roots == before.event_roots
    &&& forall|x: EntryModel| #[trigger] after.entries.contains(x) <==> (news.contains(x)
        || (before.entries.contains(x) && !affected(x, root, names, news)))
    &&& after.entries.len() == next_count(before, root, names, news)
    &&& after.content_bytes == next_content(before, root, names, news)
}

fn invalid_root_error(root_index: usize) -> (error: Error)
    ensures
        error matches Error::Index { path: p, message: m } && p@ == "<memory>"@
            && m@ == "root index "@ + decimal_chars(root_index as nat) + " is invalid"@,
{
    let mut message = String::from_str("root index ");
    append_decimal(&mut message, root_index as u64);
    message.append(" is invalid");
    memory_error(message)
}

fn limit_error(head: &str, limit: u64, tail: &str) -> (error: Error)
    ensures
        error matches Error::Index { path: p, message: m } && p@ == "<memory>"@
            && m@ == head@ + decimal_chars(limit as nat) + tail@,
{
    let mut message = String::from_str(head);
    append_decimal(&mut message, limit);
    message.append(tail);
    memory_error(message)
}

/// Checks the changed files of root `root_index` and builds their entries
/// in strict key order.
fn sorted_changes(changed: Vec<SourceFile>, root_index: usize, root_count: usize, options: &IndexOptions)
    -> (result: Result<Vec<IndexEntry>>)
    ensures
        foreign_file(changed@, root_index, changed@.len() as int) is Some ==> (result matches Err(Error::Index { path: p, message: m })
            && p == changed@[foreign_file(changed@, root_index, changed@.len() as int)->Some_0].path
            && m@ == "entry root index is out of range"@),
        foreign_file(changed@, root_index, changed@.len() as int) is None
            && source_fault(changed@.reverse(), root_count as int, *options, changed@.len() as int) is Some
            ==> (result matches Err(Error::Index { path: p, .. })
                && p == changed@.reverse()[source_fault(changed@.reverse(), root_count as int, *options, changed@.len() as int)->Some_0].path),
        foreign_file(changed@, root_index, changed@.len() as int) is None
            && source_fault(changed@.reverse(), root_count as int, *options, changed@.len() as int) is None
            ==> (keys_distinct(changed_entries(changed@)) <==> result is Ok),
        foreign_file(changed@, root_index, changed@.len() as int) is None
            && source_fault(changed@.reverse(), root_count as int, *options, changed@.len() as int) is None
            && !keys_distinct(changed_entries(changed@))
            ==> (result matches Err(Error::Index { path: p, message: m }) && p@ == "<memory>"@
                && m@ == "entries are not strictly ordered"@),
        result matches Ok(news) ==> {
            &&& foreign_file(changed@, root_index, changed@.len() as int) is None
            &&& source_fault(changed@.reverse(), root_count as int, *options, changed@.len() as int) is None
            &&& keys_distinct(changed_entries(changed@))
            &&& entry_models(news@).to_multiset() == changed_entries(changed@).to_multiset()
            &&& strictly_ordered(entry_models(news@))
            &&& forall|c: int| 0 <= c < news@.len() ==> (#[trigger] news@[c]).root_index == root_index
            &&& forall|c: int| 0 <= c < news@.len() ==> entry_facts(#[trigger] entry_models(news@)[c], root_count as int)
        },
{
    let ghost order = changed@.reverse();
    let ghost count = changed@.len();
    let ghost built = changed_entries(changed@);
    if let Some(f) = find_foreign(&changed, root_index) {
        let path = changed[f].path.clone();
        return Err(Error::Index { path, message: String::from_str("entry root index is out of range") });
    }
    let (mut news, _) = match admit_all(changed, root_count, options) {
        Ok(admitted) => admitted,
        Err(error) => {
            return Err(error);
        }
    };
    let ghost unsorted = entry_models(news@);
    sort_entries(&mut news);
    let ghost sorted = entry_models(news@);
    proof {
        broadcast use vstd::seq_lib::group_to_multiset_ensures;
        assert(unsorted == built);
        assert(sorted.to_multiset() == built.to_multiset());
        lemma_foreign_none(changed@, root_index, count as int);
        assert forall|i: int| 0 <= i < count implies (#[trigger] order[i]).root_index == root_index by {
            assert(order[i] == changed@[count - 1 - i]);
        }
        lemma_built_roots(order, root_index, count as int);
        lemma_same_members(built, sorted);
        assert forall|c: int| 0 <= c < news@.len() implies (#[trigger] news@[c]).root_index == root_index
            && entry_facts(entry_models(news@)[c], root_count as int) by {
            assert(sorted[c] == news@[c]@);
            assert(sorted.contains(sorted[c]));
            assert(built.contains(sorted[c]));
            let w = choose|w: int| 0 <= w < built.len() && built[w] == sorted[c];
            assert(entry_facts(unsorted[w], root_count as int));
        }
        assert(key_sorted(sorted)) by {
            assert forall|i: int, j: int| 0 <= i < j < sorted.len() implies !key_before(#[trigger] sorted[j], #[trigger] sorted[i]) by {
                assert(sorted[i] == news@[i]@ && sorted[j] == news@[j]@);
            }
        }
        lemma_sorted_strict(sorted);
        if keys_distinct(built) {
            lemma_distinct_permutation(built, sorted);
        }
        if keys_distinct(sorted) {
            lemma_distinct_permutation(sorted, built);
        }
    }
    if !entries_in_order(&news) {
        return Err(memory_error(String::from_str("entries are not strictly ordered")));
    }
    Ok(news)
}

/// What a finished merge holds, over the changed entries in any order.
proof fn lemma_merged_members(after: Seq<EntryModel>, olds: Seq<EntryModel>, sorted: Seq<EntryModel>, built: Seq<EntryModel>,
    marks: Seq<bool>, root: usize, names: Seq<Seq<u8>>)
    requires
        merge_inputs(olds, sorted, marks, root, names),
        merge_state(after, olds, sorted, marks, olds.len() as int, sorted.len() as int, root, names),
        sorted.to_multiset() == built.to_multiset(),
    ensures
        strictly_ordered(after),
        content_total(after, after.len() as int) == kept_total(olds, root, names, sorted, olds.len() as int)
            + content_total(sorted, sorted.len() as int),
        after.len() == olds.len() - affected_count(olds, root, names, sorted, olds.len() as int) + sorted.len(),
        forall|x: int| 0 <= x < after.len() ==> sorted.contains(#[trigger] after[x]) || olds.contains(after[x]),
        forall|x: EntryModel| #[trigger] after.contains(x) <==> (built.contains(x)
            || (olds.contains(x) && !affected(x, root, names, built))),
{
    reveal(merge_order);
    reveal(merge_sizes);
    reveal(merge_members);
    lemma_same_members(sorted, built);
    lemma_affected_same(root, names, sorted, built);
    assert forall|x: int| 0 <= x < after.len() implies sorted.contains(#[trigger] after[x]) || olds.contains(after[x]) by {
        if !sorted.contains(after[x]) {
            let o = choose|o: int| 0 <= o < olds.len() && olds[o] == after[x] && !affected(olds[o], root, names, sorted);
            assert(olds[o] == after[x]);
        }
    }
    assert forall|x: EntryModel| #[trigger] after.contains(x) <==> (built.contains(x)
        || (olds.contains(x) && !affected(x, root, names, built))) by {
        if after.contains(x) {
            let w = choose|w: int| 0 <= w < after.len() && after[w] == x;
            if !sorted.contains(after[w]) {
                let o = choose|o: int| 0 <= o < olds.len() && olds[o] == after[w] && !affected(olds[o], root, names, sorted);
                assert(olds.contains(olds[o]));
            }
        }
        if sorted.contains(x) {
            let c = choose|c: int| 0 <= c < sorted.len() && sorted[c] == x;
            assert(after.contains(sorted[c]));
        }
        if olds.contains(x) && !affected(x, root, names, sorted) {
            let o = choose|o: int| 0 <= o < olds.len() && olds[o] == x;
            assert(!affected(olds[o], root, names, sorted));
            assert(after.contains(olds[o]));
        }
    }
}

impl PersistentIndex {
    /// Applies the changed files of root `root_index`: every entry of that
    /// root named by `affected_paths` or by a changed file leaves the
    /// snapshot, and the changed files enter it. Fails, leaving the snapshot
    /// as it was, on an unknown root, a changed file of another root, a
    /// changed file over the content or entry limit, two changed files with
    /// one path, or a result over a limit.
    pub fn apply_changed_entries(&mut self, root_index: usize, affected_paths: &Vec<String>, changed: Vec<SourceFile>)
        -> (result: Result<IndexUpdateReport>)
        ensures
            result is Err ==> *final(self) == *old(self),
            root_index >= old(self)@.roots.len() ==> (result matches Err(Error::Index { path: p, message: m })
                && p@ == "<memory>"@ && m@ == "root index "@ + decimal_chars(root_index as nat) + " is invalid"@),
            root_index < old(self)@.roots.len() && foreign_file(changed@, root_index, changed@.len() as int) is Some
                ==> (result matches Err(Error::Index { path: p, message: m })
                    && p == changed@[foreign_file(changed@, root_index, changed@.len() as int)->Some_0].path
                    && m@ == "entry root index is out of range"@),
            root_index < old(self)@.roots.len() && foreign_file(changed@, root_index, changed@.len() as int) is None
                && source_fault(changed@.reverse(), old(self)@.roots.len() as int, old(self).policy(), changed@.len() as int) is Some
                ==> (result matches Err(Error::Index { path: p, .. })
                    && p == changed@.reverse()[source_fault(changed@.reverse(), old(self)@.roots.len() as int,
                        old(self).policy(), changed@.len() as int)->Some_0].path),
            update_admitted(old(self)@, old(self).policy(), root_index, changed@) && !keys_distinct(changed_entries(changed@))
                ==> (result matches Err(Error::Index { path: p, message: m }) && p@ == "<memory>"@
                    && m@ == "entries are not strictly ordered"@),
            update_admitted(old(self)@, old(self).policy(), root_index, changed@) && keys_distinct(changed_entries(changed@))
                ==> match update_complaint(old(self)@, old(self).policy(), root_index, path_bytes(affected_paths@),
                    changed_entries(changed@)) {
                    Some(c) => result matches Err(Error::Index { path: p, message: m }) && p@ == "<memory>"@ && m@ == c,
                    None => result is Ok,
                },
            result matches Ok(report) ==> {
                let before = old(self)@;
                let names = path_bytes(affected_paths@);
                let news = changed_entries(changed@);
                &&& update_admitted(before, old(self).policy(), root_index, changed@)
                &&& keys_distinct(news)
                &&& updated_model(final(self)@, before, root_index, names, news)
                &&& final(self).policy() == old(self).policy()
                &&& final(self).platform_id() == old(self).platform_id()
                &&& report.added == changed@.len() - held_count(before.entries, news)
                &&& report.updated == rehashed_count(before.entries, news)
                &&& report.removed == (if held_count(before.entries, news) <= dropped_count(before, root_index, names, news) {
                    dropped_count(before, root_index, names, news) - held_count(before.entries, news)
                } else {
                    0
                })
                &&& report.files == final(self)@.entries.len()
                &&& report.content_bytes == final(self)@.content_bytes
                &&& report.revision@ == final(self).revision_text()
                &&& !report.full_rebuild
            },
    {
        let ghost before = self@;
        let ghost names = path_bytes(affected_paths@);
        let ghost built = changed_entries(changed@);
        let root_count = self.roots().len();
        let options = self.options();
        let current = self.entries();
        if root_index >= root_count {
            return Err(invalid_root_error(root_index));
        }
        let news = match sorted_changes(changed, root_index, root_count, &options) {
            Ok(news) => news,
            Err(error) => {
                return Err(error);
            }
        };
        let ghost sorted = entry_models(news@);
        let news_len = news.len();
        let (marks, retained, updated) = mark_affected(self.entries(), root_index, affected_paths, &news);
        proof {
            broadcast use vstd::seq_lib::group_to_multiset_ensures;
            assert(sorted.to_multiset().len() == built.to_multiset().len());
            lemma_built_len(changed@.reverse(), changed@.len() as int);
            lemma_affected_same(root_index, names, sorted, built);
            lemma_sums_same(before.entries, root_index, names, sorted, built, before.entries.len() as int);
            lemma_weight_permutation(sorted, built, held_weight(before.entries));
            lemma_weight_permutation(sorted, built, rehashed_weight(before.entries));
            lemma_weight_permutation(sorted, built, content_weight());
            lemma_unit_weights(sorted, held_weight(before.entries));
        }
        let (dropped, dropped_bytes) = affected_sums(self.entries(), &marks, Ghost(root_index), Ghost(names), Ghost(sorted));
        let changed_bytes = match entries_content(&news) {
            Some(total) => total,
            None => {
                return Err(memory_error(String::from_str("content byte count overflow")));
            }
        };
        let len = self.len();
        proof {
            lemma_affected_count_bound(before.entries, root_index, names, sorted, before.entries.len() as int);
            lemma_totals_split(before.entries, root_index, names, sorted, before.entries.len() as int);
        }
        let kept_len = len - dropped;
        if kept_len > usize::MAX - news_len {
            return Err(memory_error(String::from_str("entry count overflow")));
        }
        let next_len = kept_len + news_len;
        if next_len as u64 > options.max_entries {
            proof {
                reveal_strlit("");
            }
            return Err(limit_error("entry count exceeds ", options.max_entries, ""));
        }
        let kept_bytes = self.content_bytes() - dropped_bytes;
        if kept_bytes > u64::MAX - changed_bytes {
            return Err(memory_error(String::from_str("content byte count overflow")));
        }
        let next_bytes = kept_bytes + changed_bytes;
        if next_bytes > options.max_content_bytes {
            return Err(limit_error("content exceeds ", options.max_content_bytes, " bytes"));
        }
        let taken = self.take_snapshot();
        let (roots, event_roots, entries, options, platform) = taken.into_parts();
        let ghost olds = entry_models(entries@);
        let merged = merge_entries(entries, &marks, news, Ghost(root_index), Ghost(names));
        let ghost after = entry_models(merged@);
        proof {
            lemma_merged_members(after, olds, sorted, built, marks@, root_index, names);
            lemma_totals_split(olds, root_index, names, sorted, olds.len() as int);
            lemma_total_is_sum(sorted);
            assert forall|x: int| 0 <= x < after.len() implies entry_facts(#[trigger] after[x], roots@.len() as int) by {
                if sorted.contains(after[x]) {
                    let c = choose|c: int| 0 <= c < sorted.len() && sorted[c] == after[x];
                    assert(entry_facts(sorted[c], roots@.len() as int));
                } else {
                    let o = choose|o: int| 0 <= o < olds.len() && olds[o] == after[x];
                    assert(entry_facts(olds[o], roots@.len() as int));
                }
            }
        }
        let digest = revision_bytes(&roots, &merged);
        let revision = hex(digest.as_slice());
        let files = merged.len() as u64;
        let report_revision = revision.clone();
        *self = PersistentIndex::from_checked(roots, event_roots, merged, revision, next_bytes, options, platform);
        Ok(IndexUpdateReport {
            added: news_len as u64 - retained,
            updated,
            removed: if retained <= dropped as u64 { dropped as u64 - retained } else { 0 },
            files,
            content_bytes: next_bytes,
            revision: report_revision,
            full_rebuild: false,
        })
    }
}

/// How many entries of `news` have a key that `olds` holds, and how many
/// of those hold another digest there.
fn count_held(olds: &Vec<IndexEntry>, news: &Vec<IndexEntry>) -> (counts: (u64, u64))
    requires
        strictly_ordered(entry_models(olds@)),
    ensures
        counts.0 == held_count(entry_models(olds@), entry_models(news@)),
        counts.1 == rehashed_count(entry_models(olds@), entry_models(news@)),
        counts.0 <= news@.len(),
{
    let ghost models = entry_models(olds@);
    let ghost items = entry_models(news@);
    let mut held: u64 = 0;
    let mut differing: u64 = 0;
    let mut c: usize = 0;
    while c < news.len()
        invariant
            c <= news@.len(),
            models == entry_models(olds@),
            items == entry_models(news@),
            strictly_ordered(models),
            held == held_count(models, items.take(c as int)),
            differing == rehashed_count(models, items.take(c as int)),
            held <= c,
            differing <= c,
        decreases news@.len() - c,
    {
        let entry = &news[c];
        let path = string_bytes(&entry.path);
        proof {
            assert(items[c as int] == entry@);
            assert(items.take(c + 1).drop_last() =~= items.take(c as int));
            assert(items.take(c + 1).last() == items[c as int]);
        }
        if let Ok(position) = entry_position(olds, entry.root_index, path) {
            held = held + 1;
            let differs = !same_bytes(olds[position].content_hash.as_slice(), entry.content_hash.as_slice());
            if differs {
                differing = differing + 1;
            }
            proof {
                assert(models[position as int] == olds@[position as int]@);
                assert(in_old(models, items[c as int]));
                assert forall|i: int| 0 <= i < models.len() && has_key(models[i], entry@.root_index, entry@.path)
                    implies i == position by {
                    lemma_key_unique(models, i, position as int, entry@.root_index, path@);
                }
                assert(rehashed(models, items[c as int]) == differs);
            }
        } else {
            proof {
                assert(!in_old(models, items[c as int]));
                assert(!rehashed(models, items[c as int]));
            }
        }
        c = c + 1;
    }
    proof {
        assert(items.take(news@.len() as int) =~= items);
    }
    (held, differing)
}

impl PersistentIndex {
    /// Replaces the snapshot with `rebuilt`, a complete rebuild of its
    /// roots, and reports the change by key: entries whose key is new,
    /// entries whose key stays with another digest, and keys that are gone.
    pub fn adopt_rebuild(&mut self, rebuilt: PersistentIndex) -> (report: IndexUpdateReport)
        ensures
            *final(self) == rebuilt,
            report.added == rebuilt@.entries.len() - held_count(old(self)@.entries, rebuilt@.entries),
            report.updated == rehashed_count(old(self)@.entries, rebuilt@.entries),
            report.removed == old(self)@.entries.len() - held_count(rebuilt@.entries, old(self)@.entries),
            report.files == rebuilt@.entries.len(),
            report.content_bytes == rebuilt@.content_bytes,
            report.revision@ == rebuilt.revision_text(),
            report.full_rebuild,
    {
        let olds = self.entries();
        let news = rebuilt.entries();
        let (held, rehashed) = count_held(olds, news);
        let (kept, _) = count_held(news, olds);
        let added = news.len() as u64 - held;
        let removed = olds.len() as u64 - kept;
        let files = news.len() as u64;
        let content_bytes = rebuilt.content_bytes();
        let revision = String::from_str(rebuilt.revision());
        *self = rebuilt;
        IndexUpdateReport { added, updated: rehashed, removed, files, content_bytes, revision, full_rebuild: true }
    }
}

} // verus!

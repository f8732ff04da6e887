//! The key order of index entries and lookups by key.
use vstd::prelude::*;
use crate::index::model::{entry_models, key_before, strictly_ordered, EntryModel, IndexEntry};
use crate::text::{bytes_lt, compare_bytes, lemma_bytes_lt_transitive};

verus! {

/// Entry `e` sorts before the key `(root, path)`.
pub open spec fn before_key(e: EntryModel, root: usize, path: Seq<u8>) -> bool {
    e.root_index < root || (e.root_index == root && bytes_lt(e.path, path))
}

/// The key `(root, path)` sorts before entry `e`.
pub open spec fn after_key(e: EntryModel, root: usize, path: Seq<u8>) -> bool {
    root < e.root_index || (root == e.root_index && bytes_lt(path, e.path))
}

/// Entry `e` has the key `(root, path)`.
pub open spec fn has_key(e: EntryModel, root: usize, path: Seq<u8>) -> bool {
    e.root_index == root && e.path == path
}

/// Entries in strict key order are in strict key order pairwise.
pub proof fn lemma_ordered_pairwise(entries: Seq<EntryModel>, i: int, j: int)
    requires
        strictly_ordered(entries),
        0 <= i < j < entries.len(),
    ensures
        key_before(entries[i], entries[j]),
    decreases j - i,
{
    assert(key_before(entries[j - 1], entries[(j - 1) + 1]));
    if i < j - 1 {
        lemma_ordered_pairwise(entries, i, j - 1);
        let (a, b, c) = (entries[i], entries[j - 1], entries[j]);
        if a.root_index == b.root_index && b.root_index == c.root_index {
            lemma_bytes_lt_transitive(a.path, b.path, c.path);
        }
    }
}

proof fn lemma_before_chain(a: EntryModel, b: EntryModel, root: usize, path: Seq<u8>)
    requires
        key_before(a, b),
        before_key(b, root, path),
    ensures
        before_key(a, root, path),
{
    if a.root_index == b.root_index && b.root_index == root {
        lemma_bytes_lt_transitive(a.path, b.path, path);
    }
}

proof fn lemma_after_chain(a: EntryModel, b: EntryModel, root: usize, path: Seq<u8>)
    requires
        after_key(a, root, path),
        key_before(a, b),
    ensures
        after_key(b, root, path),
{
    if a.root_index == b.root_index && a.root_index == root {
        lemma_bytes_lt_transitive(path, a.path, b.path);
    }
}

/// Where the key `(root, path)` stands among entries in strict key order:
/// `Ok` with the index of the entry that has it, or `Err` with the index
/// at which it would be inserted.
pub fn entry_position(entries: &Vec<IndexEntry>, root: usize, path: &[u8]) -> (position: Result<usize, usize>)
    requires
        strictly_ordered(entry_models(entries@)),
    ensures
        match position {
            Ok(i) => i < entries@.len() && has_key(entry_models(entries@)[i as int], root, path@),
            Err(i) => {
                &&& i <= entries@.len()
                &&& forall|j: int| 0 <= j < i ==> before_key(#[trigger] entry_models(entries@)[j], root, path@)
                &&& forall|j: int| i <= j < entries@.len() ==> after_key(#[trigger] entry_models(entries@)[j], root, path@)
                &&& forall|j: int| 0 <= j < entries@.len() ==> !has_key(#[trigger] entry_models(entries@)[j], root, path@)
            },
        },
{
    let ghost models = entry_models(entries@);
    let mut low: usize = 0;
    let mut high: usize = entries.len();
    while low < high
        invariant
            low <= high <= entries@.len(),
            models == entry_models(entries@),
            strictly_ordered(models),
            forall|j: int| 0 <= j < low ==> before_key(#[trigger] models[j], root, path@),
            forall|j: int| high <= j < entries@.len() ==> after_key(#[trigger] models[j], root, path@),
        decreases high - low,
    {
        let middle = low + (high - low) / 2;
        let entry = &entries[middle];
        proof {
            assert(models[middle as int] == entry@);
        }
        let order = if entry.root_index < root {
            -1i8
        } else if entry.root_index > root {
            1i8
        } else {
            compare_bytes(crate::text::string_bytes(&entry.path), path)
        };
        proof {
            crate::text::lemma_bytes_lt_irreflexive(entry@.path);
            crate::text::lemma_bytes_lt_asymmetric(entry@.path, path@);
        }
        if order < 0 {
            proof {
                assert forall|j: int| 0 <= j < middle + 1 implies before_key(#[trigger] models[j], root, path@) by {
                    if j < middle {
                        lemma_ordered_pairwise(models, j, middle as int);
                        lemma_before_chain(models[j], models[middle as int], root, path@);
                    }
                }
            }
            low = middle + 1;
        } else if order > 0 {
            proof {
                assert forall|j: int| middle <= j < entries@.len() implies after_key(#[trigger] models[j], root, path@) by {
                    if j > middle {
                        lemma_ordered_pairwise(models, middle as int, j);
                        lemma_after_chain(models[middle as int], models[j], root, path@);
                    }
                }
            }
            high = middle;
        } else {
            return Ok(middle);
        }
    }
    proof {
        assert forall|j: int| 0 <= j < entries@.len() implies !has_key(#[trigger] models[j], root, path@) by {
            if j < low {
                assert(before_key(models[j], root, path@));
                crate::text::lemma_bytes_lt_irreflexive(path@);
            } else {
                assert(after_key(models[j], root, path@));
                crate::text::lemma_bytes_lt_irreflexive(path@);
            }
        }
    }
    Err(low)
}

/// No two entries share a key.
pub open spec fn keys_distinct(entries: Seq<EntryModel>) -> bool {
    forall|i: int, j: int| 0 <= i < j < entries.len() ==> !has_key(#[trigger] entries[i], #[trigger] entries[j].root_index, entries[j].path)
}

/// No entry sorts strictly after a later one.
pub open spec fn key_sorted(entries: Seq<EntryModel>) -> bool {
    forall|i: int, j: int| 0 <= i < j < entries.len() ==> !key_before(#[trigger] entries[j], #[trigger] entries[i])
}

/// Two entries with different keys are ordered one way or the other.
pub proof fn lemma_key_total(a: EntryModel, b: EntryModel)
    requires
        !has_key(a, b.root_index, b.path),
        !key_before(a, b),
    ensures
        key_before(b, a),
{
    crate::text::lemma_bytes_lt_asymmetric(a.path, b.path);
}

/// In strict key order no two entries share a key.
pub proof fn lemma_key_unique(entries: Seq<EntryModel>, i: int, j: int, root: usize, path: Seq<u8>)
    requires
        strictly_ordered(entries),
        0 <= i < entries.len(),
        0 <= j < entries.len(),
        has_key(entries[i], root, path),
        has_key(entries[j], root, path),
    ensures
        i == j,
{
    if i < j {
        lemma_ordered_pairwise(entries, i, j);
        crate::text::lemma_bytes_lt_irreflexive(path);
    } else if j < i {
        lemma_ordered_pairwise(entries, j, i);
        crate::text::lemma_bytes_lt_irreflexive(path);
    }
}

/// Sorted entries are in strict key order exactly when no two share a key.
pub proof fn lemma_sorted_strict(entries: Seq<EntryModel>)
    requires
        key_sorted(entries),
    ensures
        strictly_ordered(entries) == keys_distinct(entries),
{
    if strictly_ordered(entries) {
        assert forall|i: int, j: int| 0 <= i < j < entries.len() implies !has_key(#[trigger] entries[i], #[trigger] entries[j].root_index, entries[j].path) by {
            if has_key(entries[i], entries[j].root_index, entries[j].path) {
                lemma_key_unique(entries, i, j, entries[j].root_index, entries[j].path);
            }
        }
    }
    if keys_distinct(entries) {
        assert forall|k: int| 0 <= k < entries.len() - 1 implies key_before(#[trigger] entries[k], entries[k + 1]) by {
            assert(!key_before(entries[k + 1], entries[k]));
            assert(!has_key(entries[k], entries[k + 1].root_index, entries[k + 1].path));
            lemma_key_total(entries[k + 1], entries[k]);
        }
    }
}

proof fn lemma_count_two(s: Seq<EntryModel>, i: int, j: int)
    requires
        0 <= i < j < s.len(),
        s[i] == s[j],
    ensures
        s.to_multiset().count(s[i]) >= 2,
    decreases s.len(),
{
    broadcast use vstd::seq_lib::group_to_multiset_ensures;
    let x = s[i];
    let init = s.drop_last();
    assert(s =~= init.push(s.last()));
    if j == s.len() - 1 {
        assert(init[i] == x);
        assert(init.contains(x));
    } else {
        lemma_count_two(init, i, j);
    }
}

proof fn lemma_two_positions(s: Seq<EntryModel>, x: EntryModel)
    requires
        s.to_multiset().count(x) >= 2,
    ensures
        exists|p: int, q: int| 0 <= p < q < s.len() && s[p] == x && s[q] == x,
    decreases s.len(),
{
    broadcast use vstd::seq_lib::group_to_multiset_ensures;
    let init = s.drop_last();
    assert(s =~= init.push(s.last()));
    if s.last() == x {
        assert(init.to_multiset().count(x) >= 1);
        assert(init.contains(x));
        let p = choose|p: int| 0 <= p < init.len() && init[p] == x;
        assert(s[p] == x && s[s.len() - 1] == x);
    } else {
        lemma_two_positions(init, x);
        let (p, q) = choose|p: int, q: int| 0 <= p < q < init.len() && init[p] == x && init[q] == x;
        assert(s[p] == x && s[q] == x);
    }
}

/// Whether keys are distinct does not depend on the order of the entries.
pub proof fn lemma_distinct_permutation(a: Seq<EntryModel>, b: Seq<EntryModel>)
    requires
        a.to_multiset() == b.to_multiset(),
        keys_distinct(a),
    ensures
        keys_distinct(b),
{
    broadcast use vstd::seq_lib::group_to_multiset_ensures;
    assert forall|i: int, j: int| 0 <= i < j < b.len() implies !has_key(#[trigger] b[i], #[trigger] b[j].root_index, b[j].path) by {
        if has_key(b[i], b[j].root_index, b[j].path) {
            if b[i] == b[j] {
                lemma_count_two(b, i, j);
                lemma_two_positions(a, b[i]);
                let (p, q) = choose|p: int, q: int| 0 <= p < q < a.len() && a[p] == b[i] && a[q] == b[i];
                assert(!has_key(a[p], a[q].root_index, a[q].path));
            } else {
                assert(b.to_multiset().count(b[i]) > 0);
                assert(b.to_multiset().count(b[j]) > 0);
                assert(a.contains(b[i]));
                assert(a.contains(b[j]));
                let p = choose|p: int| 0 <= p < a.len() && a[p] == b[i];
                let q = choose|q: int| 0 <= q < a.len() && a[q] == b[j];
                if p < q {
                    assert(!has_key(a[p], a[q].root_index, a[q].path));
                } else {
                    assert(!has_key(a[q], a[p].root_index, a[p].path));
                }
            }
        }
    }
}

} // verus!

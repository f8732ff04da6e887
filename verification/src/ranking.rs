use vstd::prelude::*;
use vstd::multiset::Multiset;
use crate::text::{bytes_lt, compare_bytes, lemma_bytes_lt_asymmetric, lemma_bytes_lt_irreflexive, lemma_bytes_lt_transitive};

verus! {

broadcast use vstd::seq_lib::group_to_multiset_ensures, vstd::multiset::group_multiset_axioms;

/// The deterministic sort key of a retained record: root index, path,
/// line, first span start and message, compared lexicographically in that
/// order.
pub struct RankKey {
    pub root: int,
    pub path: Seq<u8>,
    pub line: int,
    pub start: int,
    pub message: Seq<u8>,
}

/// Strict lexicographic order on rank keys.
pub open spec fn key_lt(a: RankKey, b: RankKey) -> bool {
    if a.root != b.root {
        a.root < b.root
    } else if a.path != b.path {
        bytes_lt(a.path, b.path)
    } else if a.line != b.line {
        a.line < b.line
    } else if a.start != b.start {
        a.start < b.start
    } else {
        bytes_lt(a.message, b.message)
    }
}

/// Key order is irreflexive.
pub proof fn lemma_key_lt_irreflexive(a: RankKey)
    ensures
        !key_lt(a, a),
{
    lemma_bytes_lt_irreflexive(a.message);
}

/// Key order is transitive.
pub proof fn lemma_key_lt_transitive(a: RankKey, b: RankKey, c: RankKey)
    requires
        key_lt(a, b),
        key_lt(b, c),
    ensures
        key_lt(a, c),
{
    if a.path != b.path && bytes_lt(a.path, b.path) && b.path != c.path && bytes_lt(b.path, c.path) {
        lemma_bytes_lt_transitive(a.path, b.path, c.path);
        if a.path == c.path {
            lemma_bytes_lt_asymmetric(a.path, b.path);
        }
    }
    if a.root == b.root && b.root == c.root && a.path != b.path && b.path == c.path {
    }
    if a.root == b.root && b.root == c.root && a.path == b.path && b.path != c.path {
    }
    if a.root == c.root && a.path == c.path && a.path != b.path && a.root == b.root {
        lemma_bytes_lt_asymmetric(a.path, b.path);
    }
    if a.message != b.message || b.message != c.message {
        if bytes_lt(a.message, b.message) && bytes_lt(b.message, c.message) {
            lemma_bytes_lt_transitive(a.message, b.message, c.message);
        }
    }
}

/// Two keys that neither precedes the other are equal.
pub proof fn lemma_key_lt_total(a: RankKey, b: RankKey)
    requires
        !key_lt(a, b),
        !key_lt(b, a),
    ensures
        a == b,
{
    if a.path != b.path {
        lemma_bytes_lt_asymmetric(a.path, b.path);
    }
    if a.message != b.message {
        lemma_bytes_lt_asymmetric(a.message, b.message);
    }
}

/// Key order is asymmetric.
pub proof fn lemma_key_lt_asymmetric(a: RankKey, b: RankKey)
    requires
        key_lt(a, b),
    ensures
        !key_lt(b, a),
{
    if key_lt(b, a) {
        lemma_key_lt_transitive(a, b, a);
        lemma_key_lt_irreflexive(a);
    }
}

/// Records that carry a deterministic rank key.
pub trait Ranked: Sized {
    /// The rank key of the record.
    spec fn rank_key(&self) -> RankKey;

    /// Whether `self` ranks strictly before `other`.
    fn ranks_before(&self, other: &Self) -> (before: bool)
        ensures
            before == key_lt(self.rank_key(), other.rank_key()),
    ;
}

/// Compares two path/message byte strings for ranking: -1, 0 or 1.
pub fn order_bytes(left: &[u8], right: &[u8]) -> (order: i8)
    ensures
        order == -1 <==> left@ != right@ && bytes_lt(left@, right@),
        order == 0 <==> left@ == right@,
        order == 1 <==> left@ != right@ && !bytes_lt(left@, right@),
{
    compare_bytes(left, right)
}

/// Elements in non-decreasing rank order.
pub open spec fn sorted_by_rank<T: Ranked>(items: Seq<T>) -> bool {
    forall|i: int, j: int| 0 <= i < j < items.len() ==> !key_lt(#[trigger] items[j].rank_key(), #[trigger] items[i].rank_key())
}

/// A bounded, deterministic retention of the lowest-ranked records offered.
pub struct Ranking<T> {
    limit: usize,
    items: Vec<T>,
    truncated: bool,
    offered: Ghost<Seq<T>>,
    dropped: Ghost<Seq<T>>,
}

impl<T: Ranked> Ranking<T> {
    /// Every retained record was offered.
    pub proof fn lemma_retained_offered(&self, i: int)
        requires
            self.wf(),
            0 <= i < self.retained().len(),
        ensures
            self.offered().contains(self.retained()[i]),
    {
        broadcast use vstd::seq_lib::group_to_multiset_ensures;
        let x = self.retained()[i];
        assert(self.retained().contains(x));
        assert(self.retained().to_multiset().count(x) > 0);
        assert(self.offered().to_multiset().count(x) > 0);
    }

    /// The limit on retained records.
    pub closed spec fn limit(&self) -> nat {
        self.limit as nat
    }

    /// The retained records, in rank order.
    pub closed spec fn retained(&self) -> Seq<T> {
        self.items@
    }

    /// Every record offered so far.
    pub closed spec fn offered(&self) -> Seq<T> {
        self.offered@
    }

    /// The records offered but not retained.
    pub closed spec fn dropped(&self) -> Seq<T> {
        self.dropped@
    }

    /// Whether any offered record was not retained.
    pub closed spec fn is_truncated(&self) -> bool {
        self.truncated
    }

    /// Retained records are the lowest-ranked of everything offered: they are
    /// sorted, as many as the limit allows, together with the dropped records
    /// they are exactly the offered records, and no dropped record ranks
    /// before a retained one.
    pub open spec fn wf(&self) -> bool {
        &&& self.retained().len() <= self.limit()
        &&& sorted_by_rank(self.retained())
        &&& self.retained().to_multiset().add(self.dropped().to_multiset()) == self.offered().to_multiset()
        &&& forall|r: int, d: int| 0 <= r < self.retained().len() && 0 <= d < self.dropped().len()
            ==> !key_lt(#[trigger] self.dropped()[d].rank_key(), #[trigger] self.retained()[r].rank_key())
        &&& self.retained().len() == if self.offered().len() < self.limit() { self.offered().len() } else { self.limit() }
        &&& self.is_truncated() == (self.offered().len() > self.limit())
    }

    /// An empty ranking that retains at most `limit` records.
    pub fn new(limit: usize) -> (ranking: Self)
        ensures
            ranking.wf(),
            ranking.limit() == limit,
            ranking.offered() == Seq::<T>::empty(),
            ranking.retained() == Seq::<T>::empty(),
    {
        let ranking = Ranking {
            limit,
            items: Vec::new(),
            truncated: false,
            offered: Ghost(Seq::empty()),
            dropped: Ghost(Seq::empty()),
        };
        proof {
            assert(ranking.retained().to_multiset() =~= Multiset::empty());
            assert(ranking.dropped().to_multiset() =~= Multiset::empty());
            assert(ranking.offered().to_multiset() =~= Multiset::empty());
            assert(ranking.retained().to_multiset().add(ranking.dropped().to_multiset()) =~= ranking.offered().to_multiset());
            assert(sorted_by_rank(ranking.retained()));
        }
        ranking
    }

    /// Offers one record; it is retained exactly when fewer than `limit`
    /// records are retained or it ranks strictly before the last retained
    /// record, which is then dropped.
    pub fn offer(&mut self, record: T)
        requires
            old(self).wf(),
        ensures
            final(self).wf(),
            final(self).limit() == old(self).limit(),
            final(self).offered() == old(self).offered().push(record),
    {
        let ghost rec = record;
        let ghost old_offered = self.offered@;
        proof {
            self.offered@ = self.offered@.push(rec);
            assert(self.offered@.to_multiset() == old_offered.to_multiset().insert(rec));
            assert(self.items@.to_multiset().len() == self.items@.len());
            assert(self.dropped@.to_multiset().len() == self.dropped@.len());
            assert(old_offered.to_multiset().len() == old_offered.len());
        }
        if self.limit == 0 {
            self.truncated = true;
            proof {
                self.dropped@ = self.dropped@.push(rec);
                assert(self.items@.len() == 0);
                assert(self.items@.to_multiset().add(self.dropped@.to_multiset())
                    =~= self.offered@.to_multiset());
            }
            return;
        }
        if self.items.len() < self.limit {
            proof {
                assert(self.dropped@.len() == 0);
                assert(self.items@.to_multiset().add(self.dropped@.to_multiset()).insert(rec)
                    =~= self.offered@.to_multiset());
            }
            self.insert_sorted(record);
            return;
        }
        self.truncated = true;
        let last = self.items.len() - 1;
        if record.ranks_before(&self.items[last]) {
            let ghost old_items = self.items@;
            let ghost last_item = old_items[last as int];
            let removed = self.items.pop();
            proof {
                assert(removed.unwrap() == last_item);
                assert(self.items@.push(last_item) =~= old_items);
                let old_dropped = self.dropped@;
                self.dropped@ = self.dropped@.push(last_item);
                assert(old_items.to_multiset() == self.items@.to_multiset().insert(last_item));
                assert forall|r: int, d: int| 0 <= r < self.items@.len() && 0 <= d < self.dropped@.len()
                    implies !key_lt(#[trigger] self.dropped@[d].rank_key(), #[trigger] self.items@[r].rank_key()) by {
                    assert(self.items@[r] == old_items[r]);
                    if d == self.dropped@.len() - 1 {
                        assert(self.dropped@[d] == old_items[last as int]);
                    } else {
                        assert(self.dropped@[d] == old_dropped[d]);
                    }
                }
                assert forall|d: int| 0 <= d < self.dropped@.len()
                    implies !key_lt(#[trigger] self.dropped@[d].rank_key(), rec.rank_key()) by {
                    if d == self.dropped@.len() - 1 {
                        lemma_key_lt_asymmetric(rec.rank_key(), last_item.rank_key());
                    } else {
                        assert(self.dropped@[d] == old_dropped[d]);
                        if key_lt(old_dropped[d].rank_key(), rec.rank_key()) {
                            lemma_key_lt_transitive(old_dropped[d].rank_key(), rec.rank_key(), last_item.rank_key());
                        }
                    }
                }
                assert(self.items@.to_multiset().add(self.dropped@.to_multiset()).insert(rec)
                    =~= self.offered@.to_multiset());
            }
            self.insert_sorted_full(record);
        } else {
            proof {
                let old_items = self.items@;
                let old_dropped = self.dropped@;
                self.dropped@ = self.dropped@.push(rec);
                assert forall|r: int, d: int| 0 <= r < self.items@.len() && 0 <= d < self.dropped@.len()
                    implies !key_lt(#[trigger] self.dropped@[d].rank_key(), #[trigger] self.items@[r].rank_key()) by {
                    if d == self.dropped@.len() - 1 {
                        assert(self.dropped@[d] == rec);
                        if key_lt(rec.rank_key(), old_items[r].rank_key()) {
                            if r < last {
                                assert(!key_lt(old_items[last as int].rank_key(), old_items[r].rank_key()));
                                if !key_lt(old_items[r].rank_key(), old_items[last as int].rank_key()) {
                                    lemma_key_lt_total(old_items[r].rank_key(), old_items[last as int].rank_key());
                                } else {
                                    lemma_key_lt_transitive(rec.rank_key(), old_items[r].rank_key(), old_items[last as int].rank_key());
                                }
                            }
                        }
                    } else {
                        assert(self.dropped@[d] == old_dropped[d]);
                    }
                }
                assert(self.items@.to_multiset().add(self.dropped@.to_multiset())
                    =~= self.offered@.to_multiset());
            }
        }
    }

    /// Inserts into a non-full ranking, after every record that does not rank
    /// after it.
    fn insert_sorted(&mut self, record: T)
        requires
            old(self).items@.len() < old(self).limit,
            old(self).limit > 0,
            sorted_by_rank(old(self).items@),
            old(self).items@.to_multiset().add(old(self).dropped@.to_multiset()).insert(record) == old(self).offered@.to_multiset(),
            forall|r: int, d: int| 0 <= r < old(self).items@.len() && 0 <= d < old(self).dropped@.len()
                ==> !key_lt(#[trigger] old(self).dropped@[d].rank_key(), #[trigger] old(self).items@[r].rank_key()),
            old(self).items@.len() + 1 == if old(self).offered@.len() < old(self).limit { old(self).offered@.len() } else { old(self).limit as nat },
            old(self).truncated == (old(self).offered@.len() > old(self).limit),
            old(self).dropped@.len() == 0,
        ensures
            final(self).wf(),
            final(self).limit == old(self).limit,
            final(self).offered@ == old(self).offered@,
    {
        let position = self.position_for(&record);
        let ghost old_items = self.items@;
        self.items.insert(position, record);
        proof {
            self.lemma_after_insert(old_items, position as int, record);
            assert(self.items@.to_multiset() == old_items.to_multiset().insert(record));
            assert(self.items@.to_multiset().add(self.dropped@.to_multiset())
                =~= old_items.to_multiset().add(self.dropped@.to_multiset()).insert(record));
            assert forall|r: int, d: int| 0 <= r < self.items@.len() && 0 <= d < self.dropped@.len()
                implies !key_lt(#[trigger] self.dropped@[d].rank_key(), #[trigger] self.items@[r].rank_key()) by {
                if r < position {
                    assert(self.items@[r] == old_items[r]);
                } else if r > position {
                    assert(self.items@[r] == old_items[r - 1]);
                }
            }
        }
    }

    /// Inserts into a ranking that has just dropped its last record.
    fn insert_sorted_full(&mut self, record: T)
        requires
            old(self).items@.len() + 1 == old(self).limit,
            sorted_by_rank(old(self).items@),
            old(self).items@.to_multiset().add(old(self).dropped@.to_multiset()).insert(record) == old(self).offered@.to_multiset(),
            forall|r: int, d: int| 0 <= r < old(self).items@.len() && 0 <= d < old(self).dropped@.len()
                ==> !key_lt(#[trigger] old(self).dropped@[d].rank_key(), #[trigger] old(self).items@[r].rank_key()),
            forall|d: int| 0 <= d < old(self).dropped@.len() ==> !key_lt(#[trigger] old(self).dropped@[d].rank_key(), record.rank_key()),
            old(self).offered@.len() > old(self).limit,
            old(self).truncated,
        ensures
            final(self).wf(),
            final(self).limit == old(self).limit,
            final(self).offered@ == old(self).offered@,
    {
        let position = self.position_for(&record);
        let ghost old_items = self.items@;
        self.items.insert(position, record);
        proof {
            self.lemma_after_insert(old_items, position as int, record);
            assert(self.items@.to_multiset() == old_items.to_multiset().insert(record));
            assert(self.items@.to_multiset().add(self.dropped@.to_multiset())
                =~= old_items.to_multiset().add(self.dropped@.to_multiset()).insert(record));
            assert forall|r: int, d: int| 0 <= r < self.items@.len() && 0 <= d < self.dropped@.len()
                implies !key_lt(#[trigger] self.dropped@[d].rank_key(), #[trigger] self.items@[r].rank_key()) by {
                if r < position {
                    assert(self.items@[r] == old_items[r]);
                } else if r > position {
                    assert(self.items@[r] == old_items[r - 1]);
                } else {
                    assert(self.items@[r] == record);
                }
            }
        }
    }

    proof fn lemma_after_insert(&self, old_items: Seq<T>, position: int, record: T)
        requires
            sorted_by_rank(old_items),
            0 <= position <= old_items.len(),
            self.items@ == old_items.insert(position, record),
            forall|i: int| 0 <= i < position ==> !key_lt(record.rank_key(), #[trigger] old_items[i].rank_key()),
            position < old_items.len() ==> key_lt(record.rank_key(), old_items[position].rank_key()),
        ensures
            sorted_by_rank(self.items@),
    {
        assert forall|i: int, j: int| 0 <= i < j < self.items@.len()
            implies !key_lt(#[trigger] self.items@[j].rank_key(), #[trigger] self.items@[i].rank_key()) by {
            if j < position {
                assert(self.items@[i] == old_items[i] && self.items@[j] == old_items[j]);
            } else if j == position {
                assert(self.items@[i] == old_items[i]);
            } else if i == position {
                let v = old_items[j - 1];
                assert(self.items@[j] == v);
                if key_lt(v.rank_key(), record.rank_key()) {
                    if j - 1 == position {
                        lemma_key_lt_asymmetric(record.rank_key(), v.rank_key());
                    } else {
                        lemma_key_lt_transitive(v.rank_key(), record.rank_key(), old_items[position].rank_key());
                        assert(!key_lt(old_items[j - 1].rank_key(), old_items[position].rank_key()));
                    }
                }
            } else if i < position {
                assert(self.items@[i] == old_items[i] && self.items@[j] == old_items[j - 1]);
            } else {
                assert(self.items@[i] == old_items[i - 1] && self.items@[j] == old_items[j - 1]);
            }
        }
    }

    /// The first position whose record ranks strictly after `record`.
    fn position_for(&self, record: &T) -> (position: usize)
        requires
            sorted_by_rank(self.items@),
        ensures
            position <= self.items@.len(),
            forall|i: int| 0 <= i < position ==> !key_lt(record.rank_key(), #[trigger] self.items@[i].rank_key()),
            position < self.items@.len() ==> key_lt(record.rank_key(), self.items@[position as int].rank_key()),
    {
        let mut low: usize = 0;
        let mut high: usize = self.items.len();
        while low < high
            invariant
                low <= high <= self.items@.len(),
                sorted_by_rank(self.items@),
                forall|i: int| 0 <= i < low ==> !key_lt(record.rank_key(), #[trigger] self.items@[i].rank_key()),
                forall|i: int| high <= i < self.items@.len() ==> key_lt(record.rank_key(), #[trigger] self.items@[i].rank_key()),
            decreases high - low,
        {
            let middle = low + (high - low) / 2;
            if record.ranks_before(&self.items[middle]) {
                proof {
                    assert forall|i: int| middle <= i < self.items@.len() implies key_lt(record.rank_key(), #[trigger] self.items@[i].rank_key()) by {
                        if i > middle {
                            let a = self.items@[middle as int].rank_key();
                            let b = self.items@[i].rank_key();
                            assert(!key_lt(b, a));
                            if !key_lt(a, b) {
                                lemma_key_lt_total(a, b);
                            } else {
                                lemma_key_lt_transitive(record.rank_key(), a, b);
                            }
                        }
                    }
                }
                high = middle;
            } else {
                proof {
                    assert forall|i: int| 0 <= i <= middle implies !key_lt(record.rank_key(), #[trigger] self.items@[i].rank_key()) by {
                        if i < middle {
                            let a = self.items@[i].rank_key();
                            let b = self.items@[middle as int].rank_key();
                            assert(!key_lt(b, a));
                            if key_lt(record.rank_key(), a) {
                                if key_lt(a, b) {
                                    lemma_key_lt_transitive(record.rank_key(), a, b);
                                } else {
                                    lemma_key_lt_total(a, b);
                                }
                            }
                        }
                    }
                }
                low = middle + 1;
            }
        }
        low
    }

    /// Whether the ranking already holds `limit` records.
    pub fn is_full(&self) -> (full: bool)
        requires
            self.wf(),
        ensures
            full == (self.retained().len() == self.limit()),
    {
        self.items.len() == self.limit
    }

    /// Whether any offered record was not retained.
    pub fn truncated(&self) -> (truncated: bool)
        ensures
            truncated == self.is_truncated(),
    {
        self.truncated
    }

    /// Takes the retained records in rank order.
    pub fn into_sorted(self) -> (items: Vec<T>)
        ensures
            items@ == self.retained(),
    {
        self.items
    }
}

} // verus!

//! Trigram Bloom filters that let an index skip content which cannot hold a
//! literal.
use vstd::prelude::*;

verus! {

/// Words in one entry's filter: 512 bits.
pub const BLOOM_WORDS: usize = 8;

/// The trigram of the three bytes of `s` starting at `i`.
pub open spec fn trigram_at(s: Seq<u8>, i: int) -> u32 {
    ((s[i] as u32) << 16u32) | ((s[i + 1] as u32) << 8u32) | (s[i + 2] as u32)
}

/// The 64-bit rotation of `value` by 17 bits to the left.
pub open spec fn rotated(value: u64) -> u64 {
    (value << 17u64) | (value >> 47u64)
}

/// The first filter bit a trigram sets.
pub open spec fn first_position(trigram: u32) -> u64 {
    (trigram as u64).wrapping_mul(0x9e37_79b1_85eb_ca87u64) % 512
}

/// The second filter bit a trigram sets.
pub open spec fn second_position(trigram: u32) -> u64 {
    rotated(trigram as u64).wrapping_mul(0xc2b2_ae3d_27d4_eb4fu64) % 512
}

/// Whether bit `position` of the filter is set.
pub open spec fn bit_set(bloom: Seq<u64>, position: u64) -> bool {
    bloom[(position / 64) as int] & (1u64 << (position % 64)) != 0
}

/// Whether the filter holds both bits of `trigram`.
pub open spec fn holds(bloom: Seq<u64>, trigram: u32) -> bool {
    bit_set(bloom, first_position(trigram)) && bit_set(bloom, second_position(trigram))
}

/// `bloom` with bit `position` set.
pub open spec fn with_bit(bloom: Seq<u64>, position: u64) -> Seq<u64> {
    let word = (position / 64) as int;
    bloom.update(word, bloom[word] | (1u64 << (position % 64)))
}

/// The filter of the first `n` trigrams of `s`.
pub open spec fn bloom_prefix(s: Seq<u8>, n: int) -> Seq<u64>
    decreases n,
{
    if n <= 0 {
        Seq::new(BLOOM_WORDS as nat, |i: int| 0u64)
    } else {
        let t = trigram_at(s, n - 1);
        with_bit(with_bit(bloom_prefix(s, n - 1), first_position(t)), second_position(t))
    }
}

/// Trigrams in `s`.
pub open spec fn trigram_count(s: Seq<u8>) -> int {
    if s.len() < 3 { 0 } else { s.len() - 2 }
}

/// The filter of every trigram of `s`.
pub open spec fn bloom_of(s: Seq<u8>) -> Seq<u64> {
    bloom_prefix(s, trigram_count(s))
}

/// The two filter bits of one trigram.
pub fn bloom_positions(trigram: u32) -> (positions: (usize, usize))
    ensures
        positions.0 as u64 == first_position(trigram),
        positions.1 as u64 == second_position(trigram),
        positions.0 < 512,
        positions.1 < 512,
{
    let value = trigram as u64;
    let first = value.wrapping_mul(0x9e37_79b1_85eb_ca87u64) % 512;
    let turned = (value << 17u64) | (value >> 47u64);
    let second = turned.wrapping_mul(0xc2b2_ae3d_27d4_eb4fu64) % 512;
    (first as usize, second as usize)
}

proof fn lemma_set_bit(word: u64, other: u64, b: u64)
    requires
        b < 64,
    ensures
        (word | (1u64 << b)) & (1u64 << b) != 0,
        word & other != 0 ==> (word | (1u64 << b)) & other != 0,
{
    assert((word | (1u64 << b)) & (1u64 << b) != 0) by (bit_vector)
        requires b < 64;
    assert(word & other != 0 ==> (word | (1u64 << b)) & other != 0) by (bit_vector);
}

/// Setting a bit keeps every bit that was set and sets the new one.
proof fn lemma_with_bit(bloom: Seq<u64>, position: u64, kept: u64)
    requires
        bloom.len() == BLOOM_WORDS,
        position < 512,
        kept < 512,
    ensures
        with_bit(bloom, position).len() == BLOOM_WORDS,
        bit_set(with_bit(bloom, position), position),
        bit_set(bloom, kept) ==> bit_set(with_bit(bloom, position), kept),
{
    let word = (position / 64) as int;
    let kept_word = (kept / 64) as int;
    lemma_set_bit(bloom[word], 1u64 << (position % 64), position % 64);
    lemma_set_bit(bloom[word], 1u64 << (kept % 64), position % 64);
}

proof fn lemma_positions_small(trigram: u32)
    ensures
        first_position(trigram) < 512,
        second_position(trigram) < 512,
{
}

/// A filter only gains bits as trigrams are added: every trigram of the
/// first `n` stays held by the filter of the first `m >= n`.
proof fn lemma_prefix_holds(s: Seq<u8>, i: int, m: int)
    requires
        0 <= i < m,
    ensures
        bloom_prefix(s, m).len() == BLOOM_WORDS,
        holds(bloom_prefix(s, m), trigram_at(s, i)),
    decreases m,
{
    let t = trigram_at(s, m - 1);
    let u = trigram_at(s, i);
    lemma_positions_small(t);
    lemma_positions_small(u);
    lemma_prefix_len(s, m - 1);
    let before = bloom_prefix(s, m - 1);
    let middle = with_bit(before, first_position(t));
    if i < m - 1 {
        lemma_prefix_holds(s, i, m - 1);
    }
    lemma_with_bit(before, first_position(t), first_position(u));
    lemma_with_bit(before, first_position(t), second_position(u));
    lemma_with_bit(middle, second_position(t), first_position(u));
    lemma_with_bit(middle, second_position(t), second_position(u));
    lemma_with_bit(before, first_position(t), second_position(t));
    lemma_with_bit(middle, second_position(t), first_position(t));
}

proof fn lemma_prefix_len(s: Seq<u8>, n: int)
    ensures
        bloom_prefix(s, n).len() == BLOOM_WORDS,
    decreases n,
{
    if n > 0 {
        let t = trigram_at(s, n - 1);
        lemma_prefix_len(s, n - 1);
        lemma_positions_small(t);
        lemma_with_bit(bloom_prefix(s, n - 1), first_position(t), 0);
        lemma_with_bit(with_bit(bloom_prefix(s, n - 1), first_position(t)), second_position(t), 0);
    }
}

/// The filter of every trigram of `bytes`.
pub fn trigram_bloom(bytes: &[u8]) -> (bloom: Vec<u64>)
    ensures
        bloom@ == bloom_of(bytes@),
        bloom@.len() == BLOOM_WORDS,
{
    let mut bloom: Vec<u64> = vec![0u64, 0u64, 0u64, 0u64, 0u64, 0u64, 0u64, 0u64];
    proof {
        assert(bloom@ =~= bloom_prefix(bytes@, 0));
    }
    let count: usize = if bytes.len() < 3 { 0 } else { bytes.len() - 2 };
    let mut i: usize = 0;
    while i < count
        invariant
            i <= count,
            count == trigram_count(bytes@),
            bloom@ == bloom_prefix(bytes@, i as int),
        decreases count - i,
    {
        proof {
            lemma_prefix_len(bytes@, i as int);
        }
        let trigram = ((bytes[i] as u32) << 16u32) | ((bytes[i + 1] as u32) << 8u32) | (bytes[i + 2] as u32);
        let (first, second) = bloom_positions(trigram);
        let word = bloom[first / 64] | (1u64 << ((first % 64) as u64));
        bloom.set(first / 64, word);
        proof {
            lemma_positions_small(trigram);
            assert(first as u64 / 64 == (first / 64) as u64);
            assert(first as u64 % 64 == (first % 64) as u64);
            assert(bloom@ =~= with_bit(bloom_prefix(bytes@, i as int), first as u64));
            lemma_with_bit(bloom_prefix(bytes@, i as int), first as u64, 0);
        }
        let word = bloom[second / 64] | (1u64 << ((second % 64) as u64));
        bloom.set(second / 64, word);
        i = i + 1;
        proof {
            assert(bloom@ =~= bloom_prefix(bytes@, i as int));
        }
    }
    proof {
        lemma_prefix_len(bytes@, count as int);
    }
    bloom
}

/// Whether the filter holds both bits of `trigram`.
pub fn bloom_contains(bloom: &Vec<u64>, trigram: u32) -> (found: bool)
    requires
        bloom@.len() == BLOOM_WORDS,
    ensures
        found == holds(bloom@, trigram),
{
    let (first, second) = bloom_positions(trigram);
    proof {
        assert(first as u64 / 64 == (first / 64) as u64);
        assert(first as u64 % 64 == (first % 64) as u64);
        assert(second as u64 / 64 == (second / 64) as u64);
        assert(second as u64 % 64 == (second % 64) as u64);
    }
    (bloom[first / 64] & (1u64 << ((first % 64) as u64))) != 0
        && (bloom[second / 64] & (1u64 << ((second % 64) as u64))) != 0
}

/// No false negatives: the filter of a text holds every trigram of the
/// text.
pub proof fn lemma_bloom_holds_every_trigram(s: Seq<u8>, i: int)
    requires
        0 <= i && i + 3 <= s.len(),
    ensures
        holds(bloom_of(s), trigram_at(s, i)),
{
    lemma_prefix_holds(s, i, trigram_count(s));
}

/// No false negatives for a literal: when `needle` occurs in `s` at `at`,
/// the filter of `s` holds every trigram of `needle`.
pub proof fn lemma_bloom_holds_occurrence(s: Seq<u8>, needle: Seq<u8>, at: int, k: int)
    requires
        0 <= at && at + needle.len() <= s.len(),
        s.subrange(at, at + needle.len()) == needle,
        0 <= k && k + 3 <= needle.len(),
    ensures
        holds(bloom_of(s), trigram_at(needle, k)),
{
    assert(needle[k] == s[at + k]);
    assert(needle[k + 1] == s[at + k + 1]);
    assert(needle[k + 2] == s[at + k + 2]);
    assert(trigram_at(needle, k) == trigram_at(s, at + k));
    lemma_bloom_holds_every_trigram(s, at + k);
}

} // verus!

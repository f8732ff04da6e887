//! Little-endian fields, SHA-256 digests and hexadecimal text.
use vstd::prelude::*;

verus! {

/// The little-endian bytes of a `u16`.
pub open spec fn le_u16(v: u16) -> Seq<u8> {
    seq![v as u8, (v >> 8u16) as u8]
}

/// The little-endian bytes of a `u32`.
pub open spec fn le_u32(v: u32) -> Seq<u8> {
    seq![v as u8, (v >> 8u32) as u8, (v >> 16u32) as u8, (v >> 24u32) as u8]
}

/// The little-endian bytes of a `u64`.
pub open spec fn le_u64(v: u64) -> Seq<u8> {
    seq![
        v as u8, (v >> 8u64) as u8, (v >> 16u64) as u8, (v >> 24u64) as u8,
        (v >> 32u64) as u8, (v >> 40u64) as u8, (v >> 48u64) as u8, (v >> 56u64) as u8,
    ]
}

/// The `u16` whose little-endian bytes start `s`.
pub open spec fn u16_at(s: Seq<u8>) -> u16 {
    (s[0] as u16) | ((s[1] as u16) << 8u16)
}

/// The `u32` whose little-endian bytes start `s`.
pub open spec fn u32_at(s: Seq<u8>) -> u32 {
    (s[0] as u32) | ((s[1] as u32) << 8u32) | ((s[2] as u32) << 16u32) | ((s[3] as u32) << 24u32)
}

/// The `u64` whose little-endian bytes start `s`.
pub open spec fn u64_at(s: Seq<u8>) -> u64 {
    (s[0] as u64) | ((s[1] as u64) << 8u64) | ((s[2] as u64) << 16u64) | ((s[3] as u64) << 24u64)
        | ((s[4] as u64) << 32u64) | ((s[5] as u64) << 40u64) | ((s[6] as u64) << 48u64) | ((s[7] as u64) << 56u64)
}

/// Reading a field back gives the value written.
pub proof fn lemma_le_round_trip(a: u16, b: u32, c: u64)
    ensures
        u16_at(le_u16(a)) == a,
        u32_at(le_u32(b)) == b,
        u64_at(le_u64(c)) == c,
{
    assert(((a as u8) as u16) | ((((a >> 8u16) as u8) as u16) << 8u16) == a) by (bit_vector);
    assert(((b as u8) as u32) | ((((b >> 8u32) as u8) as u32) << 8u32) | ((((b >> 16u32) as u8) as u32) << 16u32)
        | ((((b >> 24u32) as u8) as u32) << 24u32) == b) by (bit_vector);
    assert(((c as u8) as u64) | ((((c >> 8u64) as u8) as u64) << 8u64) | ((((c >> 16u64) as u8) as u64) << 16u64)
        | ((((c >> 24u64) as u8) as u64) << 24u64) | ((((c >> 32u64) as u8) as u64) << 32u64)
        | ((((c >> 40u64) as u8) as u64) << 40u64) | ((((c >> 48u64) as u8) as u64) << 48u64)
        | ((((c >> 56u64) as u8) as u64) << 56u64) == c) by (bit_vector);
}

/// Appends the little-endian bytes of a `u16`.
pub fn push_u16(out: &mut Vec<u8>, v: u16)
    ensures
        final(out)@ == old(out)@ + le_u16(v),
{
    out.push(v as u8);
    out.push((v >> 8u16) as u8);
    proof {
        assert(final(out)@ =~= old(out)@ + le_u16(v));
    }
}

/// Appends the little-endian bytes of a `u32`.
pub fn push_u32(out: &mut Vec<u8>, v: u32)
    ensures
        final(out)@ == old(out)@ + le_u32(v),
{
    out.push(v as u8);
    out.push((v >> 8u32) as u8);
    out.push((v >> 16u32) as u8);
    out.push((v >> 24u32) as u8);
    proof {
        assert(final(out)@ =~= old(out)@ + le_u32(v));
    }
}

/// Appends the little-endian bytes of a `u64`.
pub fn push_u64(out: &mut Vec<u8>, v: u64)
    ensures
        final(out)@ == old(out)@ + le_u64(v),
{
    out.push(v as u8);
    out.push((v >> 8u64) as u8);
    out.push((v >> 16u64) as u8);
    out.push((v >> 24u64) as u8);
    out.push((v >> 32u64) as u8);
    out.push((v >> 40u64) as u8);
    out.push((v >> 48u64) as u8);
    out.push((v >> 56u64) as u8);
    proof {
        assert(final(out)@ =~= old(out)@ + le_u64(v));
    }
}

/// The `u16` stored little-endian at `at`.
pub fn read_u16(bytes: &[u8], at: usize) -> (v: u16)
    requires
        at + 2 <= bytes@.len(),
    ensures
        v == u16_at(bytes@.subrange(at as int, at + 2)),
{
    (bytes[at] as u16) | ((bytes[at + 1] as u16) << 8u16)
}

/// The `u32` stored little-endian at `at`.
pub fn read_u32(bytes: &[u8], at: usize) -> (v: u32)
    requires
        at + 4 <= bytes@.len(),
    ensures
        v == u32_at(bytes@.subrange(at as int, at + 4)),
{
    (bytes[at] as u32) | ((bytes[at + 1] as u32) << 8u32) | ((bytes[at + 2] as u32) << 16u32)
        | ((bytes[at + 3] as u32) << 24u32)
}

/// The `u64` stored little-endian at `at`.
pub fn read_u64(bytes: &[u8], at: usize) -> (v: u64)
    requires
        at + 8 <= bytes@.len(),
    ensures
        v == u64_at(bytes@.subrange(at as int, at + 8)),
{
    (bytes[at] as u64) | ((bytes[at + 1] as u64) << 8u64) | ((bytes[at + 2] as u64) << 16u64)
        | ((bytes[at + 3] as u64) << 24u64) | ((bytes[at + 4] as u64) << 32u64) | ((bytes[at + 5] as u64) << 40u64)
        | ((bytes[at + 6] as u64) << 48u64) | ((bytes[at + 7] as u64) << 56u64)
}

/// The SHA-256 digest of `bytes`, as computed by the `sha2` crate.
pub uninterp spec fn sha256_digest(bytes: Seq<u8>) -> Seq<u8>;

/// Hashes `bytes` with `sha2::Sha256::digest`.
///
/// Trusted: the result is the name `sha256_digest` of the input and, as
/// for every SHA-256 digest, 32 bytes long.
#[verifier::external_body]
pub fn sha256(bytes: &[u8]) -> (digest: Vec<u8>)
    ensures
        digest@ == sha256_digest(bytes@),
        digest@.len() == 32,
{
    <sha2::Sha256 as sha2::Digest>::digest(bytes).to_vec()
}

/// The lowercase hexadecimal digit of a nibble.
pub open spec fn hex_digit(d: u8) -> char {
    if d < 10 { (48 + d) as char } else { (87 + d) as char }
}

/// A lowercase hexadecimal digit: `0`-`9` or `a`-`f`.
pub open spec fn is_lower_hex(c: char) -> bool {
    ('0' <= c && c <= '9') || ('a' <= c && c <= 'f')
}

/// The lowercase hexadecimal text of `bytes`, two digits per byte.
pub open spec fn hex_text(bytes: Seq<u8>) -> Seq<char>
    decreases bytes.len(),
{
    if bytes.len() == 0 {
        Seq::empty()
    } else {
        hex_text(bytes.drop_last()) + seq![hex_digit(bytes.last() >> 4u8), hex_digit(bytes.last() & 15u8)]
    }
}

/// The hexadecimal text of `bytes` has two lowercase digits per byte.
pub proof fn lemma_hex_text(bytes: Seq<u8>)
    ensures
        hex_text(bytes).len() == 2 * bytes.len(),
        forall|i: int| 0 <= i < hex_text(bytes).len() ==> is_lower_hex(#[trigger] hex_text(bytes)[i]),
    decreases bytes.len(),
{
    if bytes.len() > 0 {
        lemma_hex_text(bytes.drop_last());
        let b = bytes.last();
        assert(b >> 4u8 < 16u8) by (bit_vector);
        assert(b & 15u8 < 16u8) by (bit_vector);
        let text = hex_text(bytes);
        let head = hex_text(bytes.drop_last());
        assert forall|i: int| 0 <= i < text.len() implies is_lower_hex(#[trigger] text[i]) by {
            if i < head.len() {
                assert(text[i] == head[i]);
            }
        }
    }
}

fn hex_digit_text(d: u8) -> (text: &'static str)
    requires
        d < 16,
    ensures
        text@ == seq![hex_digit(d)],
{
    let text = if d == 0 { "0" } else if d == 1 { "1" } else if d == 2 { "2" } else if d == 3 { "3" }
        else if d == 4 { "4" } else if d == 5 { "5" } else if d == 6 { "6" } else if d == 7 { "7" }
        else if d == 8 { "8" } else if d == 9 { "9" } else if d == 10 { "a" } else if d == 11 { "b" }
        else if d == 12 { "c" } else if d == 13 { "d" } else if d == 14 { "e" } else { "f" };
    proof {
        reveal_strlit("0"); reveal_strlit("1"); reveal_strlit("2"); reveal_strlit("3");
        reveal_strlit("4"); reveal_strlit("5"); reveal_strlit("6"); reveal_strlit("7");
        reveal_strlit("8"); reveal_strlit("9"); reveal_strlit("a"); reveal_strlit("b");
        reveal_strlit("c"); reveal_strlit("d"); reveal_strlit("e"); reveal_strlit("f");
    }
    text
}

/// The lowercase hexadecimal text of `bytes`.
pub fn hex(bytes: &[u8]) -> (text: String)
    ensures
        text@ == hex_text(bytes@),
{
    let mut text = String::new();
    let mut i: usize = 0;
    while i < bytes.len()
        invariant
            i <= bytes@.len(),
            text@ == hex_text(bytes@.subrange(0, i as int)),
        decreases bytes@.len() - i,
    {
        let byte = bytes[i];
        assert(byte >> 4u8 < 16) by (bit_vector);
        assert(byte & 15u8 < 16) by (bit_vector);
        text.append(hex_digit_text(byte >> 4u8));
        text.append(hex_digit_text(byte & 15u8));
        proof {
            let next = bytes@.subrange(0, i + 1);
            assert(next.drop_last() =~= bytes@.subrange(0, i as int));
            assert(next.last() == byte);
        }
        i = i + 1;
    }
    proof {
        assert(bytes@.subrange(0, bytes@.len() as int) =~= bytes@);
    }
    text
}

} // verus!

use vstd::prelude::*;
use vstd::utf8::*;

verus! {

/// The ASCII decimal digits of `n`, most significant first.
pub open spec fn decimal(n: nat) -> Seq<u8>
    decreases n,
{
    if n < 10 {
        seq![(48 + n) as u8]
    } else {
        decimal(n / 10).push((48 + n % 10) as u8)
    }
}

/// Appends the decimal representation of `n`.
pub fn push_decimal(out: &mut Vec<u8>, n: u64)
    ensures
        final(out)@ == old(out)@ + decimal(n as nat),
    decreases n,
{
    if n >= 10 {
        push_decimal(out, n / 10);
    }
    let digit: u8 = (n % 10) as u8;
    out.push(48u8 + digit);
    proof {
        assert(final(out)@ =~= old(out)@ + decimal(n as nat));
    }
}

/// The decimal digits of `n` as characters.
pub open spec fn decimal_chars(n: nat) -> Seq<char>
    decreases n,
{
    if n < 10 {
        seq![digit_char(n)]
    } else {
        decimal_chars(n / 10).push(digit_char(n % 10))
    }
}

/// The character of one decimal digit.
pub open spec fn digit_char(d: nat) -> char {
    if d == 0 { '0' } else if d == 1 { '1' } else if d == 2 { '2' } else if d == 3 { '3' } else if d == 4 { '4' }
    else if d == 5 { '5' } else if d == 6 { '6' } else if d == 7 { '7' } else if d == 8 { '8' } else { '9' }
}

fn digit_text(d: u64) -> (text: &'static str)
    requires
        d < 10,
    ensures
        text@ == seq![digit_char(d as nat)],
{
    if d == 0 {
        proof { reveal_strlit("0"); }
        "0"
    } else if d == 1 {
        proof { reveal_strlit("1"); }
        "1"
    } else if d == 2 {
        proof { reveal_strlit("2"); }
        "2"
    } else if d == 3 {
        proof { reveal_strlit("3"); }
        "3"
    } else if d == 4 {
        proof { reveal_strlit("4"); }
        "4"
    } else if d == 5 {
        proof { reveal_strlit("5"); }
        "5"
    } else if d == 6 {
        proof { reveal_strlit("6"); }
        "6"
    } else if d == 7 {
        proof { reveal_strlit("7"); }
        "7"
    } else if d == 8 {
        proof { reveal_strlit("8"); }
        "8"
    } else {
        proof { reveal_strlit("9"); }
        "9"
    }
}

/// Appends the decimal form of `n` to a string.
pub fn append_decimal(text: &mut String, n: u64)
    ensures
        final(text)@ == old(text)@ + decimal_chars(n as nat),
    decreases n,
{
    if n >= 10 {
        append_decimal(text, n / 10);
    }
    text.append(digit_text(n % 10));
    proof {
        assert(final(text)@ =~= old(text)@ + decimal_chars(n as nat));
    }
}

/// Appends every byte of `bytes`.
pub fn push_bytes(out: &mut Vec<u8>, bytes: &[u8])
    ensures
        final(out)@ == old(out)@ + bytes@,
{
    let mut i: usize = 0;
    while i < bytes.len()
        invariant
            i <= bytes@.len(),
            out@ == old(out)@ + bytes@.subrange(0, i as int),
        decreases bytes@.len() - i,
    {
        out.push(bytes[i]);
        i = i + 1;
        proof {
            assert(out@ =~= old(out)@ + bytes@.subrange(0, i as int));
        }
    }
    proof {
        assert(bytes@.subrange(0, bytes@.len() as int) =~= bytes@);
    }
}

/// The characters that the standard library's lossy UTF-8 decoding yields
/// for `bytes`.
pub uninterp spec fn lossy_utf8(bytes: Seq<u8>) -> Seq<char>;

/// Decodes bytes with `String::from_utf8_lossy`.
///
/// Trusted: the result equals the name `lossy_utf8` of the input, and valid
/// UTF-8 input is decoded unchanged, as the standard library documents.
#[verifier::external_body]
pub fn lossy_string(bytes: &[u8]) -> (text: String)
    ensures
        text@ == lossy_utf8(bytes@),
        valid_utf8(bytes@) ==> text@ == decode_utf8(bytes@),
{
    String::from_utf8_lossy(bytes).into_owned()
}

/// Whether `bytes` is well-formed UTF-8, decided by `std::str::from_utf8`.
///
/// Trusted: `from_utf8` succeeds exactly on well-formed UTF-8.
#[verifier::external_body]
pub fn is_utf8(bytes: &[u8]) -> (valid: bool)
    ensures
        valid == valid_utf8(bytes@),
{
    std::str::from_utf8(bytes).is_ok()
}

/// The bytes of a string.
pub fn string_bytes(text: &String) -> (bytes: &[u8])
    ensures
        bytes@ == encode_utf8(text@),
{
    text.as_str().as_bytes()
}

/// Finds the first occurrence of one byte with `memchr::memchr`.
///
/// Trusted: `memchr` returns the smallest index holding the byte, or `None`
/// when the byte does not occur, as its documentation states.
#[verifier::external_body]
pub fn find_byte(needle: u8, haystack: &[u8]) -> (found: Option<usize>)
    ensures
        match found {
            Some(i) => i < haystack@.len() && haystack@[i as int] == needle
                && forall|j: int| 0 <= j < i ==> haystack@[j] != needle,
            None => forall|j: int| 0 <= j < haystack@.len() ==> haystack@[j] != needle,
        },
{
    memchr::memchr(needle, haystack)
}

/// Finds the last occurrence of one byte with `memchr::memrchr`.
///
/// Trusted: `memrchr` returns the largest index holding the byte, or `None`
/// when the byte does not occur, as its documentation states.
#[verifier::external_body]
pub fn find_last_byte(needle: u8, haystack: &[u8]) -> (found: Option<usize>)
    ensures
        match found {
            Some(i) => i < haystack@.len() && haystack@[i as int] == needle
                && forall|j: int| i < j < haystack@.len() ==> haystack@[j] != needle,
            None => forall|j: int| 0 <= j < haystack@.len() ==> haystack@[j] != needle,
        },
{
    memchr::memrchr(needle, haystack)
}

/// Lexicographic order on byte strings: `left` sorts strictly before `right`.
pub open spec fn bytes_lt(left: Seq<u8>, right: Seq<u8>) -> bool
    decreases left.len(),
{
    if left.len() == 0 {
        right.len() > 0
    } else if right.len() == 0 {
        false
    } else if left[0] != right[0] {
        left[0] < right[0]
    } else {
        bytes_lt(left.drop_first(), right.drop_first())
    }
}

/// Byte order is irreflexive.
pub proof fn lemma_bytes_lt_irreflexive(a: Seq<u8>)
    ensures
        !bytes_lt(a, a),
    decreases a.len(),
{
    if a.len() > 0 {
        lemma_bytes_lt_irreflexive(a.drop_first());
    }
}

/// Byte order is transitive.
pub proof fn lemma_bytes_lt_transitive(a: Seq<u8>, b: Seq<u8>, c: Seq<u8>)
    requires
        bytes_lt(a, b),
        bytes_lt(b, c),
    ensures
        bytes_lt(a, c),
    decreases a.len(),
{
    if a.len() > 0 && b.len() > 0 && c.len() > 0 && a[0] == b[0] && b[0] == c[0] {
        lemma_bytes_lt_transitive(a.drop_first(), b.drop_first(), c.drop_first());
    }
}

/// Of two byte strings, at most one sorts before the other, and of two
/// distinct ones, one does.
pub proof fn lemma_bytes_lt_asymmetric(a: Seq<u8>, b: Seq<u8>)
    ensures
        !(bytes_lt(a, b) && bytes_lt(b, a)),
        a != b ==> bytes_lt(a, b) || bytes_lt(b, a),
    decreases a.len(),
{
    if a.len() > 0 && b.len() > 0 && a[0] == b[0] {
        lemma_bytes_lt_asymmetric(a.drop_first(), b.drop_first());
        if a != b {
            assert(a.drop_first() != b.drop_first()) by {
                if a.drop_first() == b.drop_first() {
                    assert(a =~= seq![a[0]] + a.drop_first());
                    assert(b =~= seq![b[0]] + b.drop_first());
                }
            }
        }
    } else if a.len() == 0 && b.len() == 0 {
        assert(a =~= b);
    }
}

/// Three-way comparison of byte strings: -1, 0 or 1.
pub open spec fn bytes_order(left: Seq<u8>, right: Seq<u8>) -> int {
    if left == right {
        0
    } else if bytes_lt(left, right) {
        -1
    } else {
        1
    }
}

proof fn lemma_bytes_lt_suffix(left: Seq<u8>, right: Seq<u8>, k: int)
    requires
        0 <= k <= left.len(),
        k <= right.len(),
        left.subrange(0, k) == right.subrange(0, k),
    ensures
        bytes_lt(left, right) == bytes_lt(left.subrange(k, left.len() as int), right.subrange(k, right.len() as int)),
    decreases k,
{
    if k > 0 {
        assert(left[0] == left.subrange(0, k)[0]);
        assert(right[0] == right.subrange(0, k)[0]);
        assert(left.drop_first().subrange(0, k - 1) =~= left.subrange(0, k).drop_first());
        assert(right.drop_first().subrange(0, k - 1) =~= right.subrange(0, k).drop_first());
        lemma_bytes_lt_suffix(left.drop_first(), right.drop_first(), k - 1);
        assert(left.drop_first().subrange(k - 1, left.len() - 1) =~= left.subrange(k, left.len() as int));
        assert(right.drop_first().subrange(k - 1, right.len() - 1) =~= right.subrange(k, right.len() as int));
    } else {
        assert(left.subrange(0, left.len() as int) =~= left);
        assert(right.subrange(0, right.len() as int) =~= right);
    }
}

/// Lexicographic byte comparison: -1, 0 or 1 as `left` sorts before, equal
/// to, or after `right`.
pub fn compare_bytes(left: &[u8], right: &[u8]) -> (order: i8)
    ensures
        order as int == bytes_order(left@, right@),
{
    let mut i: usize = 0;
    while i < left.len() && i < right.len()
        invariant
            i <= left@.len(),
            i <= right@.len(),
            left@.subrange(0, i as int) == right@.subrange(0, i as int),
        decreases left@.len() - i,
    {
        if left[i] != right[i] {
            proof {
                lemma_bytes_lt_suffix(left@, right@, i as int);
                let l = left@.subrange(i as int, left@.len() as int);
                let r = right@.subrange(i as int, right@.len() as int);
                assert(l[0] == left@[i as int]);
                assert(r[0] == right@[i as int]);
                assert(left@ != right@ || left@[i as int] == right@[i as int]);
            }
            if left[i] < right[i] {
                return -1;
            } else {
                return 1;
            }
        }
        i = i + 1;
        proof {
            assert(left@.subrange(0, i as int) =~= left@.subrange(0, i - 1).push(left@[i - 1]));
            assert(right@.subrange(0, i as int) =~= right@.subrange(0, i - 1).push(right@[i - 1]));
        }
    }
    proof {
        lemma_bytes_lt_suffix(left@, right@, i as int);
        let l = left@.subrange(i as int, left@.len() as int);
        let r = right@.subrange(i as int, right@.len() as int);
        if left@.len() == right@.len() {
            assert(left@ =~= left@.subrange(0, i as int));
            assert(right@ =~= right@.subrange(0, i as int));
        } else if i == left@.len() {
            assert(l.len() == 0);
            assert(left@ != right@);
        } else {
            assert(r.len() == 0);
            assert(left@ != right@);
        }
    }
    if left.len() == right.len() {
        0
    } else if left.len() < right.len() {
        -1
    } else {
        1
    }
}

/// An ASCII text encodes to its own bytes.
pub proof fn lemma_ascii_bytes(chars: Seq<char>, bytes: Seq<u8>)
    requires
        chars.len() == bytes.len(),
        forall|i: int| 0 <= i < chars.len() ==> (#[trigger] bytes[i]) < 128 && chars[i] as u32 == bytes[i] as u32,
    ensures
        encode_utf8(chars) == bytes,
    decreases chars.len(),
{
    if chars.len() > 0 {
        assert forall|i: int| 0 <= i < chars.drop_first().len() implies (#[trigger] bytes.drop_first()[i]) < 128
            && chars.drop_first()[i] as u32 == bytes.drop_first()[i] as u32 by {
            assert(bytes.drop_first()[i] == bytes[i + 1] && chars.drop_first()[i] == chars[i + 1]);
        }
        lemma_ascii_bytes(chars.drop_first(), bytes.drop_first());
        let c = chars[0] as u32;
        assert(bytes[0] < 128);
        assert(c < 128);
        assert((c & 0x7Fu32) == c) by (bit_vector)
            requires
                c < 128u32;
        assert(encode_utf8(chars) =~= bytes);
    }
}

} // verus!

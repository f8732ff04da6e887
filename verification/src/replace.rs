//! Replacement templates: `$name`, `${name}`, `$1` and `$$`, expanded
//! against one match under a byte limit.
use vstd::prelude::*;
use vstd::utf8::encode_utf8;
use crate::text::{compare_bytes, find_byte, push_bytes};

verus! {

/// Capture groups of one regex match, as plain byte ranges.
pub struct GroupLookup {
    /// The range of each group of the matched pattern, group 0 first;
    /// `None` for a group that took no part in the match.
    pub groups: Vec<Option<(usize, usize)>>,
    /// The name of each group of the matched pattern, in group order.
    pub names: Vec<Option<Vec<u8>>>,
}

/// The mathematical form of a group lookup.
pub struct SpecLookup {
    pub groups: Seq<Option<(usize, usize)>>,
    pub names: Seq<Option<Seq<u8>>>,
}

/// The view of one optional group name.
pub open spec fn name_view(name: Option<Vec<u8>>) -> Option<Seq<u8>> {
    match name {
        Some(bytes) => Some(bytes@),
        None => None,
    }
}

impl GroupLookup {
    /// The mathematical form of this lookup.
    pub open spec fn view(&self) -> SpecLookup {
        SpecLookup { groups: self.groups@, names: self.names@.map_values(|name: Option<Vec<u8>>| name_view(name)) }
    }
}

/// Every group lies inside a haystack of `len` bytes.
pub open spec fn groups_within(groups: Seq<Option<(usize, usize)>>, len: int) -> bool {
    forall|i: int| 0 <= i < groups.len() ==> (#[trigger] groups[i] matches Some(range) ==> range.0 <= range.1 <= len)
}

/// Bytes that may appear in a `$name` reference.
pub open spec fn is_name_byte(b: u8) -> bool {
    (48 <= b <= 57) || (65 <= b <= 90) || (97 <= b <= 122) || b == 95
}

/// The end of the run of name bytes that starts at `j`.
pub open spec fn name_end(t: Seq<u8>, j: int) -> int
    decreases t.len() - j,
{
    if 0 <= j < t.len() && is_name_byte(t[j]) {
        name_end(t, j + 1)
    } else {
        j
    }
}

/// The first `}` at or after `j`.
pub open spec fn close_brace(t: Seq<u8>, j: int) -> Option<int>
    decreases t.len() - j,
{
    if j < 0 || j >= t.len() {
        None
    } else if t[j] == 125 {
        Some(j)
    } else {
        close_brace(t, j + 1)
    }
}

pub proof fn lemma_name_end(t: Seq<u8>, j: int)
    requires
        0 <= j <= t.len(),
    ensures
        j <= name_end(t, j) <= t.len(),
        forall|k: int| j <= k < name_end(t, j) ==> is_name_byte(#[trigger] t[k]),
        name_end(t, j) < t.len() ==> !is_name_byte(t[name_end(t, j)]),
    decreases t.len() - j,
{
    if j < t.len() && is_name_byte(t[j]) {
        lemma_name_end(t, j + 1);
    }
}

pub proof fn lemma_close_brace(t: Seq<u8>, j: int)
    requires
        0 <= j,
    ensures
        match close_brace(t, j) {
            Some(e) => j <= e < t.len() && t[e] == 125 && forall|k: int| j <= k < e ==> #[trigger] t[k] != 125,
            None => forall|k: int| j <= k < t.len() ==> #[trigger] t[k] != 125,
        },
    decreases t.len() - j,
{
    if j < t.len() && t[j] != 125 {
        lemma_close_brace(t, j + 1);
    }
}

/// The value of a run of ASCII decimal digits.
pub open spec fn digits_value(d: Seq<u8>) -> nat
    decreases d.len(),
{
    if d.len() == 0 {
        0
    } else {
        digits_value(d.drop_last()) * 10 + (d.last() - 48) as nat
    }
}

/// A non-empty run of ASCII decimal digits.
pub open spec fn all_digits(d: Seq<u8>) -> bool {
    d.len() > 0 && forall|i: int| 0 <= i < d.len() ==> 48 <= #[trigger] d[i] <= 57
}

/// The digits of a reference after an optional `+`.
pub open spec fn unsigned_digits(r: Seq<u8>) -> Seq<u8> {
    if r.len() > 0 && r[0] == 43 {
        r.drop_first()
    } else {
        r
    }
}

/// What `str::parse::<usize>` gives for a reference: an optional `+`,
/// then digits whose value fits in `usize`.
pub open spec fn parse_index(r: Seq<u8>) -> Option<nat> {
    let d = unsigned_digits(r);
    if all_digits(d) && digits_value(d) <= usize::MAX {
        Some(digits_value(d))
    } else {
        None
    }
}

/// The first group at or after `k` named `name`.
pub open spec fn name_position(names: Seq<Option<Seq<u8>>>, name: Seq<u8>, k: int) -> Option<int>
    decreases names.len() - k,
{
    if k < 0 || k >= names.len() {
        None
    } else if names[k] == Some(name) {
        Some(k)
    } else {
        name_position(names, name, k + 1)
    }
}

/// The range a group reference stands for: a numbered or named group of
/// the lookup, or, without one, the whole match for group 0 only.
pub open spec fn capture_span(reference: Seq<u8>, matched: (usize, usize), lookup: Option<SpecLookup>) -> Option<(usize, usize)> {
    match parse_index(reference) {
        Some(index) => match lookup {
            Some(groups) => if index < groups.groups.len() { groups.groups[index as int] } else { None },
            None => if index == 0 { Some(matched) } else { None },
        },
        None => match lookup {
            Some(groups) => match name_position(groups.names, reference, 0) {
                Some(k) => if k < groups.groups.len() { groups.groups[k] } else { None },
                None => None,
            },
            None => None,
        },
    }
}

/// The bytes a group reference expands to.
pub open spec fn group_text(haystack: Seq<u8>, reference: Seq<u8>, matched: (usize, usize), lookup: Option<SpecLookup>) -> Seq<u8> {
    match capture_span(reference, matched, lookup) {
        Some(range) => haystack.subrange(range.0 as int, range.1 as int),
        None => Seq::empty(),
    }
}

/// The expansion of the template `t` from byte `i` on.
pub open spec fn expand(t: Seq<u8>, i: int, haystack: Seq<u8>, matched: (usize, usize), lookup: Option<SpecLookup>) -> Seq<u8>
    decreases t.len() - i,
{
    if i < 0 || i >= t.len() {
        Seq::empty()
    } else if t[i] != 36 {
        seq![t[i]] + expand(t, i + 1, haystack, matched, lookup)
    } else if i + 1 < t.len() && t[i + 1] == 36 {
        seq![36u8] + expand(t, i + 2, haystack, matched, lookup)
    } else if i + 1 < t.len() && t[i + 1] == 123 {
        match close_brace(t, i + 2) {
            None => seq![36u8] + expand(t, i + 1, haystack, matched, lookup),
            Some(e) => {
                proof {
                    lemma_close_brace(t, i + 2);
                }
                group_text(haystack, t.subrange(i + 2, e), matched, lookup) + expand(t, e + 1, haystack, matched, lookup)
            },
        }
    } else {
        proof {
            lemma_name_end(t, i + 1);
        }
        let e = name_end(t, i + 1);
        if e == i + 1 {
            seq![36u8] + expand(t, i + 1, haystack, matched, lookup)
        } else {
            group_text(haystack, t.subrange(i + 1, e), matched, lookup) + expand(t, e, haystack, matched, lookup)
        }
    }
}

proof fn lemma_expand_plain(t: Seq<u8>, c: int, d: int, haystack: Seq<u8>, matched: (usize, usize), lookup: Option<SpecLookup>)
    requires
        0 <= c <= d <= t.len(),
        forall|k: int| c <= k < d ==> #[trigger] t[k] != 36,
    ensures
        expand(t, c, haystack, matched, lookup) == t.subrange(c, d) + expand(t, d, haystack, matched, lookup),
    decreases d - c,
{
    if c < d {
        lemma_expand_plain(t, c + 1, d, haystack, matched, lookup);
        assert(t.subrange(c, d) =~= seq![t[c]] + t.subrange(c + 1, d));
    } else {
        assert(t.subrange(c, d) =~= Seq::<u8>::empty());
    }
}

proof fn lemma_name_position(names: Seq<Option<Seq<u8>>>, name: Seq<u8>, k: int)
    requires
        0 <= k,
    ensures
        name_position(names, name, k) matches Some(p) ==> k <= p < names.len() && names[p] == Some(name),
    decreases names.len() - k,
{
    if k < names.len() && names[k] != Some(name) {
        lemma_name_position(names, name, k + 1);
    }
}

/// The view of an optional lookup.
pub open spec fn lookup_view(lookup: Option<&GroupLookup>) -> Option<SpecLookup> {
    match lookup {
        Some(groups) => Some(groups.view()),
        None => None,
    }
}

/// The first group named `name`.
fn find_name(names: &Vec<Option<Vec<u8>>>, name: &[u8]) -> (position: Option<usize>)
    ensures
        match position {
            Some(p) => name_position(names@.map_values(|n: Option<Vec<u8>>| name_view(n)), name@, 0) == Some(p as int),
            None => name_position(names@.map_values(|n: Option<Vec<u8>>| name_view(n)), name@, 0) is None,
        },
{
    let ghost views = names@.map_values(|n: Option<Vec<u8>>| name_view(n));
    let mut k: usize = 0;
    while k < names.len()
        invariant
            k <= names@.len(),
            views == names@.map_values(|n: Option<Vec<u8>>| name_view(n)),
            name_position(views, name@, 0) == name_position(views, name@, k as int),
        decreases names@.len() - k,
    {
        let matches = match &names[k] {
            Some(candidate) => compare_bytes(candidate.as_slice(), name) == 0,
            None => false,
        };
        if matches {
            return Some(k);
        }
        k = k + 1;
    }
    None
}

/// The range a group reference names, as the reference resolution of
/// replacement templates does.
pub fn capture_range(reference: &[u8], matched: (usize, usize), lookup: Option<&GroupLookup>) -> (range: Option<(usize, usize)>)
    ensures
        range == capture_span(reference@, matched, lookup_view(lookup)),
{
    proof {
        if let Some(groups) = lookup {
            lemma_name_position(groups.view().names, reference@, 0);
            assert(groups.view().names == groups.names@.map_values(|n: Option<Vec<u8>>| name_view(n)));
        }
    }
    let parsed = parse_group_index(reference);
    match parsed {
        Some(index) => {
            assert(parse_index(reference@) == Some(index as nat));
            match lookup {
                Some(groups) => {
                    assert(lookup_view(lookup) == Some(groups.view()));
                    if index < groups.groups.len() {
                        let range = groups.groups[index];
                        assert(range == groups.view().groups[index as int]);
                        assert(capture_span(reference@, matched, lookup_view(lookup)) == groups.view().groups[index as int]);
                        range
                    } else {
                        None
                    }
                },
                None => {
                    assert(lookup_view(lookup) is None);
                    if index == 0 {
                        assert(capture_span(reference@, matched, lookup_view(lookup)) == Some(matched));
                        Some(matched)
                    } else {
                        None
                    }
                },
            }
        },
        None => {
            assert(parse_index(reference@) is None);
            match lookup {
                Some(groups) => {
                    let found = find_name(&groups.names, reference);
                    match found {
                        Some(k) => if k < groups.groups.len() {
                            groups.groups[k]
                        } else {
                            None
                        },
                        None => None,
                    }
                },
                None => None,
            }
        },
    }
}

/// The expansion of a whole template for one match.
pub open spec fn expansion(template: Seq<char>, haystack: Seq<u8>, matched: (usize, usize), lookup: Option<SpecLookup>) -> Seq<u8> {
    expand(encode_utf8(template), 0, haystack, matched, lookup)
}

/// What one `$` of a template contributes.
pub enum DollarPiece {
    /// A literal dollar sign.
    Sign,
    /// The bytes of a group, or nothing for a group that did not match.
    Group(Option<(usize, usize)>),
}

/// The bytes a piece stands for.
pub open spec fn piece_bytes(piece: DollarPiece, haystack: Seq<u8>) -> Seq<u8> {
    match piece {
        DollarPiece::Sign => seq![36u8],
        DollarPiece::Group(Some(range)) => haystack.subrange(range.0 as int, range.1 as int),
        DollarPiece::Group(None) => Seq::empty(),
    }
}

proof fn lemma_capture_span_within(reference: Seq<u8>, matched: (usize, usize), lookup: Option<SpecLookup>, len: int)
    requires
        matched.0 <= matched.1 <= len,
        lookup matches Some(groups) ==> groups_within(groups.groups, len),
    ensures
        capture_span(reference, matched, lookup) matches Some(range) ==> range.0 <= range.1 <= len,
{
    match lookup {
        Some(groups) => {
            lemma_name_position(groups.names, reference, 0);
            match parse_index(reference) {
                Some(index) => {
                    if index < groups.groups.len() {
                        assert(groups.groups[index as int] == groups.groups[index as int]);
                    }
                }
                None => {
                    match name_position(groups.names, reference, 0) {
                        Some(k) => {
                            if 0 <= k < groups.groups.len() {
                                assert(groups.groups[k] == groups.groups[k]);
                            }
                        }
                        None => {}
                    }
                }
            }
        }
        None => {}
    }
}

/// Reads the reference that starts at the `$` at `dollar`: what it
/// contributes and where the template continues.
fn dollar_piece(bytes: &[u8], dollar: usize, matched: (usize, usize), lookup: Option<&GroupLookup>, Ghost(haystack): Ghost<Seq<u8>>) -> (step: (DollarPiece, usize))
    requires
        dollar < bytes@.len(),
        bytes@[dollar as int] == 36,
        matched.0 <= matched.1 <= haystack.len(),
        lookup matches Some(groups) ==> groups_within(groups.groups@, haystack.len() as int),
    ensures
        dollar < step.1 <= bytes@.len(),
        step.0 matches DollarPiece::Group(Some(range)) ==> range.0 <= range.1 <= haystack.len(),
        expand(bytes@, dollar as int, haystack, matched, lookup_view(lookup))
            == piece_bytes(step.0, haystack) + expand(bytes@, step.1 as int, haystack, matched, lookup_view(lookup)),
{
    let ghost t = bytes@;
    let ghost lv = lookup_view(lookup);
    let len = bytes.len();
    if dollar + 1 < len && bytes[dollar + 1] == 36u8 {
        return (DollarPiece::Sign, dollar + 2);
    }
    if dollar + 1 < len && bytes[dollar + 1] == 123u8 {
        let start = dollar + 2;
        let after = &bytes[start..bytes.len()];
        proof {
            lemma_close_brace(t, start as int);
        }
        match find_byte(125u8, after) {
            None => {
                proof {
                    assert forall|k: int| start <= k < t.len() implies #[trigger] t[k] != 125 by {
                        assert(after@[k - start] == t[k]);
                    }
                    assert(close_brace(t, start as int) is None);
                }
                return (DollarPiece::Sign, dollar + 1);
            }
            Some(end_relative) => {
                let end = start + end_relative;
                proof {
                    assert forall|k: int| start <= k < end implies #[trigger] t[k] != 125 by {
                        assert(after@[k - start] == t[k]);
                    }
                    assert(t[end as int] == after@[end_relative as int]);
                    assert(close_brace(t, start as int) == Some(end as int));
                    lemma_capture_span_within(t.subrange(start as int, end as int), matched, lv, haystack.len() as int);
                }
                let range = capture_range(&bytes[start..end], matched, lookup);
                return (DollarPiece::Group(range), end + 1);
            }
        }
    }
    let start = dollar + 1;
    let mut end = start;
    proof {
        lemma_name_end(t, start as int);
    }
    while end < bytes.len() && ((48u8 <= bytes[end] && bytes[end] <= 57u8) || (65u8 <= bytes[end] && bytes[end] <= 90u8)
        || (97u8 <= bytes[end] && bytes[end] <= 122u8) || bytes[end] == 95u8)
        invariant
            start <= end <= t.len(),
            t == bytes@,
            name_end(t, start as int) == name_end(t, end as int),
        decreases t.len() - end,
    {
        end = end + 1;
    }
    if start == end {
        return (DollarPiece::Sign, dollar + 1);
    }
    proof {
        lemma_capture_span_within(t.subrange(start as int, end as int), matched, lv, haystack.len() as int);
    }
    let range = capture_range(&bytes[start..end], matched, lookup);
    (DollarPiece::Group(range), end)
}

/// Appends the expansion of `replacement` for the match `matched`: `$$`
/// is a dollar sign, `$name` and `${name}` a numbered or named group, and
/// a `$` that starts no reference stands for itself. Nothing more is
/// appended once the output would pass `limit`; `exceeded` then says so.
pub fn append_replacement(
    output: &mut Vec<u8>,
    replacement: &str,
    haystack: &[u8],
    matched: (usize, usize),
    lookup: Option<&GroupLookup>,
    limit: usize,
    exceeded: &mut bool,
)
    requires
        matched.0 <= matched.1 <= haystack@.len(),
        lookup matches Some(groups) ==> groups_within(groups.groups@, haystack@.len() as int),
        old(output)@.len() <= limit,
    ensures
        *old(exceeded) ==> *final(exceeded) && final(output)@ == old(output)@,
        !*old(exceeded) ==> (*final(exceeded) <==> old(output)@.len()
            + expansion(replacement@, haystack@, matched, lookup_view(lookup)).len() > limit),
        !*final(exceeded) ==> final(output)@ == old(output)@ + expansion(replacement@, haystack@, matched, lookup_view(lookup))
            && final(output)@.len() <= limit,
{
    let bytes = replacement.as_bytes();
    let ghost t = bytes@;
    let ghost lv = lookup_view(lookup);
    let ghost full = expand(t, 0, haystack@, matched, lv);
    let mut cursor: usize = 0;
    let sign: [u8; 1] = [36u8];
    while cursor < bytes.len() && !*exceeded
        invariant
            t == bytes@,
            t == encode_utf8(replacement@),
            lv == lookup_view(lookup),
            full == expand(t, 0, haystack@, matched, lv),
            sign@ == seq![36u8],
            matched.0 <= matched.1 <= haystack@.len(),
            lookup matches Some(groups) ==> groups_within(groups.groups@, haystack@.len() as int),
            cursor <= t.len(),
            *old(exceeded) ==> *exceeded && output@ == old(output)@,
            !*exceeded ==> output@ + expand(t, cursor as int, haystack@, matched, lv) == old(output)@ + full
                && output@.len() <= limit,
            *exceeded && !*old(exceeded) ==> old(output)@.len() + full.len() > limit,
        decreases (t.len() - cursor) * 2 + if *exceeded { 0int } else { 1int },
    {
        let rest = &bytes[cursor..bytes.len()];
        match find_byte(36u8, rest) {
            None => {
                proof {
                    assert forall|k: int| cursor <= k < t.len() implies #[trigger] t[k] != 36 by {
                        assert(rest@[k - cursor] == t[k]);
                    }
                    lemma_expand_plain(t, cursor as int, t.len() as int, haystack@, matched, lv);
                    assert(t.subrange(cursor as int, t.len() as int) =~= rest@);
                    assert(expand(t, t.len() as int, haystack@, matched, lv) =~= Seq::<u8>::empty());
                    assert(rest@ + Seq::<u8>::empty() =~= rest@);
                }
                let ghost entry = output@;
                append_bounded(output, rest, limit, exceeded);
                proof {
                    assert((entry + rest@).len() == entry.len() + rest@.len());
                    assert(*exceeded ==> old(output)@.len() + full.len() > limit);
                }
                cursor = bytes.len();
            }
            Some(relative) => {
                let dollar = cursor + relative;
                proof {
                    assert forall|k: int| cursor <= k < dollar implies #[trigger] t[k] != 36 by {
                        assert(rest@[k - cursor] == t[k]);
                    }
                    assert(t[dollar as int] == rest@[relative as int]);
                    lemma_expand_plain(t, cursor as int, dollar as int, haystack@, matched, lv);
                    assert(t.subrange(cursor as int, dollar as int) =~= bytes@.subrange(cursor as int, dollar as int));
                }
                let ghost before = output@;
                append_bounded(output, &bytes[cursor..dollar], limit, exceeded);
                proof {
                    let chunk = t.subrange(cursor as int, dollar as int);
                    let tail = expand(t, dollar as int, haystack@, matched, lv);
                    assert((chunk + tail).len() == chunk.len() + tail.len());
                    assert(old(output)@ + full == before + (chunk + tail));
                    assert((old(output)@ + full).len() == old(output)@.len() + full.len());
                    assert((before + (chunk + tail)).len() == before.len() + (chunk + tail).len());
                    if !*exceeded {
                        assert(output@ + tail =~= before + (chunk + tail));
                    }
                    assert(*exceeded ==> old(output)@.len() + full.len() > limit);
                }
                if !*exceeded {
                    let step = dollar_piece(bytes, dollar, matched, lookup, Ghost(haystack@));
                    let ghost middle = output@;
                    proof {
                        let piece = piece_bytes(step.0, haystack@);
                        let tail = expand(t, step.1 as int, haystack@, matched, lv);
                        assert((piece + tail).len() == piece.len() + tail.len());
                        assert(middle + (piece + tail) =~= (middle + piece) + tail);
                    }
                    match step.0 {
                        DollarPiece::Sign => {
                            append_bounded(output, &sign, limit, exceeded);
                        }
                        DollarPiece::Group(Some(range)) => {
                            proof {
                                assert(haystack@.subrange(range.0 as int, range.1 as int) =~= piece_bytes(step.0, haystack@));
                            }
                            append_bounded(output, &haystack[range.0..range.1], limit, exceeded);
                        }
                        DollarPiece::Group(None) => {
                            assert(piece_bytes(step.0, haystack@) =~= Seq::<u8>::empty());
                            assert(middle + Seq::<u8>::empty() =~= middle);
                        }
                    }
                    proof {
                        let piece = piece_bytes(step.0, haystack@);
                        let tail = expand(t, step.1 as int, haystack@, matched, lv);
                        assert(old(output)@ + full == middle + (piece + tail));
                        assert((old(output)@ + full).len() == old(output)@.len() + full.len());
                        if !*exceeded {
                            assert(output@ == middle + piece);
                            assert(output@ + tail =~= old(output)@ + full);
                        }
                        assert(*exceeded ==> old(output)@.len() + full.len() > limit);
                    }
                    cursor = step.1;
                } else {
                    cursor = dollar;
                }
            }
        }
    }
    proof {
        if !*exceeded {
            assert(expand(t, cursor as int, haystack@, matched, lv) == Seq::<u8>::empty());
            assert(output@ =~= old(output)@ + full);
        }
    }
}

/// Appends `bytes` unless that would take `output` past `limit`, in which
/// case `exceeded` is set and nothing is appended.
pub fn append_bounded(output: &mut Vec<u8>, bytes: &[u8], limit: usize, exceeded: &mut bool)
    ensures
        old(output)@.len() + bytes@.len() > limit ==> *final(exceeded) && final(output)@ == old(output)@,
        old(output)@.len() + bytes@.len() <= limit ==> *final(exceeded) == *old(exceeded)
            && final(output)@ == old(output)@ + bytes@,
{
    if output.len() > limit || bytes.len() > limit - output.len() {
        *exceeded = true;
        return;
    }
    push_bytes(output, bytes);
}

/// Parses a group number as `str::parse::<usize>` does.
pub fn parse_group_index(reference: &[u8]) -> (index: Option<usize>)
    ensures
        match parse_index(reference@) {
            Some(value) => index == Some(value as usize),
            None => index is None,
        },
{
    let mut start: usize = 0;
    if reference.len() > 0 && reference[0] == 43u8 {
        start = 1;
    }
    let ghost digits = unsigned_digits(reference@);
    proof {
        assert(digits =~= reference@.subrange(start as int, reference@.len() as int));
    }
    if start >= reference.len() {
        return None;
    }
    let mut value: usize = 0;
    let mut i: usize = start;
    while i < reference.len()
        invariant
            start <= i <= reference@.len(),
            start < reference@.len(),
            digits == reference@.subrange(start as int, reference@.len() as int),
            digits == unsigned_digits(reference@),
            forall|k: int| start <= k < i ==> 48 <= #[trigger] reference@[k] <= 57,
            value as nat == digits_value(reference@.subrange(start as int, i as int)),
        decreases reference@.len() - i,
    {
        let byte = reference[i];
        if byte < 48u8 || byte > 57u8 {
            proof {
                assert(digits[i - start] == byte);
            }
            return None;
        }
        let ghost prefix = reference@.subrange(start as int, i as int);
        let ghost next = reference@.subrange(start as int, i + 1);
        proof {
            assert(next.drop_last() =~= prefix);
            assert(next.last() == byte);
            assert(digits.subrange(0, i + 1 - start) =~= next);
            assert(digits_value(next) == digits_value(prefix) * 10 + (byte - 48) as nat);
        }
        let digit: usize = (byte - 48u8) as usize;
        match value.checked_mul(10) {
            Some(tens) => match tens.checked_add(digit) {
                Some(total) => {
                    value = total;
                }
                None => {
                    proof {
                        lemma_digits_grow(digits, (i + 1 - start) as int);
                    }
                    return None;
                }
            },
            None => {
                proof {
                    lemma_digits_grow(digits, (i + 1 - start) as int);
                }
                return None;
            }
        }
        i = i + 1;
    }
    proof {
        assert(reference@.subrange(start as int, i as int) =~= digits);
    }
    Some(value)
}

proof fn lemma_digits_grow(d: Seq<u8>, n: int)
    requires
        0 <= n <= d.len(),
    ensures
        all_digits(d) ==> digits_value(d.subrange(0, n)) <= digits_value(d),
    decreases d.len() - n,
{
    if n < d.len() && all_digits(d) {
        lemma_digits_grow(d, n + 1);
        let longer = d.subrange(0, n + 1);
        assert(longer.drop_last() =~= d.subrange(0, n));
        assert(digits_value(longer) == digits_value(d.subrange(0, n)) * 10 + (longer.last() - 48) as nat);
        assert(digits_value(d.subrange(0, n)) <= digits_value(d.subrange(0, n)) * 10) by (nonlinear_arith);
    } else if n == d.len() {
        assert(d.subrange(0, n) =~= d);
    }
}

} // verus!

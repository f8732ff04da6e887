//! Stable built-in report serialization: grep-style text and JSON Lines.
use vstd::prelude::*;
use vstd::utf8::encode_utf8;
use crate::report::{ContextLine, IndexEvidence, MatchSpan, MatchedFile, SearchBackend, SearchMatch, SearchReport, SearchWarning, SearchWarningKind};
use crate::options::ResultMode;
use crate::text::{append_decimal, decimal, decimal_chars, push_bytes, push_decimal};
use vstd::utf8::{is_char_boundary, valid_utf8};

verus! {

/// Stable built-in report serialization.
#[derive(Debug, Clone, Copy, PartialEq, Eq, Structural, Default)]
pub enum OutputFormat {
    /// Grep-style deterministic text records.
    #[default]
    Text,
    /// Self-contained newline-delimited JSON records.
    JsonLines,
}

/// ANSI color policy for deterministic text output.
#[derive(Debug, Clone, Copy, PartialEq, Eq, Structural, Default)]
pub enum ColorChoice {
    /// Never write ANSI escape sequences.
    #[default]
    Never,
    /// Highlight paths, line numbers, and matching spans.
    Always,
}

/// Presentation policy for built-in report serialization.
#[derive(Debug, Clone, Copy, PartialEq, Eq, Structural)]
pub struct OutputOptions {
    /// Text or JSON Lines serialization.
    pub format: OutputFormat,
    /// Print one path heading followed by line records.
    pub heading: bool,
    /// Include one-based line numbers in text records.
    pub line_number: bool,
    /// Include one-based UTF-8 byte columns for matching records.
    pub column: bool,
    /// Emit each matched substring instead of its complete matching line.
    pub only_matching: bool,
    /// Terminate file paths with NUL in text output.
    pub null: bool,
    /// ANSI color policy for text output.
    pub color: ColorChoice,
}

impl OutputOptions {
    /// The presentation used when nothing else is configured.
    pub open spec fn spec_default() -> OutputOptions {
        OutputOptions {
            format: OutputFormat::Text,
            heading: false,
            line_number: true,
            column: false,
            only_matching: false,
            null: false,
            color: ColorChoice::Never,
        }
    }
}

impl Default for OutputOptions {
    fn default() -> (options: Self)
        ensures
            options == OutputOptions::spec_default(),
    {
        OutputOptions {
            format: OutputFormat::Text,
            heading: false,
            line_number: true,
            column: false,
            only_matching: false,
            null: false,
            color: ColorChoice::Never,
        }
    }
}

/// The UTF-8 bytes of a string slice.
pub open spec fn lit(s: &str) -> Seq<u8> {
    encode_utf8(s@)
}

/// The UTF-8 bytes of a string.
pub open spec fn utf8(s: String) -> Seq<u8> {
    encode_utf8(s@)
}

/// Appends the UTF-8 bytes of a string slice.
pub fn push_str(out: &mut Vec<u8>, s: &str)
    ensures
        final(out)@ == old(out)@ + lit(s),
{
    push_bytes(out, s.as_bytes());
}

/// `true` or `false`.
pub open spec fn boolean(b: bool) -> Seq<u8> {
    if b { lit("true") } else { lit("false") }
}

fn push_bool(out: &mut Vec<u8>, b: bool)
    ensures
        final(out)@ == old(out)@ + boolean(b),
{
    if b {
        push_str(out, "true");
    } else {
        push_str(out, "false");
    }
}

/// The decimal form of a number.
pub open spec fn number(n: nat) -> Seq<u8> {
    decimal(n)
}

/// A lowercase hexadecimal digit.
pub open spec fn hex_digit(d: u8) -> u8 {
    if d < 10 { (48 + d) as u8 } else { (87 + d) as u8 }
}

/// The JSON escape of one byte of UTF-8 text: quote, backslash and control
/// characters are escaped; every other byte is kept.
pub open spec fn escape_byte(b: u8) -> Seq<u8> {
    if b == 34 {
        seq![92u8, 34u8]
    } else if b == 92 {
        seq![92u8, 92u8]
    } else if b == 8 {
        seq![92u8, 98u8]
    } else if b == 12 {
        seq![92u8, 102u8]
    } else if b == 10 {
        seq![92u8, 110u8]
    } else if b == 13 {
        seq![92u8, 114u8]
    } else if b == 9 {
        seq![92u8, 116u8]
    } else if b <= 31 {
        seq![92u8, 117u8, 48u8, 48u8, hex_digit(b / 16), hex_digit(b % 16)]
    } else {
        seq![b]
    }
}

/// The JSON escape of UTF-8 text.
pub open spec fn json_escape(bytes: Seq<u8>) -> Seq<u8>
    decreases bytes.len(),
{
    if bytes.len() == 0 {
        Seq::empty()
    } else {
        json_escape(bytes.drop_last()) + escape_byte(bytes.last())
    }
}

/// A JSON string literal of UTF-8 text.
pub open spec fn json_string(bytes: Seq<u8>) -> Seq<u8> {
    seq![34u8] + json_escape(bytes) + seq![34u8]
}

/// The value of a hexadecimal digit, if `c` is one.
pub open spec fn hex_value(c: u8) -> Option<u8> {
    if 48 <= c <= 57 {
        Some((c - 48) as u8)
    } else if 97 <= c <= 102 {
        Some((c - 87) as u8)
    } else if 65 <= c <= 70 {
        Some((c - 55) as u8)
    } else {
        None
    }
}

/// `b` followed by the text `rest` denotes, if it denotes one.
pub open spec fn then_text(b: u8, rest: Option<Seq<u8>>) -> Option<Seq<u8>> {
    match rest {
        Some(text) => Some(seq![b] + text),
        None => None,
    }
}

/// The byte a two-character JSON escape `\e` stands for.
pub open spec fn short_escape(e: u8) -> Option<u8> {
    if e == 34 {
        Some(34u8)
    } else if e == 92 {
        Some(92u8)
    } else if e == 47 {
        Some(47u8)
    } else if e == 98 {
        Some(8u8)
    } else if e == 102 {
        Some(12u8)
    } else if e == 110 {
        Some(10u8)
    } else if e == 114 {
        Some(13u8)
    } else if e == 116 {
        Some(9u8)
    } else {
        None
    }
}

/// The text the body of a JSON string literal denotes, read by the JSON
/// grammar: a bare quote or control character is malformed; a backslash
/// starts a two-character escape or a `\uXXXX` escape. Escapes of
/// characters outside ASCII are not read here, and give `None`.
pub open spec fn json_unescape(s: Seq<u8>) -> Option<Seq<u8>>
    decreases s.len(),
{
    if s.len() == 0 {
        Some(Seq::empty())
    } else if s[0] == 34 || s[0] < 32 {
        None
    } else if s[0] != 92 {
        then_text(s[0], json_unescape(s.skip(1)))
    } else if s.len() < 2 {
        None
    } else if let Some(b) = short_escape(s[1]) {
        then_text(b, json_unescape(s.skip(2)))
    } else if s[1] == 117 && s.len() >= 6 {
        match (hex_value(s[2]), hex_value(s[3]), hex_value(s[4]), hex_value(s[5])) {
            (Some(a), Some(b), Some(c), Some(d)) => {
                let code = a as int * 4096 + b as int * 256 + c as int * 16 + d as int;
                if code < 128 { then_text(code as u8, json_unescape(s.skip(6))) } else { None }
            },
            _ => None,
        }
    } else {
        None
    }
}

/// The text a JSON string literal denotes, if it is one.
pub open spec fn json_string_value(s: Seq<u8>) -> Option<Seq<u8>> {
    if s.len() >= 2 && s[0] == 34 && s[s.len() - 1] == 34 {
        json_unescape(s.subrange(1, s.len() - 1))
    } else {
        None
    }
}

/// The escape of one byte reads back as that byte, whatever follows it.
pub proof fn lemma_escape_byte_reads_back(b: u8, rest: Seq<u8>)
    ensures
        json_unescape(escape_byte(b) + rest) == then_text(b, json_unescape(rest)),
{
    let s = escape_byte(b) + rest;
    let e = escape_byte(b);
    if e.len() == 1 {
        assert(s.skip(1) =~= rest);
    } else if e.len() == 2 {
        assert(s.skip(2) =~= rest);
    } else {
        assert(s.skip(6) =~= rest);
        let high = b / 16;
        let low = b % 16;
        assert(high < 2 && low < 16);
        assert(hex_value(hex_digit(high)) == Some(high));
        assert(hex_value(hex_digit(low)) == Some(low));
        assert(b as int == high as int * 16 + low as int);
    }
}

/// Escaping text byte by byte from the front.
proof fn lemma_json_escape_concat(a: Seq<u8>, b: Seq<u8>)
    ensures
        json_escape(a + b) == json_escape(a) + json_escape(b),
    decreases b.len(),
{
    if b.len() == 0 {
        assert(a + b =~= a);
        assert(json_escape(a) + json_escape(b) =~= json_escape(a));
    } else {
        lemma_json_escape_concat(a, b.drop_last());
        assert((a + b).drop_last() =~= a + b.drop_last());
        assert((a + b).last() == b.last());
        assert(json_escape(a + b) =~= json_escape(a) + json_escape(b));
    }
}

/// JSON escaping is undone by reading the escaped text by the JSON
/// grammar: every quote, backslash and control character comes back, and
/// nothing else is added or lost.
pub proof fn lemma_json_escape_reads_back(bytes: Seq<u8>)
    ensures
        json_unescape(json_escape(bytes)) == Some(bytes),
    decreases bytes.len(),
{
    if bytes.len() > 0 {
        let first = seq![bytes[0]];
        let rest = bytes.skip(1);
        assert(bytes =~= first + rest);
        lemma_json_escape_concat(first, rest);
        assert(first.drop_last() =~= Seq::<u8>::empty());
        assert(json_escape(first.drop_last()) == Seq::<u8>::empty());
        assert(first.last() == bytes[0]);
        assert(json_escape(first) =~= escape_byte(bytes[0]));
        lemma_json_escape_reads_back(rest);
        lemma_escape_byte_reads_back(bytes[0], json_escape(rest));
        assert(seq![bytes[0]] + rest =~= bytes);
    }
}

/// Every JSON string literal written denotes exactly the text it was
/// written for.
pub proof fn lemma_json_string_reads_back(bytes: Seq<u8>)
    ensures
        json_string_value(json_string(bytes)) == Some(bytes),
{
    let s = json_string(bytes);
    lemma_json_escape_reads_back(bytes);
    assert(s.subrange(1, s.len() - 1) =~= json_escape(bytes));
}

fn push_escaped_byte(out: &mut Vec<u8>, b: u8)
    ensures
        final(out)@ == old(out)@ + escape_byte(b),
        final(out)@.subrange(0, old(out)@.len() as int) == old(out)@,
        json_unescape(final(out)@.subrange(old(out)@.len() as int, final(out)@.len() as int)) == Some(seq![b]),
{
    if b == 34u8 {
        out.push(92u8);
        out.push(34u8);
    } else if b == 92u8 {
        out.push(92u8);
        out.push(92u8);
    } else if b == 8u8 {
        out.push(92u8);
        out.push(98u8);
    } else if b == 12u8 {
        out.push(92u8);
        out.push(102u8);
    } else if b == 10u8 {
        out.push(92u8);
        out.push(110u8);
    } else if b == 13u8 {
        out.push(92u8);
        out.push(114u8);
    } else if b == 9u8 {
        out.push(92u8);
        out.push(116u8);
    } else if b <= 31u8 {
        let high = b / 16;
        let low = b % 16;
        out.push(92u8);
        out.push(117u8);
        out.push(48u8);
        out.push(48u8);
        out.push(if high < 10 { 48u8 + high } else { 87u8 + high });
        out.push(if low < 10 { 48u8 + low } else { 87u8 + low });
    } else {
        out.push(b);
    }
    proof {
        assert(final(out)@ =~= old(out)@ + escape_byte(b));
        assert(final(out)@.subrange(0, old(out)@.len() as int) =~= old(out)@);
        assert(final(out)@.subrange(old(out)@.len() as int, final(out)@.len() as int) =~= escape_byte(b) + Seq::<u8>::empty());
        lemma_escape_byte_reads_back(b, Seq::empty());
        assert(seq![b] + Seq::<u8>::empty() =~= seq![b]);
    }
}

/// Appends a JSON string literal of `value`.
pub fn push_json_string(out: &mut Vec<u8>, value: &str)
    ensures
        final(out)@ == old(out)@ + json_string(lit(value)),
        json_string_value(final(out)@.subrange(old(out)@.len() as int, final(out)@.len() as int)) == Some(lit(value)),
{
    let bytes = value.as_bytes();
    out.push(34u8);
    let ghost start = out@;
    let mut i: usize = 0;
    proof {
        assert(bytes@.subrange(0, 0) =~= Seq::<u8>::empty());
        assert(out@ =~= start + json_escape(bytes@.subrange(0, 0)));
    }
    while i < bytes.len()
        invariant
            i <= bytes@.len(),
            out@ == start + json_escape(bytes@.subrange(0, i as int)),
        decreases bytes@.len() - i,
    {
        push_escaped_byte(out, bytes[i]);
        proof {
            let next = bytes@.subrange(0, i + 1);
            assert(next.drop_last() =~= bytes@.subrange(0, i as int));
            assert(out@ =~= start + json_escape(next));
        }
        i = i + 1;
    }
    out.push(34u8);
    proof {
        assert(bytes@.subrange(0, bytes@.len() as int) =~= bytes@);
        assert(final(out)@ =~= old(out)@ + json_string(lit(value)));
        assert(final(out)@.subrange(old(out)@.len() as int, final(out)@.len() as int) =~= json_string(lit(value)));
        lemma_json_string_reads_back(lit(value));
    }
}

/// The JSON name of a warning kind.
pub open spec fn kind_name(kind: SearchWarningKind) -> Seq<u8> {
    match kind {
        SearchWarningKind::Binary => lit("binary"),
        SearchWarningKind::Encoding => lit("encoding"),
        SearchWarningKind::LineTooLong => lit("line_too_long"),
        SearchWarningKind::Archive => lit("archive"),
        SearchWarningKind::Limit => lit("limit"),
    }
}

/// The JSON name of a warning kind.
pub fn warning_kind(kind: SearchWarningKind) -> (name: &'static str)
    ensures
        lit(name) == kind_name(kind),
{
    match kind {
        SearchWarningKind::Binary => "binary",
        SearchWarningKind::Encoding => "encoding",
        SearchWarningKind::LineTooLong => "line_too_long",
        SearchWarningKind::Archive => "archive",
        SearchWarningKind::Limit => "limit",
    }
}

/// `out` followed by the JSON array items of `spans`.
pub open spec fn spans_items(out: Seq<u8>, spans: Seq<MatchSpan>) -> Seq<u8>
    decreases spans.len(),
{
    if spans.len() == 0 {
        out
    } else {
        let previous = spans_items(out, spans.drop_last());
        let span = spans.last();
        (if spans.len() > 1 { previous + lit(",") } else { previous }) + lit("{\"pattern_index\":")
            + number(span.pattern_index as nat) + lit(",\"start\":") + number(span.start as nat)
            + lit(",\"end\":") + number(span.end as nat) + lit("}")
    }
}

/// `out` followed by the JSON array of `spans`.
pub open spec fn spans_json(out: Seq<u8>, spans: Seq<MatchSpan>) -> Seq<u8> {
    spans_items(out + lit("["), spans) + lit("]")
}

/// Whether `b` is an ASCII decimal digit.
pub open spec fn is_digit(b: u8) -> bool {
    48 <= b <= 57
}

/// The number of decimal digits `s` starts with.
pub open spec fn digit_run(s: Seq<u8>) -> nat
    decreases s.len(),
{
    if s.len() > 0 && is_digit(s[0]) { 1 + digit_run(s.skip(1)) } else { 0 }
}

/// The value of a sequence of decimal digits.
pub open spec fn digits_value(s: Seq<u8>) -> nat
    decreases s.len(),
{
    if s.len() == 0 { 0 } else { digits_value(s.drop_last()) * 10 + (s.last() - 48) as nat }
}

/// Reads the fixed text `t` at the start of `s`, giving what follows it.
pub open spec fn read_text(s: Seq<u8>, t: Seq<u8>) -> Option<Seq<u8>> {
    if t.len() <= s.len() && s.subrange(0, t.len() as int) == t { Some(s.skip(t.len() as int)) } else { None }
}

/// Reads the field name `name` and the JSON number after it, giving the
/// number and what follows it.
pub open spec fn read_field(s: Seq<u8>, name: Seq<u8>) -> Option<(nat, Seq<u8>)> {
    match read_text(s, name) {
        Some(rest) => {
            let n = digit_run(rest);
            if n == 0 { None } else { Some((digits_value(rest.subrange(0, n as int)), rest.skip(n as int))) }
        },
        None => None,
    }
}

/// Reads one span object `{"pattern_index":P,"start":S,"end":E}`, giving
/// `(P, S, E)` and what follows it.
pub open spec fn read_span(s: Seq<u8>) -> Option<((nat, nat, nat), Seq<u8>)> {
    match read_field(s, lit("{\"pattern_index\":")) {
        Some((index, r1)) => match read_field(r1, lit(",\"start\":")) {
            Some((start, r2)) => match read_field(r2, lit(",\"end\":")) {
                Some((end, r3)) => match read_text(r3, lit("}")) {
                    Some(r4) => Some(((index, start, end), r4)),
                    None => None,
                },
                None => None,
            },
            None => None,
        },
        None => None,
    }
}

/// `t` read before the span list `rest` reads to, if it reads.
pub open spec fn then_span(t: (nat, nat, nat), rest: Option<Seq<(nat, nat, nat)>>) -> Option<Seq<(nat, nat, nat)>> {
    match rest {
        Some(list) => Some(seq![t] + list),
        None => None,
    }
}

/// Reads the rest of a span array after its first object: `]`, or a comma,
/// an object and the rest again.
pub open spec fn read_more_spans(s: Seq<u8>) -> Option<Seq<(nat, nat, nat)>>
    decreases s.len(),
{
    if s == seq![93u8] {
        Some(Seq::empty())
    } else if s.len() > 0 && s[0] == 44 {
        match read_span(s.skip(1)) {
            Some((t, rest)) => if rest.len() < s.len() { then_span(t, read_more_spans(rest)) } else { None },
            None => None,
        }
    } else {
        None
    }
}

/// Reads a JSON array of span objects, giving each object's pattern
/// index, start and end, in order.
pub open spec fn read_span_array(s: Seq<u8>) -> Option<Seq<(nat, nat, nat)>> {
    if s == seq![91u8, 93u8] {
        Some(Seq::empty())
    } else if s.len() > 0 && s[0] == 91 {
        match read_span(s.skip(1)) {
            Some((t, rest)) => if rest.len() < s.len() { then_span(t, read_more_spans(rest)) } else { None },
            None => None,
        }
    } else {
        None
    }
}

/// The pattern index, start and end of each span.
pub open spec fn span_fields(spans: Seq<MatchSpan>) -> Seq<(nat, nat, nat)> {
    spans.map_values(|span: MatchSpan| (span.pattern_index as nat, span.start as nat, span.end as nat))
}

proof fn lemma_span_literals()
    ensures
        lit("{\"pattern_index\":") == seq![123u8, 34u8, 112u8, 97u8, 116u8, 116u8, 101u8, 114u8, 110u8, 95u8, 105u8, 110u8, 100u8, 101u8, 120u8, 34u8, 58u8],
        lit(",\"start\":") == seq![44u8, 34u8, 115u8, 116u8, 97u8, 114u8, 116u8, 34u8, 58u8],
        lit(",\"end\":") == seq![44u8, 34u8, 101u8, 110u8, 100u8, 34u8, 58u8],
        lit("}") == seq![125u8],
{
    reveal_strlit("{\"pattern_index\":");
    crate::text::lemma_ascii_bytes("{\"pattern_index\":"@, seq![123u8, 34u8, 112u8, 97u8, 116u8, 116u8, 101u8, 114u8, 110u8, 95u8, 105u8, 110u8, 100u8, 101u8, 120u8, 34u8, 58u8]);
    assert(lit("{\"pattern_index\":") == seq![123u8, 34u8, 112u8, 97u8, 116u8, 116u8, 101u8, 114u8, 110u8, 95u8, 105u8, 110u8, 100u8, 101u8, 120u8, 34u8, 58u8]);
    reveal_strlit(",\"start\":");
    crate::text::lemma_ascii_bytes(",\"start\":"@, seq![44u8, 34u8, 115u8, 116u8, 97u8, 114u8, 116u8, 34u8, 58u8]);
    assert(lit(",\"start\":") == seq![44u8, 34u8, 115u8, 116u8, 97u8, 114u8, 116u8, 34u8, 58u8]);
    reveal_strlit(",\"end\":");
    crate::text::lemma_ascii_bytes(",\"end\":"@, seq![44u8, 34u8, 101u8, 110u8, 100u8, 34u8, 58u8]);
    assert(lit(",\"end\":") == seq![44u8, 34u8, 101u8, 110u8, 100u8, 34u8, 58u8]);
    reveal_strlit("}");
    crate::text::lemma_ascii_bytes("}"@, seq![125u8]);
    assert(lit("}") == seq![125u8]);
}

proof fn lemma_punctuation_literals()
    ensures
        lit("[") == seq![91u8],
        lit("]") == seq![93u8],
        lit(",") == seq![44u8],
{
    reveal_strlit("[");
    crate::text::lemma_ascii_bytes("["@, seq![91u8]);
    assert(lit("[") == seq![91u8]);
    reveal_strlit("]");
    crate::text::lemma_ascii_bytes("]"@, seq![93u8]);
    assert(lit("]") == seq![93u8]);
    reveal_strlit(",");
    crate::text::lemma_ascii_bytes(","@, seq![44u8]);
    assert(lit(",") == seq![44u8]);
}

proof fn lemma_decimal_digits(n: nat)
    ensures
        decimal(n).len() >= 1,
        forall|i: int| 0 <= i < decimal(n).len() ==> is_digit(#[trigger] decimal(n)[i]),
        digits_value(decimal(n)) == n,
    decreases n,
{
    if n >= 10 {
        lemma_decimal_digits(n / 10);
        let d = decimal(n);
        assert(d.drop_last() =~= decimal(n / 10));
        assert forall|i: int| 0 <= i < d.len() implies is_digit(#[trigger] d[i]) by {
            if i < d.len() - 1 {
                assert(d[i] == decimal(n / 10)[i]);
            }
        }
        assert(d.last() == (48 + n % 10) as u8);
        assert((n / 10) * 10 + n % 10 == n) by (nonlinear_arith);
        assert(digits_value(d) == digits_value(decimal(n / 10)) * 10 + (d.last() - 48) as nat);
    } else {
        assert(decimal(n).drop_last() =~= Seq::<u8>::empty());
        assert(digits_value(decimal(n)) == digits_value(decimal(n).drop_last()) * 10 + (decimal(n).last() - 48) as nat);
    }
}

proof fn lemma_digit_run(d: Seq<u8>, rest: Seq<u8>)
    requires
        forall|i: int| 0 <= i < d.len() ==> is_digit(#[trigger] d[i]),
        rest.len() == 0 || !is_digit(rest[0]),
    ensures
        digit_run(d + rest) == d.len(),
    decreases d.len(),
{
    if d.len() == 0 {
        assert(d + rest =~= rest);
    } else {
        assert((d + rest).skip(1) =~= d.skip(1) + rest);
        assert forall|i: int| 0 <= i < d.skip(1).len() implies is_digit(#[trigger] d.skip(1)[i]) by {
            assert(d.skip(1)[i] == d[i + 1]);
        }
        lemma_digit_run(d.skip(1), rest);
    }
}

proof fn lemma_read_text(t: Seq<u8>, rest: Seq<u8>)
    ensures
        read_text(t + rest, t) == Some(rest),
{
    assert((t + rest).subrange(0, t.len() as int) =~= t);
    assert((t + rest).skip(t.len() as int) =~= rest);
}

/// The written form of one span.
#[verifier::opaque]
spec fn span_text(span: MatchSpan) -> Seq<u8> {
    lit("{\"pattern_index\":") + number(span.pattern_index as nat) + lit(",\"start\":") + number(span.start as nat)
        + lit(",\"end\":") + number(span.end as nat) + lit("}")
}

proof fn lemma_read_field(name: Seq<u8>, n: nat, rest: Seq<u8>)
    requires
        rest.len() == 0 || !is_digit(rest[0]),
    ensures
        read_field(name + number(n) + rest, name) == Some((n, rest)),
{
    let s = name + number(n) + rest;
    assert(s =~= name + (number(n) + rest));
    lemma_read_text(name, number(n) + rest);
    lemma_decimal_digits(n);
    lemma_digit_run(number(n), rest);
    let body = number(n) + rest;
    assert(body.subrange(0, number(n).len() as int) =~= number(n));
    assert(body.skip(number(n).len() as int) =~= rest);
}

proof fn lemma_read_span(span: MatchSpan, rest: Seq<u8>)
    ensures
        read_span(span_text(span) + rest) == Some(((span.pattern_index as nat, span.start as nat, span.end as nat), rest)),
{
    reveal(span_text);
    lemma_span_literals();
    let p = lit("{\"pattern_index\":");
    let a = lit(",\"start\":");
    let e = lit(",\"end\":");
    let c = lit("}");
    let r3 = c + rest;
    let r2 = e + number(span.end as nat) + r3;
    let r1 = a + number(span.start as nat) + r2;
    assert(span_text(span) + rest =~= p + number(span.pattern_index as nat) + r1);
    lemma_read_field(p, span.pattern_index as nat, r1);
    lemma_read_field(a, span.start as nat, r2);
    lemma_read_field(e, span.end as nat, r3);
    lemma_read_text(c, rest);
}

/// The written spans after the first, each after a comma.
spec fn more_span_text(spans: Seq<MatchSpan>) -> Seq<u8>
    decreases spans.len(),
{
    if spans.len() == 0 { Seq::empty() } else { more_span_text(spans.drop_last()) + lit(",") + span_text(spans.last()) }
}

proof fn lemma_more_span_text_front(spans: Seq<MatchSpan>)
    requires
        spans.len() > 0,
    ensures
        more_span_text(spans) == lit(",") + span_text(spans[0]) + more_span_text(spans.skip(1)),
    decreases spans.len(),
{
    if spans.len() == 1 {
        assert(spans.drop_last() =~= Seq::<MatchSpan>::empty());
        assert(spans.skip(1) =~= Seq::<MatchSpan>::empty());
        assert(more_span_text(spans.skip(1)) == Seq::<u8>::empty());
        assert(more_span_text(spans) =~= lit(",") + span_text(spans[0]) + more_span_text(spans.skip(1)));
    } else {
        lemma_more_span_text_front(spans.drop_last());
        assert(spans.drop_last().skip(1) =~= spans.skip(1).drop_last());
        assert(spans.skip(1).last() == spans.last());
        assert(spans.drop_last()[0] == spans[0]);
        assert(more_span_text(spans) =~= lit(",") + span_text(spans[0]) + more_span_text(spans.skip(1)));
    }
}

proof fn lemma_spans_items_step(out: Seq<u8>, spans: Seq<MatchSpan>)
    requires
        spans.len() > 0,
    ensures
        spans_items(out, spans) == (if spans.len() > 1 { spans_items(out, spans.drop_last()) + lit(",") } else {
            spans_items(out, spans.drop_last())
        }) + span_text(spans.last()),
{
    reveal(span_text);
    let x = if spans.len() > 1 { spans_items(out, spans.drop_last()) + lit(",") } else { spans_items(out, spans.drop_last()) };
    assert(spans_items(out, spans) =~= x + span_text(spans.last()));
}

proof fn lemma_spans_items_front(out: Seq<u8>, spans: Seq<MatchSpan>)
    requires
        spans.len() > 0,
    ensures
        spans_items(out, spans) == out + span_text(spans[0]) + more_span_text(spans.skip(1)),
    decreases spans.len(),
{
    lemma_spans_items_step(out, spans);
    if spans.len() == 1 {
        assert(spans.drop_last() =~= Seq::<MatchSpan>::empty());
        assert(spans.skip(1) =~= Seq::<MatchSpan>::empty());
        assert(more_span_text(spans.skip(1)) == Seq::<u8>::empty());
        assert(spans_items(out, spans) =~= out + span_text(spans[0]) + more_span_text(spans.skip(1)));
    } else {
        lemma_spans_items_front(out, spans.drop_last());
        assert(spans.drop_last().skip(1) =~= spans.skip(1).drop_last());
        assert(spans.skip(1).last() == spans.last());
        assert(spans.drop_last()[0] == spans[0]);
        assert(spans_items(out, spans) =~= out + span_text(spans[0]) + more_span_text(spans.skip(1)));
    }
}

proof fn lemma_read_more_spans(spans: Seq<MatchSpan>)
    ensures
        read_more_spans(more_span_text(spans) + seq![93u8]) == Some(span_fields(spans)),
    decreases spans.len(),
{
    lemma_punctuation_literals();
    let s = more_span_text(spans) + seq![93u8];
    if spans.len() == 0 {
        assert(s =~= seq![93u8]);
        assert(span_fields(spans) =~= Seq::<(nat, nat, nat)>::empty());
    } else {
        lemma_more_span_text_front(spans);
        let rest = more_span_text(spans.skip(1)) + seq![93u8];
        assert(s =~= seq![44u8] + (span_text(spans[0]) + rest));
        assert(s.skip(1) =~= span_text(spans[0]) + rest);
        assert(s != seq![93u8]);
        lemma_read_span(spans[0], rest);
        lemma_read_more_spans(spans.skip(1));
        assert(span_fields(spans) =~= seq![(spans[0].pattern_index as nat, spans[0].start as nat, spans[0].end as nat)]
            + span_fields(spans.skip(1)));
    }
}

/// The JSON array of spans reads back, by the grammar of span objects, as
/// exactly the spans written: each object's `pattern_index`, `start` and
/// `end` are those of its span, in order.
pub proof fn lemma_spans_json_reads_back(spans: Seq<MatchSpan>)
    ensures
        read_span_array(spans_json(Seq::empty(), spans)) == Some(span_fields(spans)),
{
    lemma_punctuation_literals();
    let s = spans_json(Seq::empty(), spans);
    if spans.len() == 0 {
        assert(s =~= seq![91u8, 93u8]);
        assert(span_fields(spans) =~= Seq::<(nat, nat, nat)>::empty());
    } else {
        lemma_spans_items_front(lit("["), spans);
        let rest = more_span_text(spans.skip(1)) + seq![93u8];
        assert(Seq::<u8>::empty() + lit("[") =~= lit("["));
        assert(s =~= seq![91u8] + (span_text(spans[0]) + rest));
        assert(s.skip(1) =~= span_text(spans[0]) + rest);
        assert(s != seq![91u8, 93u8]);
        lemma_read_span(spans[0], rest);
        lemma_read_more_spans(spans.skip(1));
        assert(span_fields(spans) =~= seq![(spans[0].pattern_index as nat, spans[0].start as nat, spans[0].end as nat)]
            + span_fields(spans.skip(1)));
    }
}

fn write_spans(out: &mut Vec<u8>, spans: &Vec<MatchSpan>)
    ensures
        final(out)@ == spans_json(old(out)@, spans@),
{
    push_str(out, "[");
    let ghost start = out@;
    let mut i: usize = 0;
    proof {
        assert(spans@.subrange(0, 0) =~= Seq::<MatchSpan>::empty());
    }
    while i < spans.len()
        invariant
            i <= spans@.len(),
            start == old(out)@ + lit("["),
            out@ == spans_items(start, spans@.subrange(0, i as int)),
        decreases spans@.len() - i,
    {
        let span = spans[i];
        proof {
            let next = spans@.subrange(0, i + 1);
            assert(next.drop_last() =~= spans@.subrange(0, i as int));
            assert(next.last() == span);
        }
        if i > 0 {
            push_str(out, ",");
        }
        push_str(out, "{\"pattern_index\":");
        push_decimal(out, span.pattern_index as u64);
        push_str(out, ",\"start\":");
        push_decimal(out, span.start as u64);
        push_str(out, ",\"end\":");
        push_decimal(out, span.end as u64);
        push_str(out, "}");
        i = i + 1;
    }
    proof {
        assert(spans@.subrange(0, spans@.len() as int) =~= spans@);
    }
    push_str(out, "]");
}

/// `out` followed by the JSON array items of context lines.
pub open spec fn context_items(out: Seq<u8>, lines: Seq<ContextLine>) -> Seq<u8>
    decreases lines.len(),
{
    if lines.len() == 0 {
        out
    } else {
        let previous = context_items(out, lines.drop_last());
        let line = lines.last();
        (if lines.len() > 1 { previous + lit(",") } else { previous }) + lit("{\"line_number\":")
            + number(line.line_number as nat) + lit(",\"text\":") + json_string(utf8(line.text))
            + lit(",\"lossy\":") + boolean(line.lossy) + lit("}")
    }
}

/// `out` followed by the JSON array of context lines.
pub open spec fn context_json(out: Seq<u8>, lines: Seq<ContextLine>) -> Seq<u8> {
    context_items(out + lit("["), lines) + lit("]")
}

fn write_context(out: &mut Vec<u8>, lines: &Vec<ContextLine>)
    ensures
        final(out)@ == context_json(old(out)@, lines@),
{
    push_str(out, "[");
    let ghost start = out@;
    let mut i: usize = 0;
    proof {
        assert(lines@.subrange(0, 0) =~= Seq::<ContextLine>::empty());
    }
    while i < lines.len()
        invariant
            i <= lines@.len(),
            start == old(out)@ + lit("["),
            out@ == context_items(start, lines@.subrange(0, i as int)),
        decreases lines@.len() - i,
    {
        let line = &lines[i];
        proof {
            let next = lines@.subrange(0, i + 1);
            assert(next.drop_last() =~= lines@.subrange(0, i as int));
            assert(next.last() == *line);
        }
        if i > 0 {
            push_str(out, ",");
        }
        push_str(out, "{\"line_number\":");
        push_decimal(out, line.line_number);
        push_str(out, ",\"text\":");
        push_json_string(out, line.text.as_str());
        push_str(out, ",\"lossy\":");
        push_bool(out, line.lossy);
        push_str(out, "}");
        i = i + 1;
    }
    proof {
        assert(lines@.subrange(0, lines@.len() as int) =~= lines@);
    }
    push_str(out, "]");
}

/// A JSON number or `null`.
pub open spec fn optional_number(value: Option<u64>) -> Seq<u8> {
    match value {
        Some(n) => number(n as nat),
        None => lit("null"),
    }
}

/// A JSON string or `null`.
pub open spec fn optional_string(value: Option<String>) -> Seq<u8> {
    match value {
        Some(text) => json_string(utf8(text)),
        None => lit("null"),
    }
}

/// `out` followed by the JSON Lines record of a match.
pub open spec fn match_json(out: Seq<u8>, found: SearchMatch) -> Seq<u8> {
    let head = out + lit("{\"type\":\"match\",\"data\":{\"path\":") + json_string(utf8(found.path))
        + lit(",\"root_index\":") + number(found.root_index as nat)
        + lit(",\"line_number\":") + number(found.line_number as nat)
        + lit(",\"end_line_number\":") + number(found.end_line_number as nat)
        + lit(",\"decoded_byte_offset\":") + number(found.decoded_byte_offset as nat)
        + lit(",\"source_byte_offset\":") + optional_number(found.source_byte_offset)
        + lit(",\"line\":") + json_string(utf8(found.line))
        + lit(",\"replacement_preview\":") + optional_string(found.replacement_preview)
        + lit(",\"spans\":");
    let with_spans = spans_json(head, found.spans@) + lit(",\"before\":");
    let with_before = context_json(with_spans, found.before@) + lit(",\"after\":");
    context_json(with_before, found.after@) + lit(",\"encoding\":") + json_string(utf8(found.encoding))
        + lit(",\"lossy\":") + boolean(found.lossy) + lit(",\"archive\":") + boolean(found.archive) + lit("}}\n")
}

fn write_match_json(out: &mut Vec<u8>, found: &SearchMatch)
    ensures
        final(out)@ == match_json(old(out)@, *found),
{
    push_str(out, "{\"type\":\"match\",\"data\":{\"path\":");
    push_json_string(out, found.path.as_str());
    push_str(out, ",\"root_index\":");
    push_decimal(out, found.root_index as u64);
    push_str(out, ",\"line_number\":");
    push_decimal(out, found.line_number);
    push_str(out, ",\"end_line_number\":");
    push_decimal(out, found.end_line_number);
    push_str(out, ",\"decoded_byte_offset\":");
    push_decimal(out, found.decoded_byte_offset);
    push_str(out, ",\"source_byte_offset\":");
    match found.source_byte_offset {
        Some(offset) => push_decimal(out, offset),
        None => push_str(out, "null"),
    }
    push_str(out, ",\"line\":");
    push_json_string(out, found.line.as_str());
    push_str(out, ",\"replacement_preview\":");
    match &found.replacement_preview {
        Some(preview) => push_json_string(out, preview.as_str()),
        None => push_str(out, "null"),
    }
    push_str(out, ",\"spans\":");
    write_spans(out, &found.spans);
    push_str(out, ",\"before\":");
    write_context(out, &found.before);
    push_str(out, ",\"after\":");
    write_context(out, &found.after);
    push_str(out, ",\"encoding\":");
    push_json_string(out, found.encoding.as_str());
    push_str(out, ",\"lossy\":");
    push_bool(out, found.lossy);
    push_str(out, ",\"archive\":");
    push_bool(out, found.archive);
    push_str(out, "}}\n");
}

/// `out` followed by the JSON Lines record of a matched file.
pub open spec fn file_json(out: Seq<u8>, file: MatchedFile) -> Seq<u8> {
    out + lit("{\"type\":\"file\",\"data\":{\"path\":") + json_string(utf8(file.path))
        + lit(",\"root_index\":") + number(file.root_index as nat)
        + lit(",\"matching_lines\":") + number(file.matching_lines as nat)
        + lit(",\"occurrences\":") + number(file.occurrences as nat)
        + lit(",\"archive\":") + boolean(file.archive) + lit("}}\n")
}

fn write_file_json(out: &mut Vec<u8>, file: &MatchedFile)
    ensures
        final(out)@ == file_json(old(out)@, *file),
{
    push_str(out, "{\"type\":\"file\",\"data\":{\"path\":");
    push_json_string(out, file.path.as_str());
    push_str(out, ",\"root_index\":");
    push_decimal(out, file.root_index as u64);
    push_str(out, ",\"matching_lines\":");
    push_decimal(out, file.matching_lines);
    push_str(out, ",\"occurrences\":");
    push_decimal(out, file.occurrences);
    push_str(out, ",\"archive\":");
    push_bool(out, file.archive);
    push_str(out, "}}\n");
}

/// `out` followed by the JSON Lines record of a warning.
pub open spec fn warning_json(out: Seq<u8>, warning: SearchWarning) -> Seq<u8> {
    out + lit("{\"type\":\"warning\",\"data\":{\"path\":") + json_string(utf8(warning.path))
        + lit(",\"kind\":") + json_string(kind_name(warning.kind))
        + lit(",\"message\":") + json_string(utf8(warning.message)) + lit("}}\n")
}

fn write_warning_json(out: &mut Vec<u8>, warning: &SearchWarning)
    ensures
        final(out)@ == warning_json(old(out)@, *warning),
{
    push_str(out, "{\"type\":\"warning\",\"data\":{\"path\":");
    push_json_string(out, warning.path.as_str());
    push_str(out, ",\"kind\":");
    push_json_string(out, warning_kind(warning.kind));
    push_str(out, ",\"message\":");
    push_json_string(out, warning.message.as_str());
    push_str(out, "}}\n");
}

/// `out` followed by the records of `matches`.
pub open spec fn matches_json(out: Seq<u8>, matches: Seq<SearchMatch>) -> Seq<u8>
    decreases matches.len(),
{
    if matches.len() == 0 { out } else { match_json(matches_json(out, matches.drop_last()), matches.last()) }
}

/// `out` followed by the records of `files`.
pub open spec fn files_json(out: Seq<u8>, files: Seq<MatchedFile>) -> Seq<u8>
    decreases files.len(),
{
    if files.len() == 0 { out } else { file_json(files_json(out, files.drop_last()), files.last()) }
}

/// `out` followed by the records of `warnings`.
pub open spec fn warnings_json(out: Seq<u8>, warnings: Seq<SearchWarning>) -> Seq<u8>
    decreases warnings.len(),
{
    if warnings.len() == 0 { out } else { warning_json(warnings_json(out, warnings.drop_last()), warnings.last()) }
}

/// `out` followed by the JSON array items of root paths.
pub open spec fn roots_items(out: Seq<u8>, roots: Seq<String>) -> Seq<u8>
    decreases roots.len(),
{
    if roots.len() == 0 {
        out
    } else {
        let previous = roots_items(out, roots.drop_last());
        (if roots.len() > 1 { previous + lit(",") } else { previous }) + json_string(utf8(roots.last()))
    }
}

/// The JSON name of a backend.
pub open spec fn backend_name(backend: SearchBackend) -> Seq<u8> {
    match backend {
        SearchBackend::Filesystem => lit("filesystem"),
        SearchBackend::PersistentIndex => lit("persistent-index"),
        SearchBackend::LiveIndex => lit("live-index"),
    }
}

/// `out` followed by the JSON form of index evidence, or `null`.
pub open spec fn index_json(out: Seq<u8>, index: Option<IndexEvidence>) -> Seq<u8> {
    match index {
        Some(evidence) => out + lit("{\"revision\":\"") + utf8(evidence.revision) + lit("\",\"indexed_files\":")
            + number(evidence.indexed_files as nat) + lit(",\"candidate_files\":") + number(evidence.candidate_files as nat)
            + lit(",\"prefiltered\":") + boolean(evidence.prefiltered) + lit("}"),
        None => out + lit("null"),
    }
}

/// `out` followed by the summary record of a report.
pub open spec fn summary_json(out: Seq<u8>, report: SearchReport) -> Seq<u8> {
    let head = out + lit("{\"type\":\"summary\",\"data\":{\"matching_lines\":") + number(report.matching_lines as nat)
        + lit(",\"occurrences\":") + number(report.occurrences as nat)
        + lit(",\"files_with_matches\":") + number(report.files_with_matches as nat)
        + lit(",\"files_searched\":") + number(report.files_searched as nat)
        + lit(",\"bytes_searched\":") + number(report.bytes_searched as nat)
        + lit(",\"truncated\":") + boolean(report.truncated)
        + lit(",\"warnings_dropped\":") + number(report.warnings_dropped as nat)
        + lit(",\"backend\":\"") + backend_name(report.backend) + lit("\",\"index\":");
    let head = index_json(head, report.index) + lit(",\"roots\":") + lit("[");
    roots_items(head, report.roots@) + lit("]}}\n")
}

/// `out` followed by the JSON Lines form of a report: its matches, files,
/// warnings and summary.
pub open spec fn report_json(out: Seq<u8>, report: SearchReport) -> Seq<u8> {
    summary_json(warnings_json(files_json(matches_json(out, report.matches@), report.matched_files@), report.warnings@), report)
}

fn write_index(out: &mut Vec<u8>, index: &Option<IndexEvidence>)
    ensures
        final(out)@ == index_json(old(out)@, *index),
{
    match index {
        Some(evidence) => {
            push_str(out, "{\"revision\":\"");
            push_str(out, evidence.revision.as_str());
            push_str(out, "\",\"indexed_files\":");
            push_decimal(out, evidence.indexed_files);
            push_str(out, ",\"candidate_files\":");
            push_decimal(out, evidence.candidate_files);
            push_str(out, ",\"prefiltered\":");
            push_bool(out, evidence.prefiltered);
            push_str(out, "}");
        }
        None => push_str(out, "null"),
    }
}

fn write_backend(out: &mut Vec<u8>, backend: SearchBackend)
    ensures
        final(out)@ == old(out)@ + backend_name(backend),
{
    match backend {
        SearchBackend::Filesystem => push_str(out, "filesystem"),
        SearchBackend::PersistentIndex => push_str(out, "persistent-index"),
        SearchBackend::LiveIndex => push_str(out, "live-index"),
    }
}

/// Writes the JSON Lines form of a report.
pub fn write_json_lines(report: &SearchReport, out: &mut Vec<u8>)
    ensures
        final(out)@ == report_json(old(out)@, *report),
{
    let mut i: usize = 0;
    proof {
        assert(report.matches@.subrange(0, 0) =~= Seq::<SearchMatch>::empty());
    }
    while i < report.matches.len()
        invariant
            i <= report.matches@.len(),
            out@ == matches_json(old(out)@, report.matches@.subrange(0, i as int)),
        decreases report.matches@.len() - i,
    {
        proof {
            let next = report.matches@.subrange(0, i + 1);
            assert(next.drop_last() =~= report.matches@.subrange(0, i as int));
        }
        write_match_json(out, &report.matches[i]);
        i = i + 1;
    }
    proof {
        assert(report.matches@.subrange(0, i as int) =~= report.matches@);
    }
    let ghost after_matches = out@;
    let mut i: usize = 0;
    proof {
        assert(report.matched_files@.subrange(0, 0) =~= Seq::<MatchedFile>::empty());
    }
    while i < report.matched_files.len()
        invariant
            i <= report.matched_files@.len(),
            out@ == files_json(after_matches, report.matched_files@.subrange(0, i as int)),
        decreases report.matched_files@.len() - i,
    {
        proof {
            let next = report.matched_files@.subrange(0, i + 1);
            assert(next.drop_last() =~= report.matched_files@.subrange(0, i as int));
        }
        write_file_json(out, &report.matched_files[i]);
        i = i + 1;
    }
    proof {
        assert(report.matched_files@.subrange(0, i as int) =~= report.matched_files@);
    }
    let ghost after_files = out@;
    let mut i: usize = 0;
    proof {
        assert(report.warnings@.subrange(0, 0) =~= Seq::<SearchWarning>::empty());
    }
    while i < report.warnings.len()
        invariant
            i <= report.warnings@.len(),
            out@ == warnings_json(after_files, report.warnings@.subrange(0, i as int)),
        decreases report.warnings@.len() - i,
    {
        proof {
            let next = report.warnings@.subrange(0, i + 1);
            assert(next.drop_last() =~= report.warnings@.subrange(0, i as int));
        }
        write_warning_json(out, &report.warnings[i]);
        i = i + 1;
    }
    proof {
        assert(report.warnings@.subrange(0, i as int) =~= report.warnings@);
    }
    push_str(out, "{\"type\":\"summary\",\"data\":{\"matching_lines\":");
    push_decimal(out, report.matching_lines);
    push_str(out, ",\"occurrences\":");
    push_decimal(out, report.occurrences);
    push_str(out, ",\"files_with_matches\":");
    push_decimal(out, report.files_with_matches);
    push_str(out, ",\"files_searched\":");
    push_decimal(out, report.files_searched);
    push_str(out, ",\"bytes_searched\":");
    push_decimal(out, report.bytes_searched);
    push_str(out, ",\"truncated\":");
    push_bool(out, report.truncated);
    push_str(out, ",\"warnings_dropped\":");
    push_decimal(out, report.warnings_dropped);
    push_str(out, ",\"backend\":\"");
    write_backend(out, report.backend);
    push_str(out, "\",\"index\":");
    write_index(out, &report.index);
    push_str(out, ",\"roots\":");
    push_str(out, "[");
    let ghost head = out@;
    let mut i: usize = 0;
    proof {
        assert(report.roots@.subrange(0, 0) =~= Seq::<String>::empty());
    }
    while i < report.roots.len()
        invariant
            i <= report.roots@.len(),
            out@ == roots_items(head, report.roots@.subrange(0, i as int)),
        decreases report.roots@.len() - i,
    {
        proof {
            let next = report.roots@.subrange(0, i + 1);
            assert(next.drop_last() =~= report.roots@.subrange(0, i as int));
        }
        if i > 0 {
            push_str(out, ",");
        }
        push_json_string(out, report.roots[i].as_str());
        i = i + 1;
    }
    proof {
        assert(report.roots@.subrange(0, i as int) =~= report.roots@);
    }
    push_str(out, "]}}\n");
}

/// `out` followed by `text`, wrapped in the ANSI color `color` when colors
/// are on.
pub open spec fn colored(out: Seq<u8>, text: Seq<u8>, color: Seq<u8>, choice: ColorChoice) -> Seq<u8> {
    if choice == ColorChoice::Always {
        out + color + text + lit("\x1b[0m")
    } else {
        out + text
    }
}

fn write_colored(out: &mut Vec<u8>, text: &[u8], color: &str, choice: ColorChoice)
    ensures
        final(out)@ == colored(old(out)@, text@, lit(color), choice),
{
    if choice == ColorChoice::Always {
        push_str(out, color);
        push_bytes(out, text);
        push_str(out, "\x1b[0m");
    } else {
        push_bytes(out, text);
    }
}

/// The byte range `start..end` of UTF-8 text, when it is a valid range
/// between character boundaries.
pub open spec fn text_range(text: Seq<u8>, start: int, end: int) -> Option<Seq<u8>> {
    if 0 <= start <= end <= text.len() && is_char_boundary(text, start) && is_char_boundary(text, end) {
        Some(text.subrange(start, end))
    } else {
        None
    }
}

fn get_range(text: &str, start: usize, end: usize) -> (range: Option<&[u8]>)
    ensures
        match text_range(lit(text), start as int, end as int) {
            Some(bytes) => range matches Some(r) && r@ == bytes,
            None => range is None,
        },
{
    let bytes = text.as_bytes();
    if start <= end && end <= bytes.len() && text.is_char_boundary(start) && text.is_char_boundary(end) {
        Some(&bytes[start..end])
    } else {
        None
    }
}

/// `out` followed by `text` with the spans `spans[k..]` highlighted,
/// continuing from byte `cursor`; an invalid span range writes the whole
/// text at that point instead.
pub open spec fn highlighted_from(out: Seq<u8>, text: Seq<u8>, spans: Seq<MatchSpan>, k: int, cursor: int) -> Seq<u8>
    decreases spans.len() - k,
{
    if k < 0 || k >= spans.len() {
        out + if cursor <= text.len() { text.subrange(cursor, text.len() as int) } else { Seq::empty() }
    } else {
        let span = spans[k];
        match (text_range(text, cursor, span.start as int), text_range(text, span.start as int, span.end as int)) {
            (Some(prefix), Some(matched)) => highlighted_from(
                out + prefix + lit("\x1b[1;31m") + matched + lit("\x1b[0m"), text, spans, k + 1, span.end as int),
            _ => out + text,
        }
    }
}

/// `out` followed by `text`, with its spans highlighted when colors are on.
pub open spec fn highlighted(out: Seq<u8>, text: Seq<u8>, spans: Seq<MatchSpan>, choice: ColorChoice) -> Seq<u8> {
    if choice == ColorChoice::Never || spans.len() == 0 {
        out + text
    } else {
        highlighted_from(out, text, spans, 0, 0)
    }
}

/// What a terminal shows of `s`, from a state inside or outside an escape
/// sequence: its bytes without the escape sequences, each running from an
/// ESC byte up to and including the next `m`.
pub open spec fn shown_from(s: Seq<u8>, inside: bool) -> Seq<u8>
    decreases s.len(),
{
    if s.len() == 0 {
        Seq::empty()
    } else if inside {
        shown_from(s.skip(1), s[0] != 109)
    } else if s[0] == 27 {
        shown_from(s.skip(1), true)
    } else {
        seq![s[0]] + shown_from(s.skip(1), false)
    }
}

/// Whether `s`, read from the state `inside`, ends inside an escape
/// sequence.
pub open spec fn ends_inside(s: Seq<u8>, inside: bool) -> bool
    decreases s.len(),
{
    if s.len() == 0 {
        inside
    } else if inside {
        ends_inside(s.skip(1), s[0] != 109)
    } else {
        ends_inside(s.skip(1), s[0] == 27)
    }
}

/// What a terminal shows of `s`: its bytes without its color escapes.
pub open spec fn shown(s: Seq<u8>) -> Seq<u8> {
    shown_from(s, false)
}

/// Spans in order within the text, each between character boundaries and
/// none overlapping the next.
pub open spec fn spans_in_order(text: Seq<u8>, spans: Seq<MatchSpan>) -> bool {
    &&& forall|k: int| 0 <= k < spans.len() ==> (#[trigger] spans[k]).start <= spans[k].end <= text.len()
        && is_char_boundary(text, spans[k].start as int) && is_char_boundary(text, spans[k].end as int)
    &&& forall|k: int| 0 < k < spans.len() ==> spans[k - 1].end <= (#[trigger] spans[k]).start
}

proof fn lemma_shown_concat(x: Seq<u8>, y: Seq<u8>, inside: bool)
    ensures
        shown_from(x + y, inside) == shown_from(x, inside) + shown_from(y, ends_inside(x, inside)),
    decreases x.len(),
{
    if x.len() == 0 {
        assert(x + y =~= y);
        assert(shown_from(x, inside) + shown_from(y, inside) =~= shown_from(y, inside));
    } else {
        assert((x + y).skip(1) =~= x.skip(1) + y);
        assert((x + y)[0] == x[0]);
        let next = if inside { x[0] != 109 } else { x[0] == 27 };
        lemma_shown_concat(x.skip(1), y, next);
        if !inside && x[0] != 27 {
            assert(shown_from(x + y, inside) =~= seq![x[0]] + (shown_from(x.skip(1), false) + shown_from(y, ends_inside(x, inside))));
        }
    }
}

proof fn lemma_shown_plain(t: Seq<u8>)
    requires
        forall|i: int| 0 <= i < t.len() ==> #[trigger] t[i] != 27,
    ensures
        shown_from(t, false) == t,
        !ends_inside(t, false),
    decreases t.len(),
{
    if t.len() > 0 {
        assert forall|i: int| 0 <= i < t.skip(1).len() implies #[trigger] t.skip(1)[i] != 27 by {
            assert(t.skip(1)[i] == t[i + 1]);
        }
        lemma_shown_plain(t.skip(1));
        assert(seq![t[0]] + t.skip(1) =~= t);
    }
}

proof fn lemma_color_codes_hidden()
    ensures
        shown_from(lit("\x1b[1;31m"), false) == Seq::<u8>::empty(),
        !ends_inside(lit("\x1b[1;31m"), false),
        shown_from(lit("\x1b[0m"), false) == Seq::<u8>::empty(),
        !ends_inside(lit("\x1b[0m"), false),
{
    reveal_strlit("\x1b[1;31m");
    reveal_strlit("\x1b[0m");
    let red = seq![27u8, 91u8, 49u8, 59u8, 51u8, 49u8, 109u8];
    let reset = seq![27u8, 91u8, 48u8, 109u8];
    crate::text::lemma_ascii_bytes("\x1b[1;31m"@, red);
    crate::text::lemma_ascii_bytes("\x1b[0m"@, reset);
    reveal_with_fuel(shown_from, 8);
    reveal_with_fuel(ends_inside, 8);
    assert(red.skip(1) =~= seq![91u8, 49u8, 59u8, 51u8, 49u8, 109u8]);
    assert(red.skip(1).skip(1) =~= seq![49u8, 59u8, 51u8, 49u8, 109u8]);
    assert(red.skip(1).skip(1).skip(1) =~= seq![59u8, 51u8, 49u8, 109u8]);
    assert(red.skip(1).skip(1).skip(1).skip(1) =~= seq![51u8, 49u8, 109u8]);
    assert(red.skip(1).skip(1).skip(1).skip(1).skip(1) =~= seq![49u8, 109u8]);
    assert(red.skip(1).skip(1).skip(1).skip(1).skip(1).skip(1) =~= seq![109u8]);
    assert(seq![109u8].skip(1) =~= Seq::<u8>::empty());
    assert(reset.skip(1) =~= seq![91u8, 48u8, 109u8]);
    assert(reset.skip(1).skip(1) =~= seq![48u8, 109u8]);
    assert(reset.skip(1).skip(1).skip(1) =~= seq![109u8]);
}

proof fn lemma_highlight_from_shows(out: Seq<u8>, text: Seq<u8>, spans: Seq<MatchSpan>, k: int, cursor: int)
    requires
        valid_utf8(text),
        forall|i: int| 0 <= i < text.len() ==> #[trigger] text[i] != 27,
        spans_in_order(text, spans),
        0 <= k <= spans.len(),
        0 <= cursor <= text.len(),
        is_char_boundary(text, cursor),
        k < spans.len() ==> cursor <= spans[k].start,
        !ends_inside(out, false),
    ensures
        shown(highlighted_from(out, text, spans, k, cursor)) == shown(out) + text.subrange(cursor, text.len() as int),
    decreases spans.len() - k,
{
    let tail = text.subrange(cursor, text.len() as int);
    assert forall|i: int| 0 <= i < tail.len() implies #[trigger] tail[i] != 27 by {
        assert(tail[i] == text[cursor + i]);
    }
    if k >= spans.len() {
        lemma_shown_concat(out, tail, false);
        lemma_shown_plain(tail);
    } else {
        let span = spans[k];
        let prefix = text.subrange(cursor, span.start as int);
        let matched = text.subrange(span.start as int, span.end as int);
        assert(text_range(text, cursor, span.start as int) == Some(prefix));
        assert(text_range(text, span.start as int, span.end as int) == Some(matched));
        assert forall|i: int| 0 <= i < prefix.len() implies #[trigger] prefix[i] != 27 by {
            assert(prefix[i] == text[cursor + i]);
        }
        assert forall|i: int| 0 <= i < matched.len() implies #[trigger] matched[i] != 27 by {
            assert(matched[i] == text[span.start + i]);
        }
        let red = lit("\x1b[1;31m");
        let reset = lit("\x1b[0m");
        lemma_color_codes_hidden();
        lemma_shown_plain(prefix);
        lemma_shown_plain(matched);
        let a = out + prefix;
        let b = a + red;
        let c = b + matched;
        let d = c + reset;
        lemma_shown_concat(out, prefix, false);
        lemma_shown_concat(a, red, false);
        lemma_shown_concat(b, matched, false);
        lemma_shown_concat(c, reset, false);
        lemma_ends_inside_concat(out, prefix, false);
        lemma_ends_inside_concat(a, red, false);
        lemma_ends_inside_concat(b, matched, false);
        lemma_ends_inside_concat(c, reset, false);
        if k + 1 < spans.len() {
            assert(spans[k + 1 - 1].end <= spans[k + 1].start);
        }
        lemma_highlight_from_shows(d, text, spans, k + 1, span.end as int);
        assert(shown(d) =~= shown(out) + prefix + matched);
        assert(prefix + matched + text.subrange(span.end as int, text.len() as int) =~= tail);
    }
}

proof fn lemma_ends_inside_concat(x: Seq<u8>, y: Seq<u8>, inside: bool)
    ensures
        ends_inside(x + y, inside) == ends_inside(y, ends_inside(x, inside)),
    decreases x.len(),
{
    if x.len() == 0 {
        assert(x + y =~= y);
    } else {
        assert((x + y).skip(1) =~= x.skip(1) + y);
        assert((x + y)[0] == x[0]);
        let next = if inside { x[0] != 109 } else { x[0] == 27 };
        lemma_ends_inside_concat(x.skip(1), y, next);
    }
}

proof fn lemma_highlight_from_any(out: Seq<u8>, text: Seq<u8>, spans: Seq<MatchSpan>, k: int, cursor: int)
    requires
        forall|i: int| 0 <= i < text.len() ==> #[trigger] text[i] != 27,
        0 <= k <= spans.len(),
        0 <= cursor <= text.len(),
        !ends_inside(out, false),
    ensures
        text.is_suffix_of(shown(highlighted_from(out, text, spans, k, cursor)))
            || shown(highlighted_from(out, text, spans, k, cursor)) == shown(out) + text.subrange(cursor, text.len() as int),
    decreases spans.len() - k,
{
    let tail = text.subrange(cursor, text.len() as int);
    assert forall|i: int| 0 <= i < tail.len() implies #[trigger] tail[i] != 27 by {
        assert(tail[i] == text[cursor + i]);
    }
    if k >= spans.len() {
        lemma_shown_concat(out, tail, false);
        lemma_shown_plain(tail);
    } else {
        let span = spans[k];
        match (text_range(text, cursor, span.start as int), text_range(text, span.start as int, span.end as int)) {
            (Some(prefix), Some(matched)) => {
                assert forall|i: int| 0 <= i < prefix.len() implies #[trigger] prefix[i] != 27 by {
                    assert(prefix[i] == text[cursor + i]);
                }
                assert forall|i: int| 0 <= i < matched.len() implies #[trigger] matched[i] != 27 by {
                    assert(matched[i] == text[span.start + i]);
                }
                let red = lit("\x1b[1;31m");
                let reset = lit("\x1b[0m");
                lemma_color_codes_hidden();
                lemma_shown_plain(prefix);
                lemma_shown_plain(matched);
                let a = out + prefix;
                let b = a + red;
                let c = b + matched;
                let d = c + reset;
                lemma_shown_concat(out, prefix, false);
                lemma_shown_concat(a, red, false);
                lemma_shown_concat(b, matched, false);
                lemma_shown_concat(c, reset, false);
                lemma_ends_inside_concat(out, prefix, false);
                lemma_ends_inside_concat(a, red, false);
                lemma_ends_inside_concat(b, matched, false);
                lemma_ends_inside_concat(c, reset, false);
                lemma_highlight_from_any(d, text, spans, k + 1, span.end as int);
                assert(shown(d) =~= shown(out) + prefix + matched);
                assert(prefix + matched + text.subrange(span.end as int, text.len() as int) =~= tail);
                assert(shown(d) + text.subrange(span.end as int, text.len() as int) =~= shown(out) + tail);
            },
            _ => {
                lemma_shown_concat(out, text, false);
                lemma_shown_plain(text);
                let all = shown(out) + text;
                assert(all.subrange(all.len() - text.len(), all.len() as int) =~= text);
            },
        }
    }
}

/// Whatever the spans, what a terminal shows of the written output ends
/// with the record's whole text: highlighting never drops or reorders its
/// bytes, and spans it cannot use fall back to the plain text.
pub proof fn lemma_highlight_ends_with_text(out: Seq<u8>, text: Seq<u8>, spans: Seq<MatchSpan>, choice: ColorChoice)
    requires
        forall|i: int| 0 <= i < text.len() ==> #[trigger] text[i] != 27,
        !ends_inside(out, false),
    ensures
        text.is_suffix_of(shown(highlighted(out, text, spans, choice))),
{
    assert(text.subrange(0, text.len() as int) =~= text);
    lemma_shown_concat(out, text, false);
    lemma_shown_plain(text);
    let all = shown(out) + text;
    assert(all.subrange(all.len() - text.len(), all.len() as int) =~= text);
    if !(choice == ColorChoice::Never || spans.len() == 0) {
        lemma_highlight_from_any(out, text, spans, 0, 0);
    }
}

/// Highlighting only adds color: what a terminal shows of the written
/// output is what was there before followed by the record's text, every
/// byte of it once and in order, when the text holds no escape byte and
/// its spans are in order between character boundaries.
pub proof fn lemma_highlight_shows_text(out: Seq<u8>, text: Seq<u8>, spans: Seq<MatchSpan>, choice: ColorChoice)
    requires
        valid_utf8(text),
        forall|i: int| 0 <= i < text.len() ==> #[trigger] text[i] != 27,
        spans_in_order(text, spans),
        !ends_inside(out, false),
    ensures
        shown(highlighted(out, text, spans, choice)) == shown(out) + text,
{
    vstd::utf8::is_char_boundary_start_end_of_seq(text);
    assert(text.subrange(0, text.len() as int) =~= text);
    if choice == ColorChoice::Never || spans.len() == 0 {
        lemma_shown_concat(out, text, false);
        lemma_shown_plain(text);
    } else {
        lemma_highlight_from_shows(out, text, spans, 0, 0);
    }
}

fn write_highlighted(out: &mut Vec<u8>, text: &str, spans: &[MatchSpan], choice: ColorChoice)
    ensures
        final(out)@ == highlighted(old(out)@, lit(text), spans@, choice),
{
    let bytes = text.as_bytes();
    if choice == ColorChoice::Never || spans.len() == 0 {
        push_bytes(out, bytes);
        return;
    }
    let mut cursor: usize = 0;
    let mut k: usize = 0;
    while k < spans.len()
        invariant
            k <= spans@.len(),
            bytes@ == lit(text),
            highlighted(old(out)@, lit(text), spans@, choice) == highlighted_from(out@, lit(text), spans@, k as int, cursor as int),
            choice != ColorChoice::Never,
            spans@.len() > 0,
        decreases spans@.len() - k,
    {
        let span = spans[k];
        let prefix = get_range(text, cursor, span.start);
        let matched = get_range(text, span.start, span.end);
        match (prefix, matched) {
            (Some(prefix), Some(matched)) => {
                push_bytes(out, prefix);
                push_str(out, "\x1b[1;31m");
                push_bytes(out, matched);
                push_str(out, "\x1b[0m");
                cursor = span.end;
            }
            _ => {
                push_bytes(out, bytes);
                return;
            }
        }
        k = k + 1;
    }
    if cursor <= bytes.len() {
        push_bytes(out, &bytes[cursor..bytes.len()]);
    } else {
        let none: [u8; 0] = [];
        push_bytes(out, &none);
        proof {
            assert(none@ =~= Seq::<u8>::empty());
        }
    }
}

/// One text record: a path, a line number, an optional column, a
/// separator, and highlighted text.
pub struct TextRecord<'a> {
    /// Display path.
    pub path: &'a [u8],
    /// One-based line number.
    pub line_number: u64,
    /// One-based byte column of the first match, when known.
    pub column: Option<usize>,
    /// `:` for matching lines, `-` for context lines.
    pub separator: u8,
    /// The record's text.
    pub text: &'a str,
    /// Matches to highlight in the text.
    pub spans: &'a [MatchSpan],
}

/// `out` followed by a text record.
pub open spec fn text_line(out: Seq<u8>, path: Seq<u8>, line_number: u64, column: Option<usize>, separator: u8, text: Seq<u8>,
    spans: Seq<MatchSpan>, options: OutputOptions) -> Seq<u8> {
    let with_path = record_path(out, path, separator, options);
    let with_number = if options.line_number {
        record_number(with_path, line_number as nat, separator, options)
    } else {
        with_path
    };
    let with_column = if options.column && separator == 58 {
        record_number(with_number, match column { Some(c) => c as nat, None => 1nat }, separator, options)
    } else {
        with_number
    };
    let body = highlighted(with_column, text, spans, options.color);
    if text.len() > 0 && text.last() == 10 { body } else { body + seq![10u8] }
}

/// `out` followed by the path part of a text record.
pub open spec fn record_path(out: Seq<u8>, path: Seq<u8>, separator: u8, options: OutputOptions) -> Seq<u8> {
    if !options.heading {
        colored(out, path, lit("\x1b[35m"), options.color) + if options.null { seq![0u8] } else { seq![separator] }
    } else {
        out
    }
}

/// `out` followed by a colored number and a separator.
pub open spec fn record_number(out: Seq<u8>, n: nat, separator: u8, options: OutputOptions) -> Seq<u8> {
    colored(out, number(n), lit("\x1b[32m"), options.color) + seq![separator]
}

fn write_record_path(out: &mut Vec<u8>, path: &[u8], separator: u8, options: OutputOptions)
    ensures
        final(out)@ == record_path(old(out)@, path@, separator, options),
{
    if !options.heading {
        write_colored(out, path, "\x1b[35m", options.color);
        let ghost middle = out@;
        if options.null {
            out.push(0u8);
        } else {
            out.push(separator);
        }
        proof {
            assert(out@ =~= middle + if options.null { seq![0u8] } else { seq![separator] });
        }
    }
}

fn write_record_number(out: &mut Vec<u8>, n: u64, separator: u8, options: OutputOptions)
    ensures
        final(out)@ == record_number(old(out)@, n as nat, separator, options),
{
    let mut digits: Vec<u8> = Vec::new();
    push_decimal(&mut digits, n);
    proof {
        assert(digits@ =~= decimal(n as nat));
    }
    write_colored(out, digits.as_slice(), "\x1b[32m", options.color);
    let ghost middle = out@;
    out.push(separator);
    proof {
        assert(out@ =~= middle + seq![separator]);
    }
}

fn write_text_line(out: &mut Vec<u8>, record: &TextRecord, options: OutputOptions)
    ensures
        final(out)@ == text_line(old(out)@, record.path@, record.line_number, record.column, record.separator, lit(record.text),
            record.spans@, options),
{
    write_record_path(out, record.path, record.separator, options);
    if options.line_number {
        write_record_number(out, record.line_number, record.separator, options);
    }
    if options.column && record.separator == 58u8 {
        let column = match record.column {
            Some(c) => c,
            None => 1,
        };
        write_record_number(out, column as u64, record.separator, options);
    }
    write_highlighted(out, record.text, record.spans, options.color);
    let bytes = record.text.as_bytes();
    let ghost body = out@;
    if !(bytes.len() > 0 && bytes[bytes.len() - 1] == 10u8) {
        out.push(10u8);
        proof {
            assert(out@ =~= body + seq![10u8]);
        }
    }
}

/// The number of `\n` bytes in `s`.
pub open spec fn newlines_in(s: Seq<u8>) -> nat
    decreases s.len(),
{
    if s.len() == 0 {
        0
    } else {
        newlines_in(s.drop_last()) + if s.last() == 10 { 1nat } else { 0nat }
    }
}

/// Just past the last `\n` of `s`, or 0.
pub open spec fn after_last_newline(s: Seq<u8>) -> int
    decreases s.len(),
{
    if s.len() == 0 {
        0
    } else if s.last() == 10 {
        s.len() as int
    } else {
        after_last_newline(s.drop_last())
    }
}

/// The line and one-based byte column of byte `offset` of a record's text
/// whose first line is `first_line`; an offset that is not a character
/// boundary counts from the start.
pub open spec fn line_column(text: Seq<u8>, first_line: u64, offset: usize) -> (u64, usize) {
    let prefix = match text_range(text, 0, offset as int) {
        Some(bytes) => bytes,
        None => Seq::empty(),
    };
    let extra = newlines_in(prefix);
    let line = if first_line + extra > u64::MAX { u64::MAX } else { (first_line + extra) as u64 };
    let start = after_last_newline(prefix);
    let distance = if offset >= start { offset - start } else { 0 };
    (line, if distance + 1 > usize::MAX { usize::MAX } else { (distance + 1) as usize })
}

/// The line and column of byte `offset` of a record's text.
pub fn line_and_column(text: &str, first_line: u64, offset: usize) -> (position: (u64, usize))
    ensures
        position == line_column(lit(text), first_line, offset),
{
    let none: [u8; 0] = [];
    let prefix: &[u8] = match get_range(text, 0, offset) {
        Some(bytes) => bytes,
        None => &none,
    };
    proof {
        assert(none@ =~= Seq::<u8>::empty());
    }
    let mut extra: u64 = 0;
    let mut start: usize = 0;
    let mut i: usize = 0;
    while i < prefix.len()
        invariant
            i <= prefix@.len(),
            extra as nat == if newlines_in(prefix@.subrange(0, i as int)) > u64::MAX { u64::MAX as nat } else { newlines_in(prefix@.subrange(0, i as int)) },
            start as int == after_last_newline(prefix@.subrange(0, i as int)),
        decreases prefix@.len() - i,
    {
        proof {
            let next = prefix@.subrange(0, i + 1);
            assert(next.drop_last() =~= prefix@.subrange(0, i as int));
        }
        if prefix[i] == 10u8 {
            extra = extra.saturating_add(1);
            start = i + 1;
        }
        i = i + 1;
    }
    proof {
        assert(prefix@.subrange(0, i as int) =~= prefix@);
    }
    let line = first_line.saturating_add(extra);
    let distance = offset.saturating_sub(start);
    (line, distance.saturating_add(1))
}

/// Joins a root and a relative path with `Path::join` and decodes it with
/// `to_string_lossy`.
///
/// Nothing is claimed of the result: it depends on the platform's path
/// separator and prefix rules.
#[verifier::external_body]
fn join_root(root: &str, relative: &str) -> (joined: String) {
    std::path::Path::new(root).join(relative).to_string_lossy().into_owned()
}

/// Bytes with every `\` turned into `/`.
pub open spec fn slashed(bytes: Seq<u8>) -> Seq<u8> {
    bytes.map_values(|b: u8| if b == 92 { 47u8 } else { b })
}

/// The display path of a record where it does not depend on the platform:
/// the relative path for one root, `index/relative` for an unknown root.
pub open spec fn fixed_display_path(roots: Seq<String>, root_index: usize, relative: Seq<char>) -> Option<Seq<u8>> {
    if roots.len() <= 1 {
        Some(encode_utf8(relative))
    } else if root_index < roots.len() {
        None
    } else {
        Some(slashed(encode_utf8(decimal_chars(root_index as nat) + seq!['/'] + relative)))
    }
}

fn slash_bytes(bytes: &[u8]) -> (fixed: Vec<u8>)
    ensures
        fixed@ == slashed(bytes@),
{
    let mut fixed: Vec<u8> = Vec::new();
    let mut i: usize = 0;
    while i < bytes.len()
        invariant
            i <= bytes@.len(),
            fixed@ == slashed(bytes@.subrange(0, i as int)),
        decreases bytes@.len() - i,
    {
        fixed.push(if bytes[i] == 92u8 { 47u8 } else { bytes[i] });
        i = i + 1;
        proof {
            assert(fixed@ =~= slashed(bytes@.subrange(0, i as int)));
        }
    }
    proof {
        assert(bytes@.subrange(0, i as int) =~= bytes@);
    }
    fixed
}

/// The path shown for a record: the relative path for a single root,
/// otherwise the root joined with it, with `/` separators.
pub fn display_path(roots: &Vec<String>, root_index: usize, relative: &String) -> (path: Vec<u8>)
    ensures
        fixed_display_path(roots@, root_index, relative@) matches Some(fixed) ==> path@ == fixed,
{
    if roots.len() <= 1 {
        let mut path: Vec<u8> = Vec::new();
        push_str(&mut path, relative.as_str());
        proof {
            assert(path@ =~= encode_utf8(relative@));
        }
        return path;
    }
    if root_index < roots.len() {
        let joined = join_root(roots[root_index].as_str(), relative.as_str());
        return slash_bytes(joined.as_str().as_bytes());
    }
    let mut joined = String::new();
    append_decimal(&mut joined, root_index as u64);
    joined.append("/");
    joined.append(relative.as_str());
    proof {
        reveal_strlit("/");
        assert(joined@ =~= decimal_chars(root_index as nat) + seq!['/'] + relative@);
    }
    slash_bytes(joined.as_str().as_bytes())
}

/// `out` followed by a heading line.
pub open spec fn heading_line(out: Seq<u8>, path: Seq<u8>, options: OutputOptions) -> Seq<u8> {
    colored(out, path, lit("\x1b[35m"), options.color) + if options.null { seq![0u8] } else { seq![10u8] }
}

fn write_heading(out: &mut Vec<u8>, path: &[u8], options: OutputOptions)
    ensures
        final(out)@ == heading_line(old(out)@, path@, options),
{
    write_colored(out, path, "\x1b[35m", options.color);
    let ghost middle = out@;
    out.push(if options.null { 0u8 } else { 10u8 });
    proof {
        assert(out@ =~= middle + if options.null { seq![0u8] } else { seq![10u8] });
    }
}

/// `out` followed by a count record's path part.
pub open spec fn count_path(out: Seq<u8>, path: Seq<u8>, options: OutputOptions) -> Seq<u8> {
    colored(out, path, lit("\x1b[35m"), options.color) + if options.null { seq![0u8] } else { seq![58u8] }
}

fn write_path(out: &mut Vec<u8>, path: &[u8], options: OutputOptions)
    ensures
        final(out)@ == count_path(old(out)@, path@, options),
{
    write_colored(out, path, "\x1b[35m", options.color);
    let ghost middle = out@;
    out.push(if options.null { 0u8 } else { 58u8 });
    proof {
        assert(out@ =~= middle + if options.null { seq![0u8] } else { seq![58u8] });
    }
}

/// `out` followed by the records of matched-only output for the spans
/// of a match.
pub open spec fn only_matching_text(out: Seq<u8>, found: SearchMatch, spans: Seq<MatchSpan>, path: Seq<u8>, options: OutputOptions) -> Seq<u8>
    decreases spans.len(),
{
    if spans.len() == 0 {
        out
    } else {
        let previous = only_matching_text(out, found, spans.drop_last(), path, options);
        let span = spans.last();
        let text = match text_range(utf8(found.line), span.start as int, span.end as int) {
            Some(bytes) => bytes,
            None => Seq::empty(),
        };
        let position = line_column(utf8(found.line), found.line_number, span.start);
        text_line(previous, path, position.0, Some(position.1), 58, text, Seq::empty(), options)
    }
}

/// `out` followed by the record of a match itself.
pub open spec fn found_text(out: Seq<u8>, found: SearchMatch, path: Seq<u8>, options: OutputOptions) -> Seq<u8> {
    if options.only_matching {
        only_matching_text(out, found, found.spans@, path, options)
    } else {
        let column = if found.spans@.len() > 0 {
            Some(line_column(utf8(found.line), found.line_number, found.spans@[0].start).1)
        } else {
            None
        };
        match found.replacement_preview {
            Some(preview) => text_line(out, path, found.line_number, column, 58, utf8(preview), Seq::empty(), options),
            None => text_line(out, path, found.line_number, column, 58, utf8(found.line), found.spans@, options),
        }
    }
}

fn write_found(out: &mut Vec<u8>, found: &SearchMatch, path: &[u8], options: OutputOptions)
    ensures
        final(out)@ == found_text(old(out)@, *found, path@, options),
{
    let empty: [MatchSpan; 0] = [];
    proof {
        assert(empty@ =~= Seq::<MatchSpan>::empty());
    }
    if options.only_matching {
        let mut k: usize = 0;
        proof {
            assert(found.spans@.subrange(0, 0) =~= Seq::<MatchSpan>::empty());
        }
        while k < found.spans.len()
            invariant
                k <= found.spans@.len(),
                empty@ == Seq::<MatchSpan>::empty(),
                options.only_matching,
                out@ == only_matching_text(old(out)@, *found, found.spans@.subrange(0, k as int), path@, options),
            decreases found.spans@.len() - k,
        {
            let span = found.spans[k];
            proof {
                let next = found.spans@.subrange(0, k + 1);
                assert(next.drop_last() =~= found.spans@.subrange(0, k as int));
            }
            let none = "";
            proof {
                reveal_strlit("");
            }
            let position = line_and_column(found.line.as_str(), found.line_number, span.start);
            let matched: &[u8] = match get_range(found.line.as_str(), span.start, span.end) {
                Some(bytes) => bytes,
                None => none.as_bytes(),
            };
            write_only_matching(out, path, position.0, position.1, matched, options);
            k = k + 1;
        }
        proof {
            assert(found.spans@.subrange(0, k as int) =~= found.spans@);
        }
        return;
    }
    let column = if found.spans.len() > 0 {
        Some(line_and_column(found.line.as_str(), found.line_number, found.spans[0].start).1)
    } else {
        None
    };
    match &found.replacement_preview {
        Some(preview) => {
            let record = TextRecord { path, line_number: found.line_number, column, separator: 58u8, text: preview.as_str(), spans: &empty };
            write_text_line(out, &record, options);
        }
        None => {
            let record = TextRecord {
                path,
                line_number: found.line_number,
                column,
                separator: 58u8,
                text: found.line.as_str(),
                spans: found.spans.as_slice(),
            };
            write_text_line(out, &record, options);
        }
    }
}

fn write_only_matching(out: &mut Vec<u8>, path: &[u8], line_number: u64, column: usize, matched: &[u8], options: OutputOptions)
    ensures
        final(out)@ == text_line(old(out)@, path@, line_number, Some(column), 58, matched@, Seq::empty(), options),
{
    write_record_path(out, path, 58u8, options);
    if options.line_number {
        write_record_number(out, line_number, 58u8, options);
    }
    if options.column {
        write_record_number(out, column as u64, 58u8, options);
    }
    push_bytes(out, matched);
    let ghost body = out@;
    if !(matched.len() > 0 && matched[matched.len() - 1] == 10u8) {
        out.push(10u8);
        proof {
            assert(out@ =~= body + seq![10u8]);
        }
    }
}

/// A line of a source, by root, path and number.
pub struct LineKey {
    /// Root index.
    pub root: usize,
    /// Relative path.
    pub path: String,
    /// One-based line number.
    pub line: u64,
}

/// The mathematical form of a line key.
pub open spec fn key_view(key: LineKey) -> (usize, Seq<char>, u64) {
    (key.root, key.path@, key.line)
}

/// The mathematical form of line keys.
pub open spec fn keys_view(keys: Seq<LineKey>) -> Seq<(usize, Seq<char>, u64)> {
    keys.map_values(|key: LineKey| key_view(key))
}

/// Some match of `matches` covers line `line` of `path` under `root`.
pub open spec fn is_matching_line(matches: Seq<SearchMatch>, root: usize, path: Seq<char>, line: u64) -> bool {
    exists|i: int| 0 <= i < matches.len() && #[trigger] matches[i].root_index == root && matches[i].path@ == path
        && matches[i].line_number <= line <= matches[i].end_line_number
}

fn matching_line(matches: &Vec<SearchMatch>, root: usize, path: &String, line: u64) -> (covered: bool)
    ensures
        covered == is_matching_line(matches@, root, path@, line),
{
    let mut i: usize = 0;
    while i < matches.len()
        invariant
            i <= matches@.len(),
            forall|j: int| 0 <= j < i ==> !(#[trigger] matches@[j].root_index == root && matches@[j].path@ == path@
                && matches@[j].line_number <= line <= matches@[j].end_line_number),
        decreases matches@.len() - i,
    {
        let found = &matches[i];
        if found.root_index == root && found.path == *path && found.line_number <= line && line <= found.end_line_number {
            return true;
        }
        i = i + 1;
    }
    false
}

fn contains_key(keys: &Vec<LineKey>, root: usize, path: &String, line: u64) -> (present: bool)
    ensures
        present == keys_view(keys@).contains((root, path@, line)),
{
    let mut i: usize = 0;
    while i < keys.len()
        invariant
            i <= keys@.len(),
            forall|j: int| 0 <= j < i ==> #[trigger] key_view(keys@[j]) != (root, path@, line),
        decreases keys@.len() - i,
    {
        let key = &keys[i];
        if key.root == root && key.path == *path && key.line == line {
            proof {
                assert(keys_view(keys@)[i as int] == (root, path@, line));
            }
            return true;
        }
        i = i + 1;
    }
    proof {
        if keys_view(keys@).contains((root, path@, line)) {
            let j = choose|j: int| 0 <= j < keys_view(keys@).len() && keys_view(keys@)[j] == (root, path@, line);
            assert(key_view(keys@[j]) == (root, path@, line));
        }
    }
    false
}

/// `out` and the emitted lines after writing the context lines `lines` of
/// a match: each line no match covers and not written before.
pub open spec fn context_text(
    out: Seq<u8>,
    emitted: Seq<(usize, Seq<char>, u64)>,
    found: SearchMatch,
    lines: Seq<ContextLine>,
    path: Seq<u8>,
    matches: Seq<SearchMatch>,
    options: OutputOptions,
) -> (Seq<u8>, Seq<(usize, Seq<char>, u64)>)
    decreases lines.len(),
{
    if lines.len() == 0 {
        (out, emitted)
    } else {
        let previous = context_text(out, emitted, found, lines.drop_last(), path, matches, options);
        let line = lines.last();
        let key = (found.root_index, found.path@, line.line_number);
        if !is_matching_line(matches, key.0, key.1, key.2) && !previous.1.contains(key) {
            (text_line(previous.0, path, line.line_number, None, 45, utf8(line.text), Seq::empty(), options), previous.1.push(key))
        } else {
            previous
        }
    }
}

fn write_context_lines(
    out: &mut Vec<u8>,
    emitted: &mut Vec<LineKey>,
    found: &SearchMatch,
    lines: &Vec<ContextLine>,
    path: &[u8],
    matches: &Vec<SearchMatch>,
    options: OutputOptions,
)
    ensures
        (final(out)@, keys_view(final(emitted)@)) == context_text(old(out)@, keys_view(old(emitted)@), *found, lines@, path@, matches@, options),
{
    let empty: [MatchSpan; 0] = [];
    proof {
        assert(empty@ =~= Seq::<MatchSpan>::empty());
        assert(lines@.subrange(0, 0) =~= Seq::<ContextLine>::empty());
    }
    let mut i: usize = 0;
    while i < lines.len()
        invariant
            i <= lines@.len(),
            empty@ == Seq::<MatchSpan>::empty(),
            (out@, keys_view(emitted@)) == context_text(old(out)@, keys_view(old(emitted)@), *found, lines@.subrange(0, i as int), path@, matches@, options),
        decreases lines@.len() - i,
    {
        let line = &lines[i];
        proof {
            let next = lines@.subrange(0, i + 1);
            assert(next.drop_last() =~= lines@.subrange(0, i as int));
        }
        let covered = matching_line(matches, found.root_index, &found.path, line.line_number);
        if !covered && !contains_key(emitted, found.root_index, &found.path, line.line_number) {
            let record = TextRecord { path, line_number: line.line_number, column: None, separator: 45u8, text: line.text.as_str(), spans: &empty };
            write_text_line(out, &record, options);
            let ghost before = emitted@;
            emitted.push(LineKey { root: found.root_index, path: found.path.clone(), line: line.line_number });
            proof {
                assert(keys_view(emitted@) =~= keys_view(before).push((found.root_index, found.path@, line.line_number)));
            }
        }
        i = i + 1;
    }
    proof {
        assert(lines@.subrange(0, i as int) =~= lines@);
    }
}

/// The state of match-mode text output after the first `k` matches: the
/// output, the context lines written, and the current heading.
pub open spec fn matches_text(
    out: Seq<u8>,
    matches: Seq<SearchMatch>,
    paths: Seq<Seq<u8>>,
    k: int,
    options: OutputOptions,
) -> (Seq<u8>, Seq<(usize, Seq<char>, u64)>, Option<Seq<u8>>)
    decreases k,
{
    if k <= 0 {
        (out, Seq::empty(), None)
    } else {
        let previous = matches_text(out, matches, paths, k - 1, options);
        let found = matches[k - 1];
        let path = paths[k - 1];
        let headed = if options.heading && previous.2 != Some(path) {
            (heading_line(if previous.2 is Some { previous.0 + seq![10u8] } else { previous.0 }, path, options), Some(path))
        } else {
            (previous.0, previous.2)
        };
        let before = context_text(headed.0, previous.1, found, found.before@, path, matches, options);
        let written = found_text(before.0, found, path, options);
        let after = context_text(written, before.1, found, found.after@, path, matches, options);
        (after.0, after.1, headed.1)
    }
}

/// The display paths of records, one per match.
pub open spec fn paths_fit(paths: Seq<Vec<u8>>, roots: Seq<String>, matches: Seq<SearchMatch>) -> bool {
    &&& paths.len() == matches.len()
    &&& forall|i: int| 0 <= i < paths.len() ==> (fixed_display_path(roots, matches[i].root_index, matches[i].path@)
        matches Some(fixed) ==> #[trigger] paths[i]@ == fixed)
}

/// The views of byte vectors.
pub open spec fn paths_view(paths: Seq<Vec<u8>>) -> Seq<Seq<u8>> {
    paths.map_values(|path: Vec<u8>| path@)
}

fn write_matches(report: &SearchReport, options: OutputOptions, out: &mut Vec<u8>) -> (paths: Ghost<Seq<Vec<u8>>>)
    ensures
        paths_fit(paths@, report.roots@, report.matches@),
        final(out)@ == matches_text(old(out)@, report.matches@, paths_view(paths@), report.matches@.len() as int, options).0,
{
    let mut paths: Vec<Vec<u8>> = Vec::new();
    let mut i: usize = 0;
    while i < report.matches.len()
        invariant
            i <= report.matches@.len(),
            paths@.len() == i,
            forall|j: int| 0 <= j < i ==> (fixed_display_path(report.roots@, report.matches@[j].root_index, report.matches@[j].path@)
                matches Some(fixed) ==> #[trigger] paths@[j]@ == fixed),
        decreases report.matches@.len() - i,
    {
        let found = &report.matches[i];
        paths.push(display_path(&report.roots, found.root_index, &found.path));
        i = i + 1;
    }
    let ghost views = paths_view(paths@);
    let mut emitted: Vec<LineKey> = Vec::new();
    let mut heading: Option<Vec<u8>> = None;
    let mut k: usize = 0;
    while k < report.matches.len()
        invariant
            k <= report.matches@.len(),
            paths@.len() == report.matches@.len(),
            views == paths_view(paths@),
            ({
                let state = matches_text(old(out)@, report.matches@, views, k as int, options);
                &&& out@ == state.0
                &&& keys_view(emitted@) == state.1
                &&& state.2 == match heading { Some(h) => Some(h@), None => None }
            }),
        decreases report.matches@.len() - k,
    {
        let found = &report.matches[k];
        let path = &paths[k];
        proof {
            assert(views[k as int] == path@);
        }
        let ghost previous = matches_text(old(out)@, report.matches@, views, k as int, options);
        let differs = match &heading {
            Some(current) => compare_paths(current.as_slice(), path.as_slice()),
            None => true,
        };
        if options.heading && differs {
            if heading.is_some() {
                let ghost before_newline = out@;
                out.push(10u8);
                proof {
                    assert(out@ =~= before_newline + seq![10u8]);
                }
            }
            write_heading(out, path.as_slice(), options);
            heading = Some(copy_bytes(path.as_slice()));
        }
        let ghost headed = out@;
        proof {
            let expected = if options.heading && previous.2 != Some(path@) {
                (heading_line(if previous.2 is Some { previous.0 + seq![10u8] } else { previous.0 }, path@, options), Some(path@))
            } else {
                (previous.0, previous.2)
            };
            assert(headed == expected.0);
            assert(expected.1 == match heading { Some(h) => Some(h@), None => None });
        }
        write_context_lines(out, &mut emitted, found, &found.before, path.as_slice(), &report.matches, options);
        write_found(out, found, path.as_slice(), options);
        write_context_lines(out, &mut emitted, found, &found.after, path.as_slice(), &report.matches, options);
        proof {
            assert(report.matches@[k as int] == *found);
        }
        k = k + 1;
    }
    Ghost(paths@)
}

fn compare_paths(current: &[u8], path: &[u8]) -> (differs: bool)
    ensures
        differs == (current@ != path@),
{
    crate::text::compare_bytes(current, path) != 0
}

fn copy_bytes(bytes: &[u8]) -> (copy: Vec<u8>)
    ensures
        copy@ == bytes@,
{
    let mut copy: Vec<u8> = Vec::new();
    push_bytes(&mut copy, bytes);
    proof {
        assert(copy@ =~= bytes@);
    }
    copy
}

/// `out` followed by count records for the first `k` files.
pub open spec fn count_text(out: Seq<u8>, files: Seq<MatchedFile>, paths: Seq<Seq<u8>>, k: int, options: OutputOptions) -> Seq<u8>
    decreases k,
{
    if k <= 0 {
        out
    } else {
        count_path(count_text(out, files, paths, k - 1, options), paths[k - 1], options)
            + number(files[k - 1].matching_lines as nat) + seq![10u8]
    }
}

/// `out` followed by path records for the first `k` files.
pub open spec fn files_text(out: Seq<u8>, paths: Seq<Seq<u8>>, k: int, options: OutputOptions) -> Seq<u8>
    decreases k,
{
    if k <= 0 {
        out
    } else {
        files_text(out, paths, k - 1, options) + paths[k - 1] + if options.null { seq![0u8] } else { seq![10u8] }
    }
}

/// Display paths of file records, one per file.
pub open spec fn file_paths_fit(paths: Seq<Vec<u8>>, roots: Seq<String>, files: Seq<MatchedFile>) -> bool {
    &&& paths.len() == files.len()
    &&& forall|i: int| 0 <= i < paths.len() ==> (fixed_display_path(roots, files[i].root_index, files[i].path@)
        matches Some(fixed) ==> #[trigger] paths[i]@ == fixed)
}

/// `out` followed by the text form of a report, given the display paths
/// of its records: match records, count records, path records, or
/// nothing in quiet mode.
pub open spec fn text_report(out: Seq<u8>, report: SearchReport, paths: Seq<Vec<u8>>, options: OutputOptions) -> bool {
    match report.result_mode {
        ResultMode::Matches => paths_fit(paths, report.roots@, report.matches@),
        ResultMode::Count | ResultMode::Files => file_paths_fit(paths, report.roots@, report.matched_files@),
        ResultMode::Quiet => true,
    }
}

/// The text written for a report, given the display paths of its records.
pub open spec fn text_output(out: Seq<u8>, report: SearchReport, paths: Seq<Vec<u8>>, options: OutputOptions) -> Seq<u8> {
    match report.result_mode {
        ResultMode::Matches => matches_text(out, report.matches@, paths_view(paths), report.matches@.len() as int, options).0,
        ResultMode::Count => count_text(out, report.matched_files@, paths_view(paths), report.matched_files@.len() as int, options),
        ResultMode::Files => files_text(out, paths_view(paths), report.matched_files@.len() as int, options),
        ResultMode::Quiet => out,
    }
}

/// `written` is the text form of `report` after `out`.
pub open spec fn text_written(out: Seq<u8>, written: Seq<u8>, report: SearchReport, paths: Seq<Vec<u8>>, options: OutputOptions) -> bool {
    text_report(out, report, paths, options) && written == text_output(out, report, paths, options)
}

fn file_paths(report: &SearchReport) -> (paths: Vec<Vec<u8>>)
    ensures
        file_paths_fit(paths@, report.roots@, report.matched_files@),
{
    let mut paths: Vec<Vec<u8>> = Vec::new();
    let mut i: usize = 0;
    while i < report.matched_files.len()
        invariant
            i <= report.matched_files@.len(),
            paths@.len() == i,
            forall|j: int| 0 <= j < i ==> (fixed_display_path(report.roots@, report.matched_files@[j].root_index, report.matched_files@[j].path@)
                matches Some(fixed) ==> #[trigger] paths@[j]@ == fixed),
        decreases report.matched_files@.len() - i,
    {
        let file = &report.matched_files[i];
        paths.push(display_path(&report.roots, file.root_index, &file.path));
        i = i + 1;
    }
    paths
}

/// Writes the text form of a report.
pub fn write_text(report: &SearchReport, options: OutputOptions, out: &mut Vec<u8>) -> (paths: Ghost<Seq<Vec<u8>>>)
    ensures
        text_written(old(out)@, final(out)@, *report, paths@, options),
{
    match report.result_mode {
        ResultMode::Matches => write_matches(report, options, out),
        ResultMode::Count => {
            let paths = file_paths(report);
            let ghost views = paths_view(paths@);
            let mut i: usize = 0;
            while i < report.matched_files.len()
                invariant
                    i <= report.matched_files@.len(),
                    paths@.len() == report.matched_files@.len(),
                    views == paths_view(paths@),
                    out@ == count_text(old(out)@, report.matched_files@, views, i as int, options),
                decreases report.matched_files@.len() - i,
            {
                let file = &report.matched_files[i];
                proof {
                    assert(views[i as int] == paths@[i as int]@);
                }
                write_path(out, paths[i].as_slice(), options);
                push_decimal(out, file.matching_lines);
                let ghost before_newline = out@;
                out.push(10u8);
                proof {
                    assert(out@ =~= before_newline + seq![10u8]);
                }
                i = i + 1;
            }
            Ghost(paths@)
        }
        ResultMode::Files => {
            let paths = file_paths(report);
            let ghost views = paths_view(paths@);
            let mut i: usize = 0;
            while i < report.matched_files.len()
                invariant
                    i <= report.matched_files@.len(),
                    paths@.len() == report.matched_files@.len(),
                    views == paths_view(paths@),
                    out@ == files_text(old(out)@, views, i as int, options),
                decreases report.matched_files@.len() - i,
            {
                proof {
                    assert(views[i as int] == paths@[i as int]@);
                }
                push_bytes(out, paths[i].as_slice());
                let ghost before_end = out@;
                out.push(if options.null { 0u8 } else { 10u8 });
                proof {
                    assert(out@ =~= before_end + if options.null { seq![0u8] } else { seq![10u8] });
                }
                i = i + 1;
            }
            Ghost(paths@)
        }
        ResultMode::Quiet => Ghost(Seq::empty()),
    }
}

/// Writes a report using explicit presentation policy: JSON Lines, or the
/// text form of its result mode.
pub fn write_report_with(report: &SearchReport, options: &OutputOptions, out: &mut Vec<u8>) -> (paths: Ghost<Seq<Vec<u8>>>)
    ensures
        options.format == OutputFormat::JsonLines ==> final(out)@ == report_json(old(out)@, *report),
        options.format == OutputFormat::Text ==> text_written(old(out)@, final(out)@, *report, paths@, *options),
{
    let options = *options;
    match options.format {
        OutputFormat::Text => write_text(report, options, out),
        OutputFormat::JsonLines => {
            write_json_lines(report, out);
            Ghost(Seq::empty())
        }
    }
}

/// Writes a report in a stable built-in format with default presentation.
pub fn write_report(report: &SearchReport, format: OutputFormat, out: &mut Vec<u8>) -> (paths: Ghost<Seq<Vec<u8>>>)
    ensures
        format == OutputFormat::JsonLines ==> final(out)@ == report_json(old(out)@, *report),
        format == OutputFormat::Text ==> text_written(old(out)@, final(out)@, *report, paths@,
            OutputOptions { format, ..OutputOptions::spec_default() }),
{
    let options = OutputOptions { format, ..OutputOptions::default() };
    write_report_with(report, &options, out)
}

/// `out` followed by warning lines for `warnings`.
pub open spec fn warning_lines(out: Seq<u8>, warnings: Seq<SearchWarning>) -> Seq<u8>
    decreases warnings.len(),
{
    if warnings.len() == 0 {
        out
    } else {
        warning_lines(out, warnings.drop_last()) + lit("weavatrix-search: ") + utf8(warnings.last().path) + lit(": ")
            + utf8(warnings.last().message) + lit("\n")
    }
}

/// `out` followed by the human-readable warnings of a report.
pub open spec fn warnings_text(out: Seq<u8>, report: SearchReport) -> Seq<u8> {
    let lines = warning_lines(out, report.warnings@);
    if report.warnings_dropped > 0 {
        lines + lit("weavatrix-search: ") + number(report.warnings_dropped as nat) + lit(" additional warnings omitted\n")
    } else {
        lines
    }
}

/// Writes the warnings of a report, one per line, and how many were
/// omitted.
pub fn write_warnings(report: &SearchReport, out: &mut Vec<u8>)
    ensures
        final(out)@ == warnings_text(old(out)@, *report),
{
    let mut i: usize = 0;
    proof {
        assert(report.warnings@.subrange(0, 0) =~= Seq::<SearchWarning>::empty());
    }
    while i < report.warnings.len()
        invariant
            i <= report.warnings@.len(),
            out@ == warning_lines(old(out)@, report.warnings@.subrange(0, i as int)),
        decreases report.warnings@.len() - i,
    {
        let warning = &report.warnings[i];
        proof {
            let next = report.warnings@.subrange(0, i + 1);
            assert(next.drop_last() =~= report.warnings@.subrange(0, i as int));
        }
        push_str(out, "weavatrix-search: ");
        push_str(out, warning.path.as_str());
        push_str(out, ": ");
        push_str(out, warning.message.as_str());
        push_str(out, "\n");
        i = i + 1;
    }
    proof {
        assert(report.warnings@.subrange(0, i as int) =~= report.warnings@);
    }
    if report.warnings_dropped > 0 {
        push_str(out, "weavatrix-search: ");
        push_decimal(out, report.warnings_dropped);
        push_str(out, " additional warnings omitted\n");
    }
}

} // verus!

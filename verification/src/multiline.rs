//! Multiline search: matches may span lines, and matches whose lines touch
//! are reported together as one block.
use vstd::prelude::*;
use crate::collector::{Collector, FileSummary, file_finished, lemma_finished_rooted, rooted};
use crate::line_search::{SearchIdentity, is_replacement_warning, lemma_offered_rooted, only_offered, quiet_effect, replacement_limit_text};
use crate::lines::sat_add;
use crate::options::{FileEvidenceMode, ResultMode, SearchOptions};
use crate::query::{CompiledQuery, QueryCache, cache_matches, preview_result, query_spans, spans_wf};
use crate::report::{ContextLine, MatchSpan, SearchMatch, SearchWarning, SearchWarningKind};
use crate::text::{find_byte, find_last_byte, lossy_string, lossy_utf8};
use vstd::utf8::encode_utf8;

verus! {

/// The number of `\n` bytes in `s`.
pub open spec fn newline_count(s: Seq<u8>) -> nat
    decreases s.len(),
{
    if s.len() == 0 {
        0
    } else {
        newline_count(s.drop_last()) + if s.last() == 10 { 1nat } else { 0nat }
    }
}

/// `n`, saturating at `u64::MAX`.
pub open spec fn sat_u64(n: int) -> u64 {
    if n > u64::MAX { u64::MAX } else if n < 0 { 0 } else { n as u64 }
}

/// The end of the line that starts at `start`: just past its `\n`, or the
/// end of the text.
pub open spec fn line_end(bytes: Seq<u8>, start: int) -> int
    decreases bytes.len() - start,
{
    if start < 0 || start >= bytes.len() {
        bytes.len() as int
    } else if bytes[start] == 10 {
        start + 1
    } else {
        line_end(bytes, start + 1)
    }
}

/// The start of the line whose content ends at `end`.
pub open spec fn line_start_before(bytes: Seq<u8>, end: int) -> int
    decreases end,
{
    if end <= 0 || end > bytes.len() {
        0
    } else if bytes[end - 1] == 10 {
        end
    } else {
        line_start_before(bytes, end - 1)
    }
}

/// `end` without a trailing `\n`, then without a trailing `\r`.
pub open spec fn trimmed_end(bytes: Seq<u8>, end: int) -> int {
    let first = if 0 < end <= bytes.len() && bytes[end - 1] == 10 { end - 1 } else { end };
    if 0 < first <= bytes.len() && bytes[first - 1] == 13 { first - 1 } else { first }
}

/// The logical lines of a text: its `\n` bytes, plus one for an
/// unterminated last line.
pub open spec fn logical_lines(bytes: Seq<u8>) -> u64 {
    if bytes.len() == 0 {
        0
    } else {
        sat_u64(newline_count(bytes) + if bytes.last() == 10 { 0int } else { 1int })
    }
}

/// A context line by number and byte range.
pub struct SpecContext {
    pub number: u64,
    pub start: int,
    pub end: int,
}

/// Up to `count` lines before the line that starts at `end`, numbered down
/// from `number`, oldest first; the first line of the text stops them.
pub open spec fn lines_before(bytes: Seq<u8>, end: int, number: u64, count: nat) -> Seq<SpecContext>
    decreases count,
{
    if count == 0 || end <= 0 || number <= 1 {
        Seq::empty()
    } else {
        let content_end = trimmed_end(bytes, end);
        let start = line_start_before(bytes, content_end);
        lines_before(bytes, start, (number - 1) as u64, (count - 1) as nat).push(
            SpecContext { number: (number - 1) as u64, start, end: content_end },
        )
    }
}

/// Up to `count` lines from `start` on, numbered up from `number`.
pub open spec fn lines_after(bytes: Seq<u8>, start: int, number: u64, count: nat) -> Seq<SpecContext>
    decreases count,
{
    if count == 0 || start < 0 || start >= bytes.len() {
        Seq::empty()
    } else {
        let full_end = line_end(bytes, start);
        seq![SpecContext { number: sat_u64(number + 1), start, end: trimmed_end(bytes, full_end) }]
            + lines_after(bytes, full_end, sat_u64(number + 1), (count - 1) as nat)
    }
}

/// `lines` are the context lines `spec` of `bytes`.
pub open spec fn contexts_match(lines: Seq<ContextLine>, spec: Seq<SpecContext>, bytes: Seq<u8>, lossy: bool) -> bool {
    &&& lines.len() == spec.len()
    &&& forall|i: int| 0 <= i < lines.len() ==> {
        &&& (#[trigger] lines[i]).line_number == spec[i].number
        &&& lines[i].text@ == lossy_utf8(bytes.subrange(spec[i].start, spec[i].end))
        &&& lines[i].lossy == lossy
    }
}

pub proof fn lemma_line_end(bytes: Seq<u8>, start: int)
    requires
        0 <= start <= bytes.len(),
    ensures
        start <= line_end(bytes, start) <= bytes.len(),
        start < bytes.len() ==> start < line_end(bytes, start),
        forall|k: int| start <= k < line_end(bytes, start) - 1 ==> #[trigger] bytes[k] != 10,
        line_end(bytes, start) < bytes.len() ==> bytes[line_end(bytes, start) - 1] == 10,
        line_end(bytes, start) == bytes.len() && start < bytes.len() ==> (bytes[bytes.len() - 1] == 10
            || forall|k: int| start <= k < bytes.len() ==> #[trigger] bytes[k] != 10),
    decreases bytes.len() - start,
{
    if start < bytes.len() && bytes[start] != 10 {
        lemma_line_end(bytes, start + 1);
    }
}

pub proof fn lemma_line_start_before(bytes: Seq<u8>, end: int)
    requires
        0 <= end <= bytes.len(),
    ensures
        0 <= line_start_before(bytes, end) <= end,
        line_start_before(bytes, end) > 0 ==> bytes[line_start_before(bytes, end) - 1] == 10,
        forall|k: int| line_start_before(bytes, end) <= k < end ==> #[trigger] bytes[k] != 10,
    decreases end,
{
    if end > 0 && bytes[end - 1] != 10 {
        lemma_line_start_before(bytes, end - 1);
    }
}

/// Where the line that starts at `start` ends: just past its `\n`, or at
/// the end of the text.
pub fn next_line_end(bytes: &[u8], start: usize) -> (end: usize)
    requires
        start <= bytes@.len(),
    ensures
        end == line_end(bytes@, start as int),
{
    proof {
        lemma_line_end(bytes@, start as int);
    }
    let length = bytes.len();
    let rest = &bytes[start..length];
    match find_byte(10u8, rest) {
        Some(relative) => {
            proof {
                assert(bytes@[start + relative] == rest@[relative as int]);
                assert forall|k: int| start <= k < start + relative implies #[trigger] bytes@[k] != 10 by {
                    assert(bytes@[k] == rest@[k - start]);
                }
                lemma_line_end_at(bytes@, start as int, start + relative);
            }
            start + relative + 1
        }
        None => {
            proof {
                assert forall|k: int| start <= k < length implies #[trigger] bytes@[k] != 10 by {
                    assert(bytes@[k] == rest@[k - start]);
                }
                lemma_line_end_at(bytes@, start as int, length as int);
            }
            length
        }
    }
}

proof fn lemma_line_end_at(bytes: Seq<u8>, start: int, newline: int)
    requires
        0 <= start <= newline <= bytes.len(),
        forall|k: int| start <= k < newline ==> #[trigger] bytes[k] != 10,
        newline < bytes.len() ==> bytes[newline] == 10,
    ensures
        line_end(bytes, start) == if newline < bytes.len() { newline + 1 } else { bytes.len() as int },
    decreases newline - start,
{
    if start < newline {
        lemma_line_end_at(bytes, start + 1, newline);
    }
}

/// `end` without a trailing `\n`, then without a trailing `\r`.
pub fn trim_line_end(bytes: &[u8], end: usize) -> (trimmed: usize)
    requires
        end <= bytes@.len(),
    ensures
        trimmed == trimmed_end(bytes@, end as int),
{
    let mut end = end;
    if end > 0 && bytes[end - 1] == 10u8 {
        end = end - 1;
    }
    if end > 0 && bytes[end - 1] == 13u8 {
        end = end - 1;
    }
    end
}

/// The position of a search in a text, by line.
pub struct LineCursor {
    /// One-based number of the current line.
    pub number: u64,
    /// First byte of the current line.
    pub start: usize,
    /// End of the current line, past its `\n`.
    pub full_end: usize,
}

/// `cursor` stands on a line of `bytes`, numbered by the `\n` before it.
pub open spec fn cursor_wf(cursor: LineCursor, bytes: Seq<u8>) -> bool {
    &&& cursor.start <= cursor.full_end <= bytes.len()
    &&& cursor.start < bytes.len() || cursor.start == 0
    &&& cursor.start == 0 || bytes[cursor.start - 1] == 10
    &&& cursor.full_end == line_end(bytes, cursor.start as int)
    &&& cursor.number == sat_u64(1 + newline_count(bytes.subrange(0, cursor.start as int)) as int)
}

proof fn lemma_newline_count_step(bytes: Seq<u8>, start: int, end: int)
    requires
        0 <= start < end <= bytes.len(),
        forall|k: int| start <= k < end - 1 ==> #[trigger] bytes[k] != 10,
        bytes[end - 1] == 10,
    ensures
        newline_count(bytes.subrange(0, end)) == newline_count(bytes.subrange(0, start)) + 1,
    decreases end - start,
{
    let prefix = bytes.subrange(0, end);
    assert(prefix.drop_last() =~= bytes.subrange(0, end - 1));
    lemma_newline_count_plain(bytes, start, end - 1);
}

proof fn lemma_newline_count_plain(bytes: Seq<u8>, start: int, end: int)
    requires
        0 <= start <= end <= bytes.len(),
        forall|k: int| start <= k < end ==> #[trigger] bytes[k] != 10,
    ensures
        newline_count(bytes.subrange(0, end)) == newline_count(bytes.subrange(0, start)),
    decreases end - start,
{
    if start < end {
        let prefix = bytes.subrange(0, end);
        assert(prefix.drop_last() =~= bytes.subrange(0, end - 1));
        lemma_newline_count_plain(bytes, start, end - 1);
    }
}

impl LineCursor {
    /// A cursor on the first line.
    pub fn new(bytes: &[u8]) -> (cursor: Self)
        ensures
            cursor_wf(cursor, bytes@),
            cursor.start == 0,
    {
        proof {
            assert(bytes@.subrange(0, 0) =~= Seq::<u8>::empty());
            assert(newline_count(bytes@.subrange(0, 0)) == 0);
            assert(sat_u64(1) == 1);
            lemma_line_end(bytes@, 0);
        }
        LineCursor { number: 1, start: 0, full_end: next_line_end(bytes, 0) }
    }

    /// Moves forward to the line that holds byte `offset`, or to the last
    /// line when `offset` lies past it.
    pub fn advance_to(&mut self, bytes: &[u8], offset: usize)
        requires
            cursor_wf(*old(self), bytes@),
        ensures
            cursor_wf(*final(self), bytes@),
            old(self).start <= final(self).start,
            final(self).start == old(self).start || final(self).start <= offset,
            final(self).full_end == bytes@.len() || offset < final(self).full_end,
    {
        let length = bytes.len();
        while self.full_end < length && offset >= self.full_end
            invariant
                length == bytes@.len(),
                cursor_wf(*self, bytes@),
                old(self).start <= self.start,
                self.start == old(self).start || self.start <= offset,
            decreases length - self.start,
        {
            let ghost count = newline_count(bytes@.subrange(0, self.start as int));
            proof {
                lemma_line_end(bytes@, self.start as int);
                lemma_newline_count_step(bytes@, self.start as int, self.full_end as int);
            }
            self.start = self.full_end;
            self.full_end = next_line_end(bytes, self.start);
            self.number = self.number.saturating_add(1);
            proof {
                lemma_line_end(bytes@, self.start as int);
                assert(newline_count(bytes@.subrange(0, self.start as int)) == count + 1);
                assert(self.number == sat_u64(1 + (count + 1) as int));
            }
        }
    }
}

proof fn lemma_line_start_at(bytes: Seq<u8>, end: int, start: int)
    requires
        0 <= start <= end <= bytes.len(),
        forall|k: int| start <= k < end ==> #[trigger] bytes[k] != 10,
        start == 0 || bytes[start - 1] == 10,
    ensures
        line_start_before(bytes, end) == start,
    decreases end - start,
{
    if start < end {
        lemma_line_start_at(bytes, end - 1, start);
    }
}

/// A context line from its spec: number, and the bytes it decodes.
fn context_line(bytes: &[u8], number: u64, start: usize, end: usize, lossy: bool) -> (line: ContextLine)
    requires
        start <= end <= bytes@.len(),
    ensures
        line.line_number == number,
        line.text@ == lossy_utf8(bytes@.subrange(start as int, end as int)),
        line.lossy == lossy,
{
    ContextLine { line_number: number, text: lossy_string(&bytes[start..end]), lossy }
}

/// The lines of `lines` in reverse order.
fn reverse_lines(lines: Vec<ContextLine>) -> (reversed: Vec<ContextLine>)
    ensures
        reversed@ == lines@.reverse(),
{
    let mut source = lines;
    let mut reversed: Vec<ContextLine> = Vec::new();
    let ghost original = source@;
    while source.len() > 0
        invariant
            source@ + reversed@.reverse() == original,
        decreases source@.len(),
    {
        let last = source.pop().unwrap();
        reversed.push(last);
        proof {
            assert(reversed@.reverse() =~= seq![last] + reversed@.drop_last().reverse());
            assert(source@ + reversed@.reverse() =~= original);
        }
    }
    proof {
        assert(reversed@.reverse() =~= original);
        assert(reversed@ =~= original.reverse());
    }
    reversed
}

/// Where a cursor asked for byte `offset` stops: `offset` itself inside the
/// text; past it, on the last line.
pub open spec fn clamped(bytes: Seq<u8>, offset: int) -> int {
    if offset < bytes.len() {
        offset
    } else if bytes.len() > 0 && bytes[bytes.len() - 1] == 10 {
        bytes.len() - 1
    } else {
        bytes.len() as int
    }
}

/// The number of the line that holds byte `offset`.
pub open spec fn line_number_at(bytes: Seq<u8>, offset: int) -> u64 {
    sat_u64(1 + newline_count(bytes.subrange(0, clamped(bytes, offset))) as int)
}

/// The first byte of the line that holds byte `offset`.
pub open spec fn line_start_at(bytes: Seq<u8>, offset: int) -> int {
    line_start_before(bytes, clamped(bytes, offset))
}

proof fn lemma_cursor_at(bytes: Seq<u8>, cursor: LineCursor, offset: int)
    requires
        cursor_wf(cursor, bytes),
        0 <= offset,
        cursor.start <= offset,
        cursor.full_end == bytes.len() || offset < cursor.full_end,
    ensures
        cursor.number == line_number_at(bytes, offset),
        cursor.start == line_start_at(bytes, offset),
{
    let c = clamped(bytes, offset);
    lemma_line_end(bytes, cursor.start as int);
    if cursor.start < bytes.len() {
        assert(cursor.start <= c);
        assert forall|k: int| cursor.start <= k < c implies #[trigger] bytes[k] != 10 by {
            if cursor.full_end < bytes.len() {
                assert(k < cursor.full_end - 1);
            } else {
                if bytes[bytes.len() - 1] == 10 {
                    assert(k < bytes.len() - 1);
                }
            }
        }
        lemma_newline_count_plain(bytes, cursor.start as int, c);
        lemma_line_start_at(bytes, c, cursor.start as int);
    } else {
        assert(cursor.start == 0 && bytes.len() == 0);
        assert(c == bytes.len());
        lemma_line_start_at(bytes, c, cursor.start as int);
    }
}

/// Up to `count` lines before the line that starts at `start`, numbered
/// down from `start_line`, oldest first.
pub fn context_before(bytes: &[u8], start: usize, start_line: u64, count: usize, lossy: bool) -> (context: Vec<ContextLine>)
    requires
        start <= bytes@.len(),
    ensures
        contexts_match(context@, lines_before(bytes@, start as int, start_line, count as nat), bytes@, lossy),
{
    let mut context: Vec<ContextLine> = Vec::new();
    let mut end = start;
    let mut line_number = start_line;
    let mut taken: usize = 0;
    let ghost full = lines_before(bytes@, start as int, start_line, count as nat);
    let ghost mut produced: Seq<SpecContext> = Seq::empty();
    proof {
        assert(full =~= lines_before(bytes@, end as int, line_number, (count - taken) as nat) + produced);
    }
    while taken < count
        invariant
            end <= bytes@.len(),
            taken <= count,
            full == lines_before(bytes@, start as int, start_line, count as nat),
            full == lines_before(bytes@, end as int, line_number, (count - taken) as nat) + produced,
            contexts_match(context@.reverse(), produced, bytes@, lossy),
        ensures
            contexts_match(context@.reverse(), full, bytes@, lossy),
        decreases count - taken,
    {
        if end == 0 || line_number <= 1 {
            proof {
                assert(lines_before(bytes@, end as int, line_number, (count - taken) as nat) == Seq::<SpecContext>::empty());
                assert(full =~= produced);
            }
            break;
        }
        let content_end = trim_line_end(bytes, end);
        let before_content = &bytes[0..content_end];
        let line_start = match find_last_byte(10u8, before_content) {
            Some(index) => index + 1,
            None => 0,
        };
        proof {
            assert forall|k: int| line_start <= k < content_end implies #[trigger] bytes@[k] != 10 by {
                assert(bytes@[k] == before_content@[k]);
            }
            if line_start > 0 {
                assert(bytes@[line_start - 1] == before_content@[line_start - 1]);
            }
            lemma_line_start_at(bytes@, content_end as int, line_start as int);
        }
        line_number = line_number - 1;
        proof {
            if taken + 1 >= count {
            }
        }
        let line = context_line(bytes, line_number, line_start, content_end, lossy);
        let ghost spec_line = SpecContext { number: line_number, start: line_start as int, end: content_end as int };
        let ghost previous = context@;
        context.push(line);
        proof {
            let old_number = (line_number + 1) as u64;
            assert(lines_before(bytes@, end as int, old_number, (count - taken) as nat)
                == lines_before(bytes@, line_start as int, line_number, (count - taken - 1) as nat).push(spec_line));
            let next_produced = seq![spec_line] + produced;
            assert(full =~= lines_before(bytes@, line_start as int, line_number, (count - taken - 1) as nat) + next_produced);
            assert(context@.reverse() =~= seq![line] + previous.reverse());
            assert(contexts_match(context@.reverse(), next_produced, bytes@, lossy)) by {
                assert forall|i: int| 0 <= i < context@.reverse().len() implies {
                    &&& (#[trigger] context@.reverse()[i]).line_number == next_produced[i].number
                    &&& context@.reverse()[i].text@ == lossy_utf8(bytes@.subrange(next_produced[i].start, next_produced[i].end))
                    &&& context@.reverse()[i].lossy == lossy
                } by {
                    if i > 0 {
                        assert(context@.reverse()[i] == previous.reverse()[i - 1]);
                        assert(next_produced[i] == produced[i - 1]);
                    }
                }
            }
            produced = next_produced;
        }
        end = line_start;
        taken = taken + 1;
    }
    let reversed = reverse_lines(context);
    proof {
        assert(reversed@ == context@.reverse());
    }
    reversed
}

/// Up to `count` lines from `start` on, numbered up from `end_line`.
pub fn context_after(bytes: &[u8], start: usize, end_line: u64, count: usize, lossy: bool) -> (context: Vec<ContextLine>)
    requires
        start <= bytes@.len(),
        start == 0 || start == bytes@.len() || bytes@[start - 1] == 10,
    ensures
        contexts_match(context@, lines_after(bytes@, start as int, end_line, count as nat), bytes@, lossy),
{
    let mut context: Vec<ContextLine> = Vec::new();
    let mut line_start = start;
    let mut line_number = end_line;
    let mut taken: usize = 0;
    let ghost full = lines_after(bytes@, start as int, end_line, count as nat);
    let ghost mut done: Seq<SpecContext> = Seq::empty();
    proof {
        assert(full =~= done + lines_after(bytes@, line_start as int, line_number, (count - taken) as nat));
    }
    while taken < count
        invariant
            line_start <= bytes@.len(),
            taken <= count,
            full == lines_after(bytes@, start as int, end_line, count as nat),
            contexts_match(context@, done, bytes@, lossy),
            full == done + lines_after(bytes@, line_start as int, line_number, (count - taken) as nat),
            line_start == 0 || line_start == bytes@.len() || bytes@[line_start - 1] == 10,
        ensures
            contexts_match(context@, full, bytes@, lossy),
        decreases count - taken,
    {
        if line_start >= bytes.len() {
            proof {
                assert(full =~= done);
            }
            break;
        }
        let full_end = next_line_end(bytes, line_start);
        proof {
            lemma_line_end(bytes@, line_start as int);
        }
        let content_end = trim_line_end(bytes, full_end);
        let ghost old_number = line_number;
        line_number = line_number.saturating_add(1);
        let line = context_line(bytes, line_number, line_start, content_end, lossy);
        let ghost spec_line = SpecContext { number: line_number, start: line_start as int, end: content_end as int };
        let ghost previous = context@;
        context.push(line);
        proof {
            assert(sat_u64(old_number + 1) == line_number);
            assert(lines_after(bytes@, line_start as int, old_number, (count - taken) as nat)
                == seq![spec_line] + lines_after(bytes@, full_end as int, line_number, (count - taken - 1) as nat));
            let next_done = done.push(spec_line);
            assert(full =~= next_done + lines_after(bytes@, full_end as int, line_number, (count - taken - 1) as nat));
            assert(contexts_match(context@, next_done, bytes@, lossy)) by {
                assert forall|i: int| 0 <= i < context@.len() implies {
                    &&& (#[trigger] context@[i]).line_number == next_done[i].number
                    &&& context@[i].text@ == lossy_utf8(bytes@.subrange(next_done[i].start, next_done[i].end))
                    &&& context@[i].lossy == lossy
                } by {
                    if i < previous.len() {
                        assert(context@[i] == previous[i]);
                        assert(next_done[i] == done[i]);
                    }
                }
            }
            done = next_done;
        }
        line_start = full_end;
        taken = taken + 1;
    }
    context
}

/// A run of matches whose lines touch, reported as one record.
pub struct Block {
    /// Number of the block's first line.
    pub start_line: u64,
    /// Number of the block's last line.
    pub end_line: u64,
    /// First byte of the block's first line.
    pub start_byte: usize,
    /// End of the block's last line.
    pub end_byte: usize,
    /// The block's matches, in order.
    pub spans: Vec<MatchSpan>,
}

/// The mathematical form of a block.
pub struct SpecBlock {
    pub start_line: u64,
    pub end_line: u64,
    pub start_byte: int,
    pub end_byte: int,
    pub spans: Seq<MatchSpan>,
}

impl Block {
    /// The mathematical form of this block.
    pub open spec fn view(&self) -> SpecBlock {
        SpecBlock {
            start_line: self.start_line,
            end_line: self.end_line,
            start_byte: self.start_byte as int,
            end_byte: self.end_byte as int,
            spans: self.spans@,
        }
    }
}

/// The byte whose line ends a match: its last byte, or its start when it
/// is empty.
pub open spec fn probe(span: MatchSpan) -> int {
    let last = if span.end > 0 { span.end - 1 } else { 0 };
    if last > span.start { last } else { span.start as int }
}

/// The larger of two integers.
pub open spec fn larger(a: int, b: int) -> int {
    if a >= b { a } else { b }
}

/// The block of one match alone.
pub open spec fn span_block(bytes: Seq<u8>, span: MatchSpan) -> SpecBlock {
    SpecBlock {
        start_line: line_number_at(bytes, span.start as int),
        end_line: line_number_at(bytes, probe(span)),
        start_byte: line_start_at(bytes, span.start as int),
        end_byte: larger(line_end(bytes, line_start_at(bytes, probe(span))), span.end as int),
        spans: seq![span],
    }
}

/// The blocks of a sequence of matches: a match whose first line is not
/// after the current block's last line joins it; any other starts a new
/// block.
pub open spec fn group_spans(bytes: Seq<u8>, spans: Seq<MatchSpan>) -> Seq<SpecBlock>
    decreases spans.len(),
{
    if spans.len() == 0 {
        Seq::empty()
    } else {
        let previous = group_spans(bytes, spans.drop_last());
        let next = span_block(bytes, spans.last());
        if previous.len() > 0 && next.start_line <= previous.last().end_line {
            let last = previous.last();
            previous.drop_last().push(SpecBlock {
                end_line: if last.end_line >= next.end_line { last.end_line } else { next.end_line },
                end_byte: larger(last.end_byte, next.end_byte),
                spans: last.spans.push(spans.last()),
                ..last
            })
        } else {
            previous.push(next)
        }
    }
}

/// Blocks are separated: each starts on a line after the previous one ends.
pub open spec fn blocks_separated(blocks: Seq<SpecBlock>) -> bool {
    forall|i: int| 0 <= i < blocks.len() - 1 ==> #[trigger] blocks[i].end_line < blocks[i + 1].start_line
}

/// The blocks of any matches are separated: matches whose lines touch are
/// always reported in one block, never in two.
pub proof fn lemma_blocks_separated(bytes: Seq<u8>, spans: Seq<MatchSpan>)
    ensures
        blocks_separated(group_spans(bytes, spans)),
    decreases spans.len(),
{
    if spans.len() > 0 {
        lemma_blocks_separated(bytes, spans.drop_last());
        let previous = group_spans(bytes, spans.drop_last());
        let blocks = group_spans(bytes, spans);
        let next = span_block(bytes, spans.last());
        if previous.len() > 0 && next.start_line <= previous.last().end_line {
            assert forall|i: int| 0 <= i < blocks.len() - 1 implies #[trigger] blocks[i].end_line < blocks[i + 1].start_line by {
                assert(blocks[i] == previous[i]);
                if i + 1 < blocks.len() - 1 {
                    assert(blocks[i + 1] == previous[i + 1]);
                } else {
                    assert(blocks[i + 1].start_line == previous.last().start_line);
                    assert(previous[i + 1] == previous.last());
                }
            }
        } else {
            assert forall|i: int| 0 <= i < blocks.len() - 1 implies #[trigger] blocks[i].end_line < blocks[i + 1].start_line by {
                assert(blocks[i] == previous[i]);
                if i + 1 < blocks.len() - 1 {
                    assert(blocks[i + 1] == previous[i + 1]);
                }
            }
        }
    }
}

/// The views of blocks.
pub open spec fn blocks_view(blocks: Seq<Block>) -> Seq<SpecBlock> {
    blocks.map_values(|block: Block| block.view())
}

/// Groups ordered, non-overlapping matches of `bytes` into blocks.
pub fn group_blocks(bytes: &[u8], spans: &Vec<MatchSpan>) -> (blocks: Vec<Block>)
    requires
        spans_wf(spans@, bytes@.len() as int),
    ensures
        blocks_view(blocks@) == group_spans(bytes@, spans@),
        forall|k: int| 0 <= k < blocks@.len() ==> block_wf(#[trigger] blocks@[k].view(), bytes@),
{
    let mut blocks: Vec<Block> = Vec::new();
    let mut cursor = LineCursor::new(bytes);
    let mut i: usize = 0;
    proof {
        assert(spans@.subrange(0, 0) =~= Seq::<MatchSpan>::empty());
        assert(blocks_view(blocks@) =~= Seq::<SpecBlock>::empty());
    }
    while i < spans.len()
        invariant
            i <= spans@.len(),
            spans_wf(spans@, bytes@.len() as int),
            cursor_wf(cursor, bytes@),
            i > 0 ==> cursor.start <= probe(spans@[i - 1]),
            i == 0 ==> cursor.start == 0,
            blocks_view(blocks@) == group_spans(bytes@, spans@.subrange(0, i as int)),
            forall|k: int| 0 <= k < blocks@.len() ==> block_wf(#[trigger] blocks@[k].view(), bytes@),
        decreases spans@.len() - i,
    {
        let span = spans[i];
        proof {
            if i > 0 {
                assert(spans@[i - 1].end <= spans@[i as int].start);
            }
        }
        cursor.advance_to(bytes, span.start);
        proof {
            lemma_cursor_at(bytes@, cursor, span.start as int);
        }
        let start_line = cursor.number;
        let start_byte = cursor.start;
        let last_byte = span.end.saturating_sub(1);
        let end_probe = if last_byte > span.start { last_byte } else { span.start };
        cursor.advance_to(bytes, end_probe);
        proof {
            lemma_cursor_at(bytes@, cursor, end_probe as int);
        }
        let end_line = cursor.number;
        proof {
            lemma_line_end(bytes@, cursor.start as int);
            assert(span.end <= cursor.full_end);
        }
        let end_byte = if cursor.full_end > span.end { cursor.full_end } else { span.end };
        let ghost previous = blocks_view(blocks@);
        let ghost old_blocks = blocks@;
        let ghost next = span_block(bytes@, span);
        proof {
            let prefix = spans@.subrange(0, i + 1);
            assert(prefix.drop_last() =~= spans@.subrange(0, i as int));
            assert(prefix.last() == span);
        }
        let joins = match blocks.last() {
            Some(current) => start_line <= current.end_line,
            None => false,
        };
        if joins {
            let mut current = blocks.pop().unwrap();
            if end_line > current.end_line {
                current.end_line = end_line;
            }
            if end_byte > current.end_byte {
                current.end_byte = end_byte;
            }
            current.spans.push(span);
            blocks.push(current);
        } else {
            let mut only: Vec<MatchSpan> = Vec::new();
            only.push(span);
            blocks.push(Block { start_line, end_line, start_byte, end_byte, spans: only });
        }
        proof {
            assert(blocks_view(blocks@) =~= group_spans(bytes@, spans@.subrange(0, i + 1)));
            assert forall|k: int| 0 <= k < blocks@.len() implies block_wf(#[trigger] blocks@[k].view(), bytes@) by {
                if k < blocks@.len() - 1 {
                    assert(blocks@[k] == old_blocks[k]);
                }
            }
        }
        i = i + 1;
    }
    proof {
        assert(spans@.subrange(0, spans@.len() as int) =~= spans@);
    }
    blocks
}

/// Counts `\n` bytes with `memchr::memchr_iter`.
///
/// Trusted: the count is the number of positions holding the byte, as
/// `memchr_iter` yields each of them once.
#[verifier::external_body]
fn count_newlines(bytes: &[u8]) -> (count: usize)
    ensures
        count == newline_count(bytes@),
{
    memchr::memchr_iter(b'\n', bytes).count()
}

/// The number of logical lines of a text.
pub fn logical_line_count(bytes: &[u8]) -> (count: u64)
    ensures
        count == logical_lines(bytes@),
{
    if bytes.len() == 0 {
        return 0;
    }
    let terminated = bytes[bytes.len() - 1] == 10u8;
    let newlines = count_newlines(bytes) as u64;
    newlines.saturating_add(if terminated { 0 } else { 1 })
}

/// A match span moved to be relative to byte `base`.
pub open spec fn rebased(span: MatchSpan, base: int) -> MatchSpan {
    MatchSpan {
        pattern_index: span.pattern_index,
        start: if span.start >= base { (span.start - base) as usize } else { 0 },
        end: if span.end >= base { (span.end - base) as usize } else { 0 },
    }
}

/// What a block's replacement preview is: none without a template;
/// otherwise the preview of the block's text exactly when it fits the
/// limit.
pub open spec fn block_preview_outcome(preview: Option<String>, query: CompiledQuery, bytes: Seq<u8>, block: SpecBlock, options: SearchOptions) -> bool {
    &&& options.replacement is None ==> preview is None
    &&& options.replacement is Some ==> match preview_result(query, bytes, block.start_byte, block.end_byte,
        options.replacement->0@, options.max_replacement_bytes as int) {
        Some(full) => preview is Some && preview->0@ == lossy_utf8(full),
        None => preview is None,
    }
}

/// `r` is the record of the block `block` of `bytes`.
pub open spec fn is_block_record(r: SearchMatch, identity: SearchIdentity, bytes: Seq<u8>, block: SpecBlock, preview: Option<String>, options: SearchOptions) -> bool {
    &&& r.root_index == identity.root_index
    &&& r.path == identity.path
    &&& r.line_number == block.start_line
    &&& r.end_line_number == block.end_line
    &&& r.decoded_byte_offset == block.start_byte
    &&& r.source_byte_offset == match identity.source_offset_base {
        Some(base) => Some(sat_add(base, block.start_byte)),
        None => None,
    }
    &&& r.line@ == lossy_utf8(bytes.subrange(block.start_byte, block.end_byte))
    &&& r.replacement_preview == preview
    &&& r.spans@ == block.spans.map_values(|span: MatchSpan| rebased(span, block.start_byte))
    &&& contexts_match(r.before@, lines_before(bytes, block.start_byte, block.start_line, options.before_context as nat), bytes, identity.lossy)
    &&& contexts_match(r.after@, lines_after(bytes, block.end_byte, block.end_line, options.after_context as nat), bytes, identity.lossy)
    &&& r.encoding == identity.encoding
    &&& r.lossy == identity.lossy
    &&& r.archive == identity.archive
}

/// How recording a block in match mode changes the collector: one record,
/// and a warning when its replacement preview is over the limit.
pub open spec fn block_outcome(
    old_collector: Collector,
    new_collector: Collector,
    identity: SearchIdentity,
    bytes: Seq<u8>,
    block: SpecBlock,
    query: CompiledQuery,
    options: SearchOptions,
    record: SearchMatch,
    preview: Option<String>,
    warnings: Seq<SearchWarning>,
) -> bool {
    &&& is_block_record(record, identity, bytes, block, preview, options)
    &&& block_preview_outcome(preview, query, bytes, block, options)
    &&& warnings.len() == if options.replacement is Some && preview is None { 1int } else { 0int }
    &&& warnings.len() == 1 ==> is_replacement_warning(warnings[0], identity.path, options.max_replacement_bytes)
    &&& only_offered(old_collector, new_collector, seq![record], warnings)
}

/// A block's matched lines, saturating.
pub open spec fn block_lines(block: SpecBlock) -> u64 {
    sat_add(if block.end_line >= block.start_line { (block.end_line - block.start_line) as u64 } else { 0 }, 1)
}

/// A block lies in `bytes` between line boundaries and holds its spans.
pub open spec fn block_wf(block: SpecBlock, bytes: Seq<u8>) -> bool {
    &&& 0 <= block.start_byte <= block.end_byte <= bytes.len()
    &&& block.end_byte == 0 || block.end_byte == bytes.len() || bytes[block.end_byte - 1] == 10
}

/// Records one block: in match mode its record, with its replacement
/// preview (or a warning when that is over the limit) and its context
/// lines. Returns the block's line and match counts.
pub fn finish_block(
    block: Block,
    bytes: &[u8],
    identity: &SearchIdentity,
    query: &CompiledQuery,
    cache: &mut QueryCache,
    options: &SearchOptions,
    collector: &mut Collector,
) -> (counts: (u64, u64))
    requires
        block_wf(block.view(), bytes@),
        old(collector).wf(),
        cache_matches(query, old(cache)),
        query is Literal ==> query->Literal_0@.len() > 0,
    ensures
        cache_matches(query, final(cache)),
        final(collector).wf(),
        final(collector).kept_setup(*old(collector)),
        counts.0 == block_lines(block.view()),
        counts.1 == block.spans@.len(),
        old(collector).mode() != ResultMode::Matches ==> *final(collector) == *old(collector),
        old(collector).mode() == ResultMode::Matches ==> exists|record: SearchMatch, preview: Option<String>, warnings: Seq<SearchWarning>|
            #[trigger] block_outcome(*old(collector), *final(collector), *identity, bytes@, block.view(), *query, *options,
                record, preview, warnings),
{
    let spread = block.end_line.saturating_sub(block.start_line);
    let matching_lines = spread.saturating_add(1);
    let occurrences = block.spans.len() as u64;
    if collector.result_mode() != ResultMode::Matches {
        return (matching_lines, occurrences);
    }
    let ghost original = block.view();
    let base = block.start_byte;
    let mut spans: Vec<MatchSpan> = Vec::new();
    let mut k: usize = 0;
    while k < block.spans.len()
        invariant
            k <= block.spans@.len(),
            base == original.start_byte,
            block.spans@ == original.spans,
            spans@ == original.spans.subrange(0, k as int).map_values(|span: MatchSpan| rebased(span, base as int)),
        decreases block.spans@.len() - k,
    {
        let span = block.spans[k];
        spans.push(MatchSpan {
            pattern_index: span.pattern_index,
            start: span.start.saturating_sub(base),
            end: span.end.saturating_sub(base),
        });
        k = k + 1;
        proof {
            assert(spans@ =~= original.spans.subrange(0, k as int).map_values(|span: MatchSpan| rebased(span, base as int)));
        }
    }
    proof {
        assert(original.spans.subrange(0, k as int) =~= original.spans);
    }
    let line = lossy_string(&bytes[block.start_byte..block.end_byte]);
    let ghost before_warning = *collector;
    let ghost mut warnings_added: Seq<SearchWarning> = Seq::empty();
    let preview = match &options.replacement {
        None => None,
        Some(replacement) => {
            match query.replacement_preview(cache, bytes, block.start_byte, block.end_byte, replacement.as_str(), options.max_replacement_bytes) {
                Some(preview) => Some(lossy_string(preview.as_slice())),
                None => {
                    let warning = SearchWarning {
                        path: identity.path.clone(),
                        kind: SearchWarningKind::Limit,
                        message: replacement_limit_text(options.max_replacement_bytes),
                    };
                    let ghost w = warning;
                    collector.warn(warning);
                    proof {
                        warnings_added = seq![w];
                    }
                    None
                }
            }
        }
    };
    let ghost preview_copy = preview;
    let source_byte_offset = match identity.source_offset_base {
        Some(offset_base) => Some(offset_base.saturating_add(block.start_byte as u64)),
        None => None,
    };
    let record = SearchMatch {
        root_index: identity.root_index,
        path: identity.path.clone(),
        line_number: block.start_line,
        end_line_number: block.end_line,
        decoded_byte_offset: block.start_byte as u64,
        source_byte_offset,
        line,
        replacement_preview: preview,
        spans,
        before: context_before(bytes, block.start_byte, block.start_line, options.before_context, identity.lossy),
        after: context_after(bytes, block.end_byte, block.end_line, options.after_context, identity.lossy),
        encoding: identity.encoding.clone(),
        lossy: identity.lossy,
        archive: identity.archive,
    };
    let ghost record_copy = record;
    let ghost middle = *collector;
    collector.retain_match(record);
    proof {
        assert(is_block_record(record_copy, *identity, bytes@, original, preview_copy, *options));
        assert(old(collector).warning_ranking().offered() + warnings_added =~= collector.warning_ranking().offered());
        assert(old(collector).match_ranking().offered() + seq![record_copy] =~= collector.match_ranking().offered());
        assert(only_offered(*old(collector), *collector, seq![record_copy], warnings_added));
        assert(block_outcome(*old(collector), *collector, *identity, bytes@, original, *query, *options,
            record_copy, preview_copy, warnings_added));
    }
    (matching_lines, occurrences)
}

/// The lines a match covers, counted from its first line to the line of its
/// last byte.
pub open spec fn span_lines(bytes: Seq<u8>, span: MatchSpan) -> u64 {
    let first = line_number_at(bytes, span.start as int);
    let last = line_number_at(bytes, probe(span));
    sat_add(if last >= first { (last - first) as u64 } else { 0 }, 1)
}

/// The matched lines of the first `n` blocks, summed with saturation.
pub open spec fn blocks_lines(blocks: Seq<SpecBlock>, n: int) -> u64
    decreases n,
{
    if n <= 0 { 0 } else { sat_add(blocks_lines(blocks, n - 1), block_lines(blocks[n - 1]) as int) }
}

/// The matches of the first `n` blocks, summed with saturation.
pub open spec fn blocks_matches(blocks: Seq<SpecBlock>, n: int) -> u64
    decreases n,
{
    if n <= 0 { 0 } else { sat_add(blocks_matches(blocks, n - 1), blocks[n - 1].spans.len() as int) }
}

/// How recording one block changes the collector: in match mode as
/// `block_outcome` says, in any other mode not at all.
pub open spec fn block_recorded(
    before: Collector,
    after: Collector,
    identity: SearchIdentity,
    bytes: Seq<u8>,
    block: SpecBlock,
    query: CompiledQuery,
    options: SearchOptions,
) -> bool {
    if before.mode() == ResultMode::Matches {
        exists|record: SearchMatch, preview: Option<String>, warnings: Seq<SearchWarning>|
            #[trigger] block_outcome(before, after, identity, bytes, block, query, options, record, preview, warnings)
    } else {
        after == before
    }
}

/// `collectors` records `blocks` one after another.
pub open spec fn blocks_recorded(
    collectors: Seq<Collector>,
    identity: SearchIdentity,
    bytes: Seq<u8>,
    blocks: Seq<SpecBlock>,
    query: CompiledQuery,
    options: SearchOptions,
) -> bool {
    &&& collectors.len() == blocks.len() + 1
    &&& forall|k: int| 0 <= k < blocks.len() ==> #[trigger] block_recorded(collectors[k], collectors[k + 1], identity, bytes,
        blocks[k], query, options)
}

/// The summary a multiline search records for a source of `bytes` whose
/// blocks are `blocks`: its matched lines and matches summed over the
/// blocks, and its logical line count when its evidence is kept.
pub open spec fn multiline_summary(identity: SearchIdentity, bytes: Seq<u8>, blocks: Seq<SpecBlock>, evidence: FileEvidenceMode) -> FileSummary {
    let occurrences = blocks_matches(blocks, blocks.len() as int);
    FileSummary {
        root_index: identity.root_index,
        path: identity.path,
        source_bytes: identity.source_bytes,
        total_lines: if evidence == FileEvidenceMode::All || (evidence == FileEvidenceMode::Matched && occurrences > 0) {
            logical_lines(bytes)
        } else {
            0
        },
        matching_lines: blocks_lines(blocks, blocks.len() as int),
        occurrences,
        encoding: identity.encoding,
        lossy: identity.lossy,
        archive: identity.archive,
    }
}

/// What a multiline search of `text` under `identity` does to the
/// collector (see `search`): in quiet mode it records the first match,
/// with the lines it spans; in any other mode it records each block of
/// touching matches in order, then the source's summary.
pub open spec fn multiline_outcome(
    before: Collector,
    after: Collector,
    identity: SearchIdentity,
    text: Seq<char>,
    query: CompiledQuery,
    options: SearchOptions,
) -> bool {
    let bytes = encode_utf8(text);
    let spans = query_spans(query, bytes);
    let blocks = group_spans(bytes, spans);
    &&& after.wf()
    &&& after.kept_setup(before)
    &&& before.mode() == ResultMode::Quiet ==> {
        &&& spans.len() == 0 ==> after == before
        &&& spans.len() > 0 ==> quiet_effect(before, after, span_lines(bytes, spans[0]), 1)
    }
    &&& before.mode() != ResultMode::Quiet ==> exists|collectors: Seq<Collector>|
        #[trigger] blocks_recorded(collectors, identity, bytes, blocks, query, options) && collectors[0] == before
            && file_finished(collectors.last(), after, multiline_summary(identity, bytes, blocks, before.evidence_mode()))
}

/// Recording blocks under a root below `n` keeps every offered root below
/// `n`.
proof fn lemma_blocks_rooted(collectors: Seq<Collector>, identity: SearchIdentity, bytes: Seq<u8>, blocks: Seq<SpecBlock>,
    query: CompiledQuery, options: SearchOptions, n: nat, k: int)
    requires
        blocks_recorded(collectors, identity, bytes, blocks, query, options),
        0 <= k <= blocks.len(),
        rooted(collectors[0], n),
        identity.root_index < n,
    ensures
        rooted(collectors[k], n),
    decreases k,
{
    if k > 0 {
        let i = k - 1;
        lemma_blocks_rooted(collectors, identity, bytes, blocks, query, options, n, i);
        assert(block_recorded(collectors[i], collectors[i + 1], identity, bytes, blocks[i], query, options));
        if collectors[i].mode() == ResultMode::Matches {
            let (record, preview, warnings) = choose|record: SearchMatch, preview: Option<String>, warnings: Seq<SearchWarning>|
                #[trigger] block_outcome(collectors[i], collectors[i + 1], identity, bytes, blocks[i], query, options, record,
                    preview, warnings);
            assert(seq![record][0] == record);
            lemma_offered_rooted(collectors[i], collectors[i + 1], seq![record], warnings, n);
        }
    }
}

/// A multiline search under a root below `n` keeps every offered root
/// below `n`.
pub proof fn lemma_multiline_rooted(before: Collector, after: Collector, identity: SearchIdentity, text: Seq<char>,
    query: CompiledQuery, options: SearchOptions, n: nat)
    requires
        multiline_outcome(before, after, identity, text, query, options),
        rooted(before, n),
        identity.root_index < n,
    ensures
        rooted(after, n),
{
    let bytes = encode_utf8(text);
    let blocks = group_spans(bytes, query_spans(query, bytes));
    if before.mode() != ResultMode::Quiet {
        let collectors = choose|collectors: Seq<Collector>|
            #[trigger] blocks_recorded(collectors, identity, bytes, blocks, query, options) && collectors[0] == before
                && file_finished(collectors.last(), after, multiline_summary(identity, bytes, blocks, before.evidence_mode()));
        lemma_blocks_rooted(collectors, identity, bytes, blocks, query, options, n, blocks.len() as int);
        lemma_finished_rooted(collectors.last(), after, multiline_summary(identity, bytes, blocks, before.evidence_mode()), n);
    }
}

/// Searches a whole decoded text, letting matches span lines. In quiet
/// mode only the first match is recorded; otherwise matches whose lines
/// touch are recorded as one block each, and the source's summary is
/// recorded with its logical line count when evidence is kept.
pub fn search(
    identity: SearchIdentity,
    text: &str,
    query: &CompiledQuery,
    cache: &mut QueryCache,
    options: &SearchOptions,
    collector: &mut Collector,
)
    requires
        old(collector).wf(),
        cache_matches(query, old(cache)),
        query is Literal ==> query->Literal_0@.len() > 0,
    ensures
        cache_matches(query, final(cache)),
        final(collector).wf(),
        final(collector).kept_setup(*old(collector)),
        multiline_outcome(*old(collector), *final(collector), identity, text@, *query, *options),
{
    let bytes = text.as_bytes();
    if collector.result_mode() == ResultMode::Quiet {
        let first = query.first_span(cache, bytes);
        if let Some(span) = first {
            let mut cursor = LineCursor::new(bytes);
            cursor.advance_to(bytes, span.start);
            proof {
                lemma_cursor_at(bytes@, cursor, span.start as int);
            }
            let start_line = cursor.number;
            let last_byte = span.end.saturating_sub(1);
            let end_probe = if last_byte > span.start { last_byte } else { span.start };
            cursor.advance_to(bytes, end_probe);
            proof {
                lemma_cursor_at(bytes@, cursor, end_probe as int);
            }
            let spread = cursor.number.saturating_sub(start_line);
            collector.quiet_match(spread.saturating_add(1), 1);
        }
        return;
    }
    let spans = query.find_spans(cache, bytes);
    let mut blocks = group_blocks(bytes, &spans);
    let ghost all_blocks = blocks_view(blocks@);
    let ghost given = identity;
    let ghost mut collectors: Seq<Collector> = seq![*collector];
    let mut matching_lines: u64 = 0;
    let mut occurrences: u64 = 0;
    let mut finished: usize = 0;
    let total_blocks = blocks.len();
    while blocks.len() > 0
        invariant
            collector.wf(),
            collector.kept_setup(*old(collector)),
            cache_matches(query, cache),
            query is Literal ==> query->Literal_0@.len() > 0,
            finished + blocks@.len() == total_blocks,
            total_blocks == all_blocks.len(),
            forall|k: int| 0 <= k < blocks@.len() ==> block_wf(#[trigger] blocks@[k].view(), bytes@),
            forall|k: int| 0 <= k < blocks@.len() ==> #[trigger] blocks@[k].view() == all_blocks[finished + k],
            collector.mode() == old(collector).mode(),
            collectors.len() == finished + 1,
            collectors[0] == *old(collector),
            collectors.last() == *collector,
            forall|k: int| 0 <= k < finished ==> #[trigger] block_recorded(collectors[k], collectors[k + 1], given, bytes@,
                all_blocks[k], *query, *options),
            matching_lines == blocks_lines(all_blocks, finished as int),
            occurrences == blocks_matches(all_blocks, finished as int),
            identity == given,
        decreases blocks@.len(),
    {
        proof {
            assert(block_wf(blocks@[0].view(), bytes@));
            assert(blocks@[0].view() == all_blocks[finished + 0]);
        }
        let ghost before_remove = blocks@;
        let block = blocks.remove(0);
        proof {
            assert forall|k: int| 0 <= k < blocks@.len() implies block_wf(#[trigger] blocks@[k].view(), bytes@) by {
                assert(blocks@[k] == before_remove[k + 1]);
            }
            assert forall|k: int| 0 <= k < blocks@.len() implies #[trigger] blocks@[k].view() == all_blocks[finished + 1 + k] by {
                assert(blocks@[k] == before_remove[k + 1]);
                assert(before_remove[k + 1].view() == all_blocks[finished + (k + 1)]);
            }
        }
        let ghost here = *collector;
        let counts = finish_block(block, bytes, &identity, query, cache, options, collector);
        proof {
            assert(block_recorded(here, *collector, given, bytes@, all_blocks[finished as int], *query, *options));
            let next = collectors.push(*collector);
            assert forall|k: int| 0 <= k < finished + 1 implies #[trigger] block_recorded(next[k], next[k + 1], given, bytes@,
                all_blocks[k], *query, *options) by {
                if k < finished {
                    assert(next[k] == collectors[k] && next[k + 1] == collectors[k + 1]);
                }
            }
            collectors = next;
        }
        matching_lines = matching_lines.saturating_add(counts.0);
        occurrences = occurrences.saturating_add(counts.1);
        finished = finished + 1;
    }
    let total_lines = if collector.needs_file_evidence(occurrences) {
        logical_line_count(bytes)
    } else {
        0
    };
    let summary = FileSummary {
        root_index: identity.root_index,
        path: identity.path,
        source_bytes: identity.source_bytes,
        total_lines,
        matching_lines,
        occurrences,
        encoding: identity.encoding,
        lossy: identity.lossy,
        archive: identity.archive,
    };
    proof {
        assert(blocks_recorded(collectors, given, bytes@, all_blocks, *query, *options));
        assert(summary == multiline_summary(given, bytes@, all_blocks, old(collector).evidence_mode()));
    }
    collector.finish_file(summary);
}

} // verus!

//! Line-isolated search of one decoded source.
use vstd::prelude::*;
use vstd::utf8::valid_utf8;
use std::collections::VecDeque;
use crate::collector::{file_finished, lemma_finished_rooted, rooted, Collector, FileSummary};
use crate::lines::{events_view, LineEvent, LineSplitter, SpecLineEvent, SplitState, feed, sat_add};
use crate::options::{ResultMode, SearchOptions};
use crate::query::{CompiledQuery, QueryCache, cache_matches, matcher_spans, preview_result, query_matcher, query_spans, spans_wf, SpecMatcher};
use crate::report::{ContextLine, MatchSpan, SearchMatch, SearchWarning, SearchWarningKind};
use crate::text::{append_decimal, decimal_chars, is_utf8, lossy_string, lossy_utf8};

verus! {

/// What identifies the source being searched in its records.
pub struct SearchIdentity {
    /// Index of the configured root the source belongs to.
    pub root_index: usize,
    /// Display path of the source.
    pub path: String,
    /// Size of the source in bytes.
    pub source_bytes: u64,
    /// Name of the decoding used.
    pub encoding: String,
    /// Whether the source lies inside an archive.
    pub archive: bool,
    /// Offset of the decoded text in its source, where it is known.
    pub source_offset_base: Option<u64>,
    /// Whether decoding replaced malformed input.
    pub lossy: bool,
}

/// A match waiting for its following context lines.
pub struct PendingMatch {
    /// The match record.
    pub found: SearchMatch,
    /// Context lines still to collect.
    pub remaining: usize,
}

/// A line without a trailing `\r`.
pub open spec fn strip_cr(line: Seq<u8>) -> Seq<u8> {
    if line.len() > 0 && line.last() == 13 {
        line.drop_last()
    } else {
        line
    }
}

/// The lines among `events` in which `matcher` finds a match; too-long
/// lines are not searched.
pub open spec fn line_hits(events: Seq<SpecLineEvent>, matcher: SpecMatcher) -> nat
    decreases events.len(),
{
    if events.len() == 0 {
        0
    } else {
        line_hits(events.drop_last(), matcher) + match events.last() {
            SpecLineEvent::Line(_, _, bytes) => if matcher_spans(matcher, strip_cr(bytes)).len() > 0 { 1nat } else { 0nat },
            SpecLineEvent::TooLong(_) => 0nat,
        }
    }
}

/// The matches `matcher` finds in the lines among `events`.
pub open spec fn line_occurrences(events: Seq<SpecLineEvent>, matcher: SpecMatcher) -> nat
    decreases events.len(),
{
    if events.len() == 0 {
        0
    } else {
        line_occurrences(events.drop_last(), matcher) + match events.last() {
            SpecLineEvent::Line(_, _, bytes) => matcher_spans(matcher, strip_cr(bytes)).len(),
            SpecLineEvent::TooLong(_) => 0nat,
        }
    }
}

/// The matches of `matcher` in the unterminated last line a splitter holds.
pub open spec fn last_line_spans(st: SplitState, matcher: SpecMatcher) -> Seq<MatchSpan> {
    if !st.discarding && st.pending.len() > 0 { matcher_spans(matcher, strip_cr(st.pending)) } else { Seq::empty() }
}

/// The matching lines and matches a line search with `matcher` counts in
/// `text`: the lines the splitter cuts with a `max`-byte limit, then the
/// unterminated last line, each count saturating.
pub open spec fn line_counts(text: Seq<u8>, max: nat, matcher: SpecMatcher) -> (u64, u64) {
    let st = feed(max, crate::lines::initial_state(), text);
    let last = last_line_spans(st, matcher);
    (
        sat_add(sat_add(0, line_hits(st.events, matcher) as int), if last.len() > 0 { 1int } else { 0int }),
        sat_add(sat_add(0, line_occurrences(st.events, matcher) as int), last.len() as int),
    )
}

/// The aggregate counters of a collector.
pub open spec fn counters(c: Collector) -> (u64, u64, u64) {
    (c.matching_line_count(), c.occurrence_count(), c.matched_file_count())
}

/// Saturating additions can be gathered into one.
pub proof fn lemma_sat_add_twice(x: u64, a: int, b: int)
    requires
        0 <= a,
        0 <= b,
    ensures
        sat_add(sat_add(x, a), b) == sat_add(x, a + b),
{
}

/// The message of the warning for a line longer than the limit.
pub open spec fn long_line_message(line_number: u64, max_line_bytes: usize) -> Seq<char> {
    seq!['l', 'i', 'n', 'e', ' '] + decimal_chars(line_number as nat) + seq![' ', 'e', 'x', 'c', 'e', 'e', 'd', 's', ' ', 't', 'h', 'e', ' ']
        + decimal_chars(max_line_bytes as nat) + seq![' ', 'b', 'y', 't', 'e', ' ', 'l', 'i', 'm', 'i', 't']
}

/// The message of the warning for malformed UTF-8 in `path`.
pub open spec fn lossy_message(path: Seq<char>) -> Seq<char> {
    path + seq![' ', 'c', 'o', 'n', 't', 'a', 'i', 'n', 's', ' ', 'm', 'a', 'l', 'f', 'o', 'r', 'm', 'e', 'd', ' ', 'U', 'T', 'F', '-', '8', ';', ' ',
        'r', 'e', 'p', 'l', 'a', 'c', 'e', 'm', 'e', 'n', 't', ' ', 'c', 'h', 'a', 'r', 'a', 'c', 't', 'e', 'r', 's', ' ', 'w', 'e', 'r', 'e', ' ', 'u', 's', 'e', 'd']
}

/// The message of the warning for a replacement preview over the limit.
pub open spec fn replacement_limit_message(limit: usize) -> Seq<char> {
    seq!['r', 'e', 'p', 'l', 'a', 'c', 'e', 'm', 'e', 'n', 't', ' ', 'p', 'r', 'e', 'v', 'i', 'e', 'w', ' ', 'e', 'x', 'c', 'e', 'e', 'd', 's', ' ', 't', 'h', 'e', ' ']
        + decimal_chars(limit as nat) + seq![' ', 'b', 'y', 't', 'e', ' ', 'l', 'i', 'm', 'i', 't']
}

/// Builds the message of the warning for a line longer than the limit.
pub fn long_line_text(line_number: u64, max_line_bytes: usize) -> (message: String)
    ensures
        message@ == long_line_message(line_number, max_line_bytes),
{
    let mut message = String::from_str("line ");
    append_decimal(&mut message, line_number);
    message.append(" exceeds the ");
    append_decimal(&mut message, max_line_bytes as u64);
    message.append(" byte limit");
    proof {
        reveal_strlit("line ");
        reveal_strlit(" exceeds the ");
        reveal_strlit(" byte limit");
        assert(message@ =~= long_line_message(line_number, max_line_bytes));
    }
    message
}

/// Builds the message of the warning for malformed UTF-8.
pub fn lossy_text(path: &String) -> (message: String)
    ensures
        message@ == lossy_message(path@),
{
    let mut message = path.clone();
    message.append(" contains malformed UTF-8; replacement characters were used");
    proof {
        reveal_strlit(" contains malformed UTF-8; replacement characters were used");
        assert(message@ =~= lossy_message(path@));
    }
    message
}

/// Builds the message of the warning for an oversized replacement preview.
pub fn replacement_limit_text(limit: usize) -> (message: String)
    ensures
        message@ == replacement_limit_message(limit),
{
    let mut message = String::from_str("replacement preview exceeds the ");
    append_decimal(&mut message, limit as u64);
    message.append(" byte limit");
    proof {
        reveal_strlit("replacement preview exceeds the ");
        reveal_strlit(" byte limit");
        assert(message@ =~= replacement_limit_message(limit));
    }
    message
}

/// Decodes a line for display: the text, and whether it was malformed.
pub fn render_line(line: &[u8]) -> (rendered: (String, bool))
    ensures
        rendered.0@ == lossy_utf8(line@),
        rendered.1 == !valid_utf8(line@),
{
    let valid = is_utf8(line);
    (lossy_string(line), !valid)
}

/// A copy of a context line.
pub fn copy_context(line: &ContextLine) -> (copy: ContextLine)
    ensures
        copy == *line,
{
    ContextLine { line_number: line.line_number, text: line.text.clone(), lossy: line.lossy }
}

/// `w` is the malformed-UTF-8 warning for `path`.
pub open spec fn is_lossy_warning(w: SearchWarning, path: String) -> bool {
    w.path == path && w.kind == SearchWarningKind::Encoding && w.message@ == lossy_message(path@)
}

/// `w` is the long-line warning for line `number` of `path`.
pub open spec fn is_long_line_warning(w: SearchWarning, path: String, number: u64, limit: usize) -> bool {
    w.path == path && w.kind == SearchWarningKind::LineTooLong && w.message@ == long_line_message(number, limit)
}

/// `w` is the replacement-limit warning for `path`.
pub open spec fn is_replacement_warning(w: SearchWarning, path: String, limit: usize) -> bool {
    w.path == path && w.kind == SearchWarningKind::Limit && w.message@ == replacement_limit_message(limit)
}

/// The collector changed only by warnings appended to its warning ranking.
pub open spec fn only_warned(before: Collector, after: Collector, added: Seq<SearchWarning>) -> bool {
    &&& after.wf()
    &&& after.warning_ranking().offered() == before.warning_ranking().offered() + added
    &&& after.warning_ranking().limit() == before.warning_ranking().limit()
    &&& after.match_ranking() == before.match_ranking()
    &&& after.file_ranking() == before.file_ranking()
    &&& after.evidence_ranking() == before.evidence_ranking()
    &&& after.mode() == before.mode()
    &&& after.evidence_mode() == before.evidence_mode()
    &&& after.matching_line_count() == before.matching_line_count()
    &&& after.occurrence_count() == before.occurrence_count()
    &&& after.matched_file_count() == before.matched_file_count()
    &&& after.quiet_recorded() == before.quiet_recorded()
    &&& after.fatal_failure() == before.fatal_failure()
}

/// `new` is `old` with `context` appended to its following lines.
pub open spec fn extended_record(old: SearchMatch, new: SearchMatch, context: ContextLine) -> bool {
    &&& new.after@ == old.after@.push(context)
    &&& new == (SearchMatch { after: new.after, ..old })
}

/// The pending matches `pending`, each given the context line `context`,
/// split into the records now complete, `ready`, and those still waiting,
/// both in their original order.
pub open spec fn pending_step(pending: Seq<PendingMatch>, context: ContextLine, ready: Seq<SearchMatch>, waiting: Seq<PendingMatch>) -> bool
    decreases pending.len(),
{
    if pending.len() == 0 {
        ready.len() == 0 && waiting.len() == 0
    } else {
        let last = pending.last();
        if last.remaining <= 1 {
            &&& ready.len() > 0
            &&& extended_record(last.found, ready.last(), context)
            &&& pending_step(pending.drop_last(), context, ready.drop_last(), waiting)
        } else {
            &&& waiting.len() > 0
            &&& extended_record(last.found, waiting.last().found, context)
            &&& waiting.last().remaining == last.remaining - 1
            &&& pending_step(pending.drop_last(), context, ready, waiting.drop_last())
        }
    }
}

/// The preceding-context window after `context`: the last `count` lines.
pub open spec fn window(before: Seq<ContextLine>, context: ContextLine, count: usize) -> Seq<ContextLine> {
    let pushed = before.push(context);
    if pushed.len() > count {
        pushed.subrange(pushed.len() - count, pushed.len() as int)
    } else {
        pushed
    }
}

/// `c` is the context line for line `number` whose bytes are `text`.
pub open spec fn is_context(c: ContextLine, number: u64, text: Seq<u8>, source_lossy: bool) -> bool {
    &&& c.line_number == number
    &&& c.text@ == lossy_utf8(text)
    &&& c.lossy == (!valid_utf8(text) || source_lossy)
}

/// The collector changed only by match records appended to its match
/// ranking and warnings appended to its warning ranking.
pub open spec fn only_offered(before: Collector, after: Collector, records: Seq<SearchMatch>, warnings: Seq<SearchWarning>) -> bool {
    &&& after.wf()
    &&& after.match_ranking().offered() == before.match_ranking().offered() + records
    &&& after.match_ranking().limit() == before.match_ranking().limit()
    &&& after.warning_ranking().offered() == before.warning_ranking().offered() + warnings
    &&& after.warning_ranking().limit() == before.warning_ranking().limit()
    &&& after.file_ranking() == before.file_ranking()
    &&& after.evidence_ranking() == before.evidence_ranking()
    &&& after.mode() == before.mode()
    &&& after.evidence_mode() == before.evidence_mode()
    &&& after.matching_line_count() == before.matching_line_count()
    &&& after.occurrence_count() == before.occurrence_count()
    &&& after.matched_file_count() == before.matched_file_count()
    &&& after.quiet_recorded() == before.quiet_recorded()
    &&& after.fatal_failure() == before.fatal_failure()
}

/// `r` is the record of a match on line `number`.
pub open spec fn is_line_record(
    r: SearchMatch,
    identity: SearchIdentity,
    number: u64,
    offset: u64,
    context: ContextLine,
    spans: Seq<MatchSpan>,
    before: Seq<ContextLine>,
    preview: Option<String>,
) -> bool {
    &&& r.root_index == identity.root_index
    &&& r.path == identity.path
    &&& r.line_number == number
    &&& r.end_line_number == number
    &&& r.decoded_byte_offset == offset
    &&& r.source_byte_offset == match identity.source_offset_base {
        Some(base) => Some(sat_add(base, offset as int)),
        None => None,
    }
    &&& r.line@ == context.text@
    &&& r.replacement_preview == preview
    &&& r.spans@ == spans
    &&& r.before@ == before
    &&& r.after@.len() == 0
    &&& r.encoding == identity.encoding
    &&& r.lossy == context.lossy
    &&& r.archive == identity.archive
}

/// What a replacement preview of a line is: none without a template;
/// otherwise the preview text of the whole line exactly when it fits the
/// limit.
pub open spec fn preview_outcome(preview: Option<String>, query: CompiledQuery, text: Seq<u8>, options: SearchOptions) -> bool {
    &&& options.replacement is None ==> preview is None
    &&& options.replacement is Some ==> match preview_result(query, text, 0, text.len() as int,
        options.replacement->0@, options.max_replacement_bytes as int) {
        Some(full) => preview is Some && preview->0@ == lossy_utf8(full),
        None => preview is None,
    }
}

/// The warnings issued while rendering one matched or context line.
pub open spec fn line_warnings(
    warnings: Seq<SearchWarning>,
    searcher: LineSearcher,
    preview: Option<String>,
    text: Seq<u8>,
    options: SearchOptions,
) -> bool {
    let path = searcher.identity_view().path;
    let replacement_warned = options.replacement is Some && preview is None && !searcher.replacement_warned();
    let lossy_warned = !valid_utf8(text) && !searcher.identity_view().lossy && !searcher.lossy_warned();
    warnings.len() == (if replacement_warned { 1int } else { 0int }) + (if lossy_warned { 1int } else { 0int })
        && (replacement_warned ==> is_replacement_warning(warnings[0], path, options.max_replacement_bytes))
        && (lossy_warned ==> is_lossy_warning(warnings.last(), path))
}

/// The collector after recording a quiet-mode match of `lines` lines and
/// `occurrences` matches.
pub open spec fn quiet_effect(before: Collector, after: Collector, lines: u64, occurrences: u64) -> bool {
    &&& after.wf()
    &&& after.quiet_recorded()
    &&& after.match_ranking() == before.match_ranking()
    &&& after.file_ranking() == before.file_ranking()
    &&& after.evidence_ranking() == before.evidence_ranking()
    &&& after.warning_ranking() == before.warning_ranking()
    &&& after.mode() == before.mode()
    &&& after.evidence_mode() == before.evidence_mode()
    &&& after.dropped_warning_count() == before.dropped_warning_count()
    &&& after.fatal_failure() == before.fatal_failure()
    &&& before.quiet_recorded() ==> {
        &&& after.matching_line_count() == before.matching_line_count()
        &&& after.occurrence_count() == before.occurrence_count()
        &&& after.matched_file_count() == before.matched_file_count()
    }
    &&& !before.quiet_recorded() ==> {
        &&& after.matching_line_count() == lines
        &&& after.occurrence_count() == occurrences
        &&& after.matched_file_count() == 1
    }
}

/// How a line searched in match mode changes the searcher and the
/// collector: its context line, replacement preview, completed and waiting
/// matches, warnings, and the record of its own match.
pub open spec fn line_outcome(
    old_self: LineSearcher,
    new_self: LineSearcher,
    old_collector: Collector,
    new_collector: Collector,
    query: CompiledQuery,
    options: SearchOptions,
    number: u64,
    offset: u64,
    text: Seq<u8>,
    spans: Seq<MatchSpan>,
    context: ContextLine,
    preview: Option<String>,
    ready: Seq<SearchMatch>,
    waiting: Seq<PendingMatch>,
    warnings: Seq<SearchWarning>,
    record: SearchMatch,
) -> bool {
    &&& is_context(context, number, text, old_self.identity_view().lossy)
    &&& preview_outcome(preview, query, text, options)
    &&& line_warnings(warnings, old_self, preview, text, options)
    &&& pending_step(old_self.pending(), context, ready, waiting)
    &&& new_self.before_lines() == if options.before_context > 0 {
        window(old_self.before_lines(), context, options.before_context)
    } else {
        old_self.before_lines()
    }
    &&& spans.len() > 0 ==> is_line_record(record, old_self.identity_view(), number, offset, context, spans,
        old_self.before_lines(), preview)
    &&& new_self.lossy_warned() == (old_self.lossy_warned() || (!valid_utf8(text) && !old_self.identity_view().lossy))
    &&& new_self.replacement_warned() == (old_self.replacement_warned() || (options.replacement is Some && preview is None))
    &&& if spans.len() > 0 && options.after_context == 0 {
        &&& only_offered(old_collector, new_collector, ready.push(record), warnings)
        &&& new_self.pending() == waiting
    } else if spans.len() > 0 {
        &&& only_offered(old_collector, new_collector, ready, warnings)
        &&& new_self.pending() == waiting.push(PendingMatch { found: record, remaining: options.after_context })
    } else {
        &&& only_offered(old_collector, new_collector, ready, warnings)
        &&& new_self.pending() == waiting
    }
}

/// Every pending match names a root below `n`.
pub open spec fn pending_rooted(pending: Seq<PendingMatch>, n: nat) -> bool {
    forall|i: int| 0 <= i < pending.len() ==> (#[trigger] pending[i]).found.root_index < n
}

/// Offering records under roots below `n` keeps every offered root below
/// `n`.
pub proof fn lemma_offered_rooted(before: Collector, after: Collector, records: Seq<SearchMatch>, warnings: Seq<SearchWarning>, n: nat)
    requires
        only_offered(before, after, records, warnings),
        rooted(before, n),
        forall|i: int| 0 <= i < records.len() ==> (#[trigger] records[i]).root_index < n,
    ensures
        rooted(after, n),
{
    assert forall|i: int| 0 <= i < after.match_ranking().offered().len() implies
        (#[trigger] after.match_ranking().offered()[i]).root_index < n by {
        if i < before.match_ranking().offered().len() {
            assert(after.match_ranking().offered()[i] == before.match_ranking().offered()[i]);
        } else {
            assert(after.match_ranking().offered()[i] == records[i - before.match_ranking().offered().len()]);
        }
    }
}

/// Completing pending matches keeps their roots.
proof fn lemma_pending_step_rooted(pending: Seq<PendingMatch>, context: ContextLine, ready: Seq<SearchMatch>,
    waiting: Seq<PendingMatch>, n: nat)
    requires
        pending_step(pending, context, ready, waiting),
        pending_rooted(pending, n),
    ensures
        forall|i: int| 0 <= i < ready.len() ==> (#[trigger] ready[i]).root_index < n,
        pending_rooted(waiting, n),
    decreases pending.len(),
{
    if pending.len() > 0 {
        let last = pending.last();
        assert(pending_rooted(pending.drop_last(), n)) by {
            assert forall|i: int| 0 <= i < pending.drop_last().len() implies (#[trigger] pending.drop_last()[i]).found.root_index < n by {
                assert(pending.drop_last()[i] == pending[i]);
            }
        }
        assert(last == pending[pending.len() - 1]);
        if last.remaining <= 1 {
            lemma_pending_step_rooted(pending.drop_last(), context, ready.drop_last(), waiting, n);
            assert forall|i: int| 0 <= i < ready.len() implies (#[trigger] ready[i]).root_index < n by {
                if i < ready.len() - 1 {
                    assert(ready[i] == ready.drop_last()[i]);
                }
            }
        } else {
            lemma_pending_step_rooted(pending.drop_last(), context, ready, waiting.drop_last(), n);
            assert forall|i: int| 0 <= i < waiting.len() implies (#[trigger] waiting[i]).found.root_index < n by {
                if i < waiting.len() - 1 {
                    assert(waiting[i] == waiting.drop_last()[i]);
                }
            }
        }
    }
}

/// A line keeps every offered and pending root below `n` when the source's
/// root is.
pub proof fn lemma_line_rooted(old_self: LineSearcher, new_self: LineSearcher, old_c: Collector, new_c: Collector,
    query: CompiledQuery, options: SearchOptions, number: u64, offset: u64, line: Seq<u8>, n: nat)
    requires
        line_effect(old_self, new_self, old_c, new_c, query, options, number, offset, line),
        rooted(old_c, n),
        pending_rooted(old_self.pending(), n),
        old_self.identity_view().root_index < n,
    ensures
        rooted(new_c, n),
        pending_rooted(new_self.pending(), n),
{
    let found = query_spans(query, strip_cr(line));
    if old_c.mode() == ResultMode::Matches && (found.len() > 0 || old_self.pending().len() > 0 || options.before_context > 0) {
        let text = strip_cr(line);
        let (context, preview, ready, waiting, warnings, record) = choose|context: ContextLine, preview: Option<String>,
            ready: Seq<SearchMatch>, waiting: Seq<PendingMatch>, warnings: Seq<SearchWarning>, record: SearchMatch|
            #[trigger] line_outcome(old_self, new_self, old_c, new_c, query, options, number, offset, text, found, context,
                preview, ready, waiting, warnings, record);
        lemma_pending_step_rooted(old_self.pending(), context, ready, waiting, n);
        if found.len() > 0 && options.after_context == 0 {
            let offered = ready.push(record);
            assert forall|i: int| 0 <= i < offered.len() implies (#[trigger] offered[i]).root_index < n by {
                if i < ready.len() {
                    assert(offered[i] == ready[i]);
                }
            }
            lemma_offered_rooted(old_c, new_c, offered, warnings, n);
        } else if found.len() > 0 {
            lemma_offered_rooted(old_c, new_c, ready, warnings, n);
            let pushed = waiting.push(PendingMatch { found: record, remaining: options.after_context });
            assert forall|i: int| 0 <= i < pushed.len() implies (#[trigger] pushed[i]).found.root_index < n by {
                if i < waiting.len() {
                    assert(pushed[i] == waiting[i]);
                }
            }
        } else {
            lemma_offered_rooted(old_c, new_c, ready, warnings, n);
        }
    } else if found.len() > 0 && old_c.mode() == ResultMode::Quiet {
    } else {
        let text = strip_cr(line);
        if !valid_utf8(text) && !old_self.lossy_warned() {
            let w = choose|w: SearchWarning| is_lossy_warning(w, old_self.identity_view().path) && only_warned(old_c, new_c, seq![w]);
        }
    }
}

/// Every event keeps the offered and pending roots below `n`.
pub proof fn lemma_events_rooted(selves: Seq<LineSearcher>, collectors: Seq<Collector>, events: Seq<SpecLineEvent>,
    query: CompiledQuery, options: SearchOptions, n: nat, k: int)
    requires
        events_effect(selves, collectors, events, query, options),
        0 <= k <= events.len(),
        rooted(collectors[0], n),
        pending_rooted(selves[0].pending(), n),
        selves[0].identity_view().root_index < n,
    ensures
        rooted(collectors[k], n),
        pending_rooted(selves[k].pending(), n),
        selves[k].identity_view() == selves[0].identity_view(),
    decreases k,
{
    if k > 0 {
        let i = k - 1;
        lemma_events_rooted(selves, collectors, events, query, options, n, i);
        assert(event_effect(selves[i], selves[i + 1], collectors[i], collectors[i + 1], query, options, events[i]));
        match events[i] {
            SpecLineEvent::Line(number, offset, bytes) => {
                lemma_line_rooted(selves[i], selves[i + 1], collectors[i], collectors[i + 1], query, options, number, offset,
                    bytes, n);
            },
            SpecLineEvent::TooLong(number) => {
                let w = choose|w: SearchWarning| is_long_line_warning(w, selves[i].identity_view().path, number,
                    options.max_line_bytes) && #[trigger] only_warned(collectors[i], collectors[i + 1], seq![w]);
            },
        }
    }
}

/// Ending a source keeps the offered roots below `n`.
pub proof fn lemma_finish_rooted(s: LineSearcher, before: Collector, after: Collector, query: CompiledQuery,
    options: SearchOptions, n: nat)
    requires
        finish_effect(s, before, after, query, options),
        rooted(before, n),
        pending_rooted(s.pending(), n),
        s.identity_view().root_index < n,
    ensures
        rooted(after, n),
{
    let (s0, s1, c1, c2) = choose|s0: LineSearcher, s1: LineSearcher, c1: Collector, c2: Collector|
        #![trigger last_line_done(s.split_state(), s0, s1, before, c1, query, options), file_finished(c2, after, line_summary(s, query))]
        last_line_done(s.split_state(), s0, s1, before, c1, query, options) && same_progress(s0, s)
        && only_offered(c1, c2, s1.pending().map_values(|p: PendingMatch| p.found), Seq::empty())
        && c2.warning_ranking() == c1.warning_ranking()
        && c2.dropped_warning_count() == c1.dropped_warning_count()
        && file_finished(c2, after, line_summary(s, query));
    let st = s.split_state();
    if !st.discarding && st.pending.len() > 0 {
        lemma_line_rooted(s0, s1, before, c1, query, options, st.line_number, st.pending_offset, st.pending, n);
    }
    let records = s1.pending().map_values(|p: PendingMatch| p.found);
    assert forall|i: int| 0 <= i < records.len() implies (#[trigger] records[i]).root_index < n by {
        assert(records[i] == s1.pending()[i].found);
    }
    lemma_offered_rooted(c1, c2, records, Seq::empty(), n);
    lemma_finished_rooted(c2, after, line_summary(s, query), n);
}

/// Searches the lines of one source as they arrive.
pub struct LineSearcher {
    identity: SearchIdentity,
    splitter: LineSplitter,
    before: VecDeque<ContextLine>,
    pending_matches: Vec<PendingMatch>,
    warned_lossy: bool,
    matching_lines: u64,
    occurrences: u64,
    warned_replacement_limit: bool,
}

/// What searching one complete line `line` numbered `number` at byte
/// `offset` does to the searcher and the collector (see `process_line`):
/// its matches are `query_spans` of the line without its `\r`.
pub open spec fn line_effect(
    old_self: LineSearcher,
    new_self: LineSearcher,
    old_c: Collector,
    new_c: Collector,
    query: CompiledQuery,
    options: SearchOptions,
    number: u64,
    offset: u64,
    line: Seq<u8>,
) -> bool {
    let found = query_spans(query, strip_cr(line));
    &&& new_self.wf()
    &&& new_c.wf()
    &&& new_c.kept_setup(old_c)
    &&& new_self.identity_view() == old_self.identity_view()
    &&& new_self.split_state() == old_self.split_state()
    &&& new_self.line_limit() == old_self.line_limit()
    &&& new_self.matching_line_count() == if found.len() > 0 {
        sat_add(old_self.matching_line_count(), 1)
    } else {
        old_self.matching_line_count()
    }
    &&& new_self.occurrence_count() == sat_add(old_self.occurrence_count(), found.len() as int)
    &&& found.len() > 0 && old_c.mode() == ResultMode::Quiet ==> {
        &&& quiet_effect(old_c, new_c, 1, found.len() as u64)
        &&& new_self.before_lines() == old_self.before_lines()
        &&& new_self.pending() == old_self.pending()
        &&& new_self.lossy_warned() == old_self.lossy_warned()
        &&& new_self.replacement_warned() == old_self.replacement_warned()
    }
    &&& !(found.len() > 0 && old_c.mode() == ResultMode::Quiet) && (old_c.mode() != ResultMode::Matches
        || (found.len() == 0 && old_self.pending().len() == 0 && options.before_context == 0)) ==> {
        let text = strip_cr(line);
        &&& new_self.before_lines() == old_self.before_lines()
        &&& new_self.pending() == old_self.pending()
        &&& new_self.replacement_warned() == old_self.replacement_warned()
        &&& new_self.lossy_warned() == (old_self.lossy_warned() || !valid_utf8(text))
        &&& (valid_utf8(text) || old_self.lossy_warned()) ==> new_c == old_c
        &&& (!valid_utf8(text) && !old_self.lossy_warned()) ==> exists|w: SearchWarning|
            is_lossy_warning(w, old_self.identity_view().path) && only_warned(old_c, new_c, seq![w])
    }
    &&& old_c.mode() == ResultMode::Matches && (found.len() > 0 || old_self.pending().len() > 0
        || options.before_context > 0) ==> {
        let text = strip_cr(line);
        exists|context: ContextLine, preview: Option<String>, ready: Seq<SearchMatch>, waiting: Seq<PendingMatch>,
            warnings: Seq<SearchWarning>, record: SearchMatch|
            #[trigger] line_outcome(old_self, new_self, old_c, new_c, query, options, number,
                offset, text, found, context, preview, ready, waiting, warnings, record)
    }
}

/// What an over-long line numbered `number` does: one long-line warning,
/// the searcher unchanged.
pub open spec fn long_line_effect(old_self: LineSearcher, new_self: LineSearcher, old_c: Collector, new_c: Collector, number: u64,
    options: SearchOptions) -> bool {
    &&& new_self == old_self
    &&& new_c.wf()
    &&& new_c.kept_setup(old_c)
    &&& exists|w: SearchWarning| is_long_line_warning(w, old_self.identity_view().path, number, options.max_line_bytes)
        && #[trigger] only_warned(old_c, new_c, seq![w])
}

/// What one line event does.
pub open spec fn event_effect(old_self: LineSearcher, new_self: LineSearcher, old_c: Collector, new_c: Collector,
    query: CompiledQuery, options: SearchOptions, event: SpecLineEvent) -> bool {
    match event {
        SpecLineEvent::Line(number, offset, bytes) => line_effect(old_self, new_self, old_c, new_c, query, options, number, offset, bytes),
        SpecLineEvent::TooLong(number) => long_line_effect(old_self, new_self, old_c, new_c, number, options),
    }
}

/// What searching the unterminated last line a splitter in state `st`
/// holds does, if it holds one: from searcher `s0` and collector `before`
/// to `s1` and `c1`.
pub open spec fn last_line_done(st: SplitState, s0: LineSearcher, s1: LineSearcher, before: Collector, c1: Collector,
    query: CompiledQuery, options: SearchOptions) -> bool {
    if !st.discarding && st.pending.len() > 0 {
        line_effect(s0, s1, before, c1, query, options, st.line_number, st.pending_offset, st.pending)
    } else {
        s1 == s0 && c1 == before
    }
}

/// The number of lines a splitter in state `st` has cut when its source
/// ends: the complete lines, and the unterminated last one if any.
pub open spec fn total_lines_of(st: SplitState) -> u64 {
    sat_add((if st.line_number > 0 { st.line_number - 1 } else { 0 }) as u64,
        if st.discarding || st.pending.len() > 0 { 1 } else { 0 })
}

/// The summary recorded when searcher `s` ends its source: its identity,
/// its line count, and its matched lines and matches with those of its
/// unterminated last line.
pub open spec fn line_summary(s: LineSearcher, query: CompiledQuery) -> FileSummary {
    let last = last_line_spans(s.split_state(), query_matcher(query));
    FileSummary {
        root_index: s.identity_view().root_index,
        path: s.identity_view().path,
        source_bytes: s.identity_view().source_bytes,
        total_lines: total_lines_of(s.split_state()),
        matching_lines: sat_add(s.matching_line_count(), if last.len() > 0 { 1int } else { 0int }),
        occurrences: sat_add(s.occurrence_count(), last.len() as int),
        encoding: s.identity_view().encoding,
        lossy: s.identity_view().lossy,
        archive: s.identity_view().archive,
    }
}

/// What ending a source does to the collector (see `finish`): its
/// unterminated last line is searched, the matches still waiting for
/// following context are offered in order, the source's summary is
/// recorded, and, outside quiet mode, the source's counts are added, with
/// one matched file when it matched.
pub open spec fn finish_effect(s: LineSearcher, before: Collector, after: Collector, query: CompiledQuery,
    options: SearchOptions) -> bool {
    &&& after.wf()
    &&& after.kept_setup(before)
    &&& exists|s0: LineSearcher, s1: LineSearcher, c1: Collector, c2: Collector|
        #![trigger last_line_done(s.split_state(), s0, s1, before, c1, query, options), file_finished(c2, after, line_summary(s, query))]
        last_line_done(s.split_state(), s0, s1, before, c1, query, options) && same_progress(s0, s)
        && only_offered(c1, c2, s1.pending().map_values(|p: PendingMatch| p.found), Seq::empty())
        && c2.warning_ranking() == c1.warning_ranking()
        && c2.dropped_warning_count() == c1.dropped_warning_count()
        && file_finished(c2, after, line_summary(s, query))
    &&& before.mode() != ResultMode::Quiet ==> {
        let last = last_line_spans(s.split_state(), query_matcher(query));
        let lines = sat_add(s.matching_line_count(), if last.len() > 0 { 1int } else { 0int });
        let found = sat_add(s.occurrence_count(), last.len() as int);
        &&& found > 0 ==> counters(after) == (before.matching_line_count().wrapping_add(lines),
            before.occurrence_count().wrapping_add(found), before.matched_file_count().wrapping_add(1))
        &&& found == 0 ==> counters(after) == counters(before)
    }
}

/// A searcher at the start of a source searched under `identity`, its
/// splitter aside.
pub open spec fn starts_source(s: LineSearcher, identity: SearchIdentity, options: SearchOptions) -> bool {
    &&& s.identity_view() == identity
    &&& s.line_limit() == options.max_line_bytes
    &&& s.matching_line_count() == 0
    &&& s.occurrence_count() == 0
    &&& s.before_lines().len() == 0
    &&& s.pending().len() == 0
    &&& !s.lossy_warned()
    &&& !s.replacement_warned()
}

/// Two searchers agree on everything but their splitters.
pub open spec fn same_progress(a: LineSearcher, b: LineSearcher) -> bool {
    &&& a.identity_view() == b.identity_view()
    &&& a.before_lines() == b.before_lines()
    &&& a.pending() == b.pending()
    &&& a.matching_line_count() == b.matching_line_count()
    &&& a.occurrence_count() == b.occurrence_count()
    &&& a.lossy_warned() == b.lossy_warned()
    &&& a.replacement_warned() == b.replacement_warned()
}

/// Two searchers agree on everything but how their splitters are placed.
pub open spec fn same_state(a: LineSearcher, b: LineSearcher) -> bool {
    &&& a.identity_view() == b.identity_view()
    &&& a.line_limit() == b.line_limit()
    &&& a.before_lines() == b.before_lines()
    &&& a.pending() == b.pending()
    &&& a.matching_line_count() == b.matching_line_count()
    &&& a.occurrence_count() == b.occurrence_count()
    &&& a.lossy_warned() == b.lossy_warned()
    &&& a.replacement_warned() == b.replacement_warned()
}

/// `selves` and `collectors` are the searcher and the collector before
/// each of `events` and after the last, each event taking one to the next.
pub open spec fn events_effect(selves: Seq<LineSearcher>, collectors: Seq<Collector>, events: Seq<SpecLineEvent>,
    query: CompiledQuery, options: SearchOptions) -> bool {
    &&& selves.len() == events.len() + 1
    &&& collectors.len() == events.len() + 1
    &&& forall|i: int| 0 <= i < events.len() ==> #[trigger] event_effect(selves[i], selves[i + 1], collectors[i], collectors[i + 1],
        query, options, events[i])
}

impl LineSearcher {
    /// The source identity.
    pub closed spec fn identity_view(&self) -> SearchIdentity {
        self.identity
    }

    /// The splitter state.
    pub closed spec fn split_state(&self) -> SplitState {
        self.splitter.state()
    }

    /// The per-line byte limit.
    pub closed spec fn line_limit(&self) -> nat {
        self.splitter.max()
    }

    /// Lines with at least one match so far.
    pub closed spec fn matching_line_count(&self) -> u64 {
        self.matching_lines
    }

    /// Matches so far.
    pub closed spec fn occurrence_count(&self) -> u64 {
        self.occurrences
    }

    /// The retained preceding-context window, oldest first.
    pub closed spec fn before_lines(&self) -> Seq<ContextLine> {
        self.before@
    }

    /// Matches still collecting following context.
    pub closed spec fn pending(&self) -> Seq<PendingMatch> {
        self.pending_matches@
    }

    /// Whether the malformed-UTF-8 warning was issued.
    pub closed spec fn lossy_warned(&self) -> bool {
        self.warned_lossy
    }

    /// Whether the replacement-limit warning was issued.
    pub closed spec fn replacement_warned(&self) -> bool {
        self.warned_replacement_limit
    }

    /// The searcher invariant.
    pub closed spec fn wf(&self) -> bool {
        self.splitter.wf()
    }

    /// A searcher at the start of a source.
    pub fn new(identity: SearchIdentity, options: &SearchOptions) -> (searcher: Self)
        ensures
            searcher.wf(),
            searcher.identity_view() == identity,
            searcher.line_limit() == options.max_line_bytes,
            searcher.split_state() == crate::lines::initial_state(),
            searcher.matching_line_count() == 0,
            searcher.occurrence_count() == 0,
            searcher.before_lines().len() == 0,
            searcher.pending().len() == 0,
            !searcher.lossy_warned(),
            !searcher.replacement_warned(),
    {
        LineSearcher {
            identity,
            splitter: LineSplitter::new(options.max_line_bytes),
            before: VecDeque::new(),
            pending_matches: Vec::new(),
            warned_lossy: false,
            matching_lines: 0,
            occurrences: 0,
            warned_replacement_limit: false,
        }
    }

    fn warn_long_line(&self, number: u64, options: &SearchOptions, collector: &mut Collector)
        requires
            old(collector).wf(),
        ensures
            exists|w: SearchWarning| is_long_line_warning(w, self.identity_view().path, number, options.max_line_bytes)
                && only_warned(*old(collector), *final(collector), seq![w]),
    {
        let warning = SearchWarning {
            path: self.identity.path.clone(),
            kind: SearchWarningKind::LineTooLong,
            message: long_line_text(number, options.max_line_bytes),
        };
        let ghost w = warning;
        collector.warn(warning);
        proof {
            assert(final(collector).warning_ranking().offered() =~= old(collector).warning_ranking().offered() + seq![w]);
            assert(only_warned(*old(collector), *final(collector), seq![w]));
            assert(is_long_line_warning(w, self.identity_view().path, number, options.max_line_bytes));
        }
    }

    fn warn_lossy(&mut self, collector: &mut Collector) -> (added: Ghost<Seq<SearchWarning>>)
        requires
            old(collector).wf(),
        ensures
            *final(self) == (LineSearcher { warned_lossy: true, ..*old(self) }),
            old(self).lossy_warned() ==> *final(collector) == *old(collector) && added@.len() == 0,
            !old(self).lossy_warned() ==> added@.len() == 1 && is_lossy_warning(added@[0], old(self).identity_view().path),
            only_warned(*old(collector), *final(collector), added@),
            final(collector).wf(),
            final(collector).kept_setup(*old(collector)),
    {
        if self.warned_lossy {
            proof {
                assert(old(collector).warning_ranking().offered() + Seq::<SearchWarning>::empty() =~= old(collector).warning_ranking().offered());
            }
            return Ghost(Seq::empty());
        }
        self.warned_lossy = true;
        let warning = SearchWarning {
            path: self.identity.path.clone(),
            kind: SearchWarningKind::Encoding,
            message: lossy_text(&self.identity.path),
        };
        let ghost w = warning;
        collector.warn(warning);
        proof {
            assert(final(collector).warning_ranking().offered() =~= old(collector).warning_ranking().offered() + seq![w]);
            assert(only_warned(*old(collector), *final(collector), seq![w]));
            assert(is_lossy_warning(w, old(self).identity_view().path));
        }
        let ghost added = seq![w];
        Ghost(added)
    }

    fn warn_replacement_limit(&mut self, options: &SearchOptions, collector: &mut Collector) -> (added: Ghost<Seq<SearchWarning>>)
        requires
            old(collector).wf(),
        ensures
            *final(self) == (LineSearcher { warned_replacement_limit: true, ..*old(self) }),
            old(self).replacement_warned() ==> *final(collector) == *old(collector) && added@.len() == 0,
            !old(self).replacement_warned() ==> added@.len() == 1
                && is_replacement_warning(added@[0], old(self).identity_view().path, options.max_replacement_bytes),
            only_warned(*old(collector), *final(collector), added@),
            final(collector).wf(),
            final(collector).kept_setup(*old(collector)),
    {
        if self.warned_replacement_limit {
            proof {
                assert(old(collector).warning_ranking().offered() + Seq::<SearchWarning>::empty() =~= old(collector).warning_ranking().offered());
            }
            return Ghost(Seq::empty());
        }
        self.warned_replacement_limit = true;
        let warning = SearchWarning {
            path: self.identity.path.clone(),
            kind: SearchWarningKind::Limit,
            message: replacement_limit_text(options.max_replacement_bytes),
        };
        let ghost w = warning;
        collector.warn(warning);
        proof {
            assert(final(collector).warning_ranking().offered() =~= old(collector).warning_ranking().offered() + seq![w]);
            assert(only_warned(*old(collector), *final(collector), seq![w]));
            assert(is_replacement_warning(w, old(self).identity_view().path, options.max_replacement_bytes));
        }
        let ghost added = seq![w];
        Ghost(added)
    }

    fn advance_pending(&mut self, context: &ContextLine, collector: &mut Collector) -> (ready: Ghost<Seq<SearchMatch>>)
        requires
            old(collector).wf(),
        ensures
            *final(self) == (LineSearcher { pending_matches: final(self).pending_matches, ..*old(self) }),
            pending_step(old(self).pending(), *context, ready@, final(self).pending()),
            only_offered(*old(collector), *final(collector), ready@, Seq::empty()),
    {
        let mut remaining_input = Vec::new();
        std::mem::swap(&mut remaining_input, &mut self.pending_matches);
        let ghost all = remaining_input@;
        let total = remaining_input.len();
        let ghost mut ready: Seq<SearchMatch> = Seq::empty();
        let mut index: usize = 0;
        proof {
            assert(all.subrange(0, 0) =~= Seq::<PendingMatch>::empty());
            assert(old(collector).match_ranking().offered() + ready =~= old(collector).match_ranking().offered());
            assert(old(collector).warning_ranking().offered() + Seq::<SearchWarning>::empty() =~= old(collector).warning_ranking().offered());
        }
        while remaining_input.len() > 0
            invariant
                index <= all.len(),
                all.len() == total,
                remaining_input@ == all.subrange(index as int, all.len() as int),
                pending_step(all.subrange(0, index as int), *context, ready, self.pending_matches@),
                only_offered(*old(collector), *collector, ready, Seq::empty()),
                *self == (LineSearcher { pending_matches: self.pending_matches, ..*old(self) }),
                all == old(self).pending(),
            decreases remaining_input@.len(),
        {
            assert(remaining_input@[0] == all[index as int]);
            let mut pending = remaining_input.remove(0);
            let ghost original = pending;
            let copy = copy_context(context);
            pending.found.after.push(copy);
            pending.remaining = pending.remaining.saturating_sub(1);
            let ghost next = all.subrange(0, index + 1);
            proof {
                assert(next.drop_last() =~= all.subrange(0, index as int));
                assert(next.last() == original);
                assert(extended_record(original.found, pending.found, *context));
            }
            if pending.remaining == 0 {
                let ghost record = pending.found;
                let ghost previous = ready;
                collector.retain_match(pending.found);
                proof {
                    ready = ready.push(record);
                    assert(ready.drop_last() =~= previous);
                    assert(collector.match_ranking().offered() =~= old(collector).match_ranking().offered() + ready);
                    assert(pending_step(next, *context, ready, self.pending_matches@));
                }
            } else {
                let ghost previous = self.pending_matches@;
                self.pending_matches.push(pending);
                proof {
                    assert(self.pending_matches@.drop_last() =~= previous);
                    assert(pending_step(next, *context, ready, self.pending_matches@));
                }
            }
            index = index + 1;
            proof {
                assert(remaining_input@ =~= all.subrange(index as int, all.len() as int));
            }
        }
        proof {
            assert(all.subrange(0, index as int) =~= all);
        }
        Ghost(ready)
    }

    fn render_replacement(
        &mut self,
        line: &[u8],
        query: &CompiledQuery,
        cache: &mut QueryCache,
        options: &SearchOptions,
        collector: &mut Collector,
    ) -> (result: (Option<String>, Ghost<Seq<SearchWarning>>))
        requires
            old(collector).wf(),
            cache_matches(query, old(cache)),
            query is Literal ==> query->Literal_0@.len() > 0,
        ensures
            cache_matches(query, final(cache)),
            final(collector).wf(),
            final(collector).kept_setup(*old(collector)),
            preview_outcome(result.0, *query, line@, *options),
            result.0 is Some ==> options.replacement is Some,
            only_warned(*old(collector), *final(collector), result.1@),
            *final(self) == (LineSearcher {
                warned_replacement_limit: old(self).replacement_warned() || (options.replacement is Some && result.0 is None),
                ..*old(self)
            }),
            result.1@.len() == if options.replacement is Some && result.0 is None && !old(self).replacement_warned() { 1int } else { 0int },
            result.1@.len() == 1 ==> is_replacement_warning(result.1@[0], old(self).identity_view().path, options.max_replacement_bytes),
    {
        proof {
            assert(old(collector).warning_ranking().offered() + Seq::<SearchWarning>::empty() =~= old(collector).warning_ranking().offered());
        }
        match &options.replacement {
            None => (None, Ghost(Seq::empty())),
            Some(replacement) => {
                match query.replacement_preview(cache, line, 0, line.len(), replacement.as_str(), options.max_replacement_bytes) {
                    Some(preview) => (Some(lossy_string(preview.as_slice())), Ghost(Seq::empty())),
                    None => {
                        let added = self.warn_replacement_limit(options, collector);
                        (None, added)
                    }
                }
            }
        }
    }

    fn push_context(&mut self, context: ContextLine, count: usize)
        requires
            count > 0,
        ensures
            *final(self) == (LineSearcher { before: final(self).before, ..*old(self) }),
            final(self).before_lines() == window(old(self).before_lines(), context, count),
    {
        self.before.push_back(context);
        let ghost pushed = self.before@;
        while self.before.len() > count
            invariant
                count > 0,
                *self == (LineSearcher { before: self.before, ..*old(self) }),
                self.before@.len() <= pushed.len(),
                pushed.len() > count ==> self.before@.len() >= count && self.before@ == pushed.subrange(pushed.len() - self.before@.len(), pushed.len() as int),
                pushed.len() <= count ==> self.before@ == pushed,
            decreases self.before@.len(),
        {
            let ghost previous = self.before@;
            self.before.pop_front();
            proof {
                assert(pushed.len() > count);
                assert(self.before@ =~= previous.drop_first());
                assert(previous == pushed.subrange(pushed.len() - previous.len(), pushed.len() as int));
                assert(self.before@ =~= pushed.subrange(pushed.len() - self.before@.len(), pushed.len() as int));
            }
        }
        proof {
            if pushed.len() > count {
                assert(self.before@.len() == count);
            }
        }
    }

    fn before_copies(&self) -> (copies: Vec<ContextLine>)
        ensures
            copies@ == self.before_lines(),
    {
        let mut copies: Vec<ContextLine> = Vec::new();
        let mut i: usize = 0;
        while i < self.before.len()
            invariant
                i <= self.before@.len(),
                copies@ == self.before@.subrange(0, i as int),
            decreases self.before@.len() - i,
        {
            let copy = copy_context(&self.before[i]);
            copies.push(copy);
            i = i + 1;
            proof {
                assert(copies@ =~= self.before@.subrange(0, i as int));
            }
        }
        proof {
            assert(self.before@.subrange(0, i as int) =~= self.before@);
        }
        copies
    }

    /// Searches one complete line (without its `\n`) numbered `number`
    /// that starts at byte `offset`. A trailing `\r` is not searched.
    /// Counts the line's matches; records a quiet-mode match; warns once
    /// about malformed UTF-8; in match mode keeps the preceding-context
    /// window, hands the line to matches waiting for following context,
    /// and records a match of this line or keeps it waiting.
    pub fn process_line(
        &mut self,
        line: &[u8],
        offset: u64,
        number: u64,
        query: &CompiledQuery,
        cache: &mut QueryCache,
        options: &SearchOptions,
        collector: &mut Collector,
    ) -> (found: Ghost<Seq<MatchSpan>>)
        requires
            old(self).wf(),
            old(collector).wf(),
            cache_matches(query, old(cache)),
            query is Literal ==> query->Literal_0@.len() > 0,
        ensures
            cache_matches(query, final(cache)),
            spans_wf(found@, strip_cr(line@).len() as int),
            found@ == query_spans(*query, strip_cr(line@)),
            line_effect(*old(self), *final(self), *old(collector), *final(collector), *query, *options, number, offset, line@),
    {
        let text: &[u8] = if line.len() > 0 && line[line.len() - 1] == 13u8 {
            &line[0..line.len() - 1]
        } else {
            line
        };
        proof {
            assert(text@ == strip_cr(line@));
        }
        let spans = query.find_spans(cache, text);
        let count = spans.len();
        if count > 0 {
            self.matching_lines = self.matching_lines.saturating_add(1);
            self.occurrences = self.occurrences.saturating_add(count as u64);
            match collector.result_mode() {
                ResultMode::Quiet => {
                    collector.quiet_match(1, count as u64);
                    return Ghost(spans@);
                }
                _ => {}
            }
        }
        let mode = collector.result_mode();
        if mode != ResultMode::Matches || (count == 0 && self.pending_matches.len() == 0 && options.before_context == 0) {
            if !is_utf8(text) {
                let added = self.warn_lossy(collector);
                proof {
                    if !old(self).lossy_warned() {
                        assert(added@ =~= seq![added@[0]]);
                    }
                }
            }
            return Ghost(spans@);
        }
        let ghost spans_view = spans@;
        let ghost middle_self = *self;
        let outcome = self.record_line(text, spans, offset, number, query, cache, options, collector);
        proof {
            let w = outcome@;
            assert(line_outcome(*old(self), *self, *old(collector), *collector, *query, *options, number, offset, text@, spans_view,
                w.0, w.1, w.2, w.3, w.4, w.5));
        }
        Ghost(spans_view)
    }

    fn record_line(
        &mut self,
        text: &[u8],
        spans: Vec<MatchSpan>,
        offset: u64,
        number: u64,
        query: &CompiledQuery,
        cache: &mut QueryCache,
        options: &SearchOptions,
        collector: &mut Collector,
    ) -> (outcome: Ghost<(ContextLine, Option<String>, Seq<SearchMatch>, Seq<PendingMatch>, Seq<SearchWarning>, SearchMatch)>)
        requires
            old(collector).wf(),
            cache_matches(query, old(cache)),
            query is Literal ==> query->Literal_0@.len() > 0,
        ensures
            cache_matches(query, final(cache)),
            final(collector).wf(),
            final(collector).kept_setup(*old(collector)),
            final(self).identity_view() == old(self).identity_view(),
            final(self).splitter == old(self).splitter,
            final(self).matching_line_count() == old(self).matching_line_count(),
            final(self).occurrence_count() == old(self).occurrence_count(),
            line_outcome(*old(self), *final(self), *old(collector), *final(collector), *query, *options, number, offset, text@, spans@,
                outcome@.0, outcome@.1, outcome@.2, outcome@.3, outcome@.4, outcome@.5),
    {
        let count = spans.len();
        let ghost start_self = *self;
        let ghost start_collector = *collector;
        let rendered_preview = self.render_replacement(text, query, cache, options, collector);
        let preview = rendered_preview.0;
        let ghost first_warnings = rendered_preview.1@;
        let ghost preview_copy = preview;
        let ghost after_preview = *collector;
        let rendered = render_line(text);
        let lossy = rendered.1 || self.identity.lossy;
        let ghost mut second_warnings: Seq<SearchWarning> = Seq::empty();
        if lossy && !self.identity.lossy {
            let added = self.warn_lossy(collector);
            proof {
                second_warnings = added@;
            }
        } else {
            proof {
                assert(after_preview.warning_ranking().offered() + Seq::<SearchWarning>::empty() =~= after_preview.warning_ranking().offered());
            }
        }
        let ghost after_warnings = *collector;
        let context = ContextLine { line_number: number, text: rendered.0, lossy };
        let ghost context_copy = context;
        let ready = self.advance_pending(&context, collector);
        let ghost after_pending = *collector;
        let ghost waiting = self.pending_matches@;
        let ghost before_window = self.before@;
        let ghost mut record_copy: SearchMatch = arbitrary();
        if count > 0 {
            let line_text = context.text.clone();
            let source_byte_offset = match self.identity.source_offset_base {
                Some(base) => Some(base.saturating_add(offset)),
                None => None,
            };
            let record = SearchMatch {
                root_index: self.identity.root_index,
                path: self.identity.path.clone(),
                line_number: number,
                end_line_number: number,
                decoded_byte_offset: offset,
                source_byte_offset,
                line: line_text,
                replacement_preview: preview,
                spans,
                before: self.before_copies(),
                after: Vec::new(),
                encoding: self.identity.encoding.clone(),
                lossy,
                archive: self.identity.archive,
            };
            proof {
                record_copy = record;
            }
            if options.after_context == 0 {
                collector.retain_match(record);
            } else {
                self.pending_matches.push(PendingMatch { found: record, remaining: options.after_context });
            }
        }
        if options.before_context > 0 {
            self.push_context(context, options.before_context);
        }
        proof {
            let warnings = first_warnings + second_warnings;
            assert(start_collector.warning_ranking().offered() + warnings
                =~= start_collector.warning_ranking().offered() + first_warnings + second_warnings);
            assert(line_warnings(warnings, start_self, preview_copy, text@, *options));
            assert(is_context(context_copy, number, text@, start_self.identity_view().lossy));
            if count > 0 {
                assert(is_line_record(record_copy, start_self.identity_view(), number, offset, context_copy, spans@,
                    start_self.before_lines(), preview_copy));
                if options.after_context == 0 {
                    assert(collector.match_ranking().offered() =~= start_collector.match_ranking().offered() + ready@.push(record_copy));
                    assert(only_offered(start_collector, *collector, ready@.push(record_copy), warnings));
                } else {
                    assert(only_offered(start_collector, *collector, ready@, warnings));
                }
            } else {
                assert(only_offered(start_collector, *collector, ready@, warnings));
            }
            assert(line_outcome(start_self, *self, start_collector, *collector, *query, *options, number, offset, text@, spans@,
                context_copy, preview_copy, ready@, waiting, first_warnings + second_warnings, record_copy));
        }
        Ghost((context_copy, preview_copy, ready@, waiting, first_warnings + second_warnings, record_copy))
    }

    /// Searches the next chunk of the source: every line it completes is
    /// searched and every over-long line is reported, in source order.
    /// Chunks may split lines anywhere.
    pub fn push(
        &mut self,
        bytes: &[u8],
        query: &CompiledQuery,
        cache: &mut QueryCache,
        options: &SearchOptions,
        collector: &mut Collector,
    )
        requires
            old(self).wf(),
            old(collector).wf(),
            cache_matches(query, old(cache)),
            query is Literal ==> query->Literal_0@.len() > 0,
            old(self).line_limit() == options.max_line_bytes,
        ensures
            final(self).wf(),
            final(collector).wf(),
            final(collector).kept_setup(*old(collector)),
            cache_matches(query, final(cache)),
            final(self).identity_view() == old(self).identity_view(),
            final(self).line_limit() == old(self).line_limit(),
            final(self).split_state() == (SplitState { events: Seq::empty(), ..feed(old(self).line_limit(), old(self).split_state(), bytes@) }),
            ({
                let lines = feed(old(self).line_limit(), old(self).split_state(), bytes@).events;
                let matcher = query_matcher(*query);
                &&& final(self).matching_line_count() == sat_add(old(self).matching_line_count(), line_hits(lines, matcher) as int)
                &&& final(self).occurrence_count() == sat_add(old(self).occurrence_count(), line_occurrences(lines, matcher) as int)
            }),
            old(collector).mode() != ResultMode::Quiet ==> counters(*final(collector)) == counters(*old(collector)),
            exists|selves: Seq<LineSearcher>, collectors: Seq<Collector>| #[trigger] events_effect(selves, collectors,
                feed(old(self).line_limit(), old(self).split_state(), bytes@).events, *query, *options)
                && same_state(selves[0], *old(self)) && selves.last() == *final(self)
                && collectors[0] == *old(collector) && collectors.last() == *final(collector),
    {
        let mut events = self.splitter.push(bytes);
        let ghost mut selves: Seq<LineSearcher> = seq![*self];
        let ghost mut collectors: Seq<Collector> = seq![*collector];
        let ghost split_after = self.split_state();
        let ghost all = events_view(events@);
        let ghost mut k: int = 0;
        proof {
            assert(events_view(events@) =~= all.skip(0));
            assert(all.take(0) =~= Seq::<SpecLineEvent>::empty());
        }
        while events.len() > 0
            invariant
                self.wf(),
                collector.wf(),
                collector.kept_setup(*old(collector)),
                cache_matches(query, cache),
                query is Literal ==> query->Literal_0@.len() > 0,
                self.split_state() == split_after,
                self.identity_view() == old(self).identity_view(),
                self.line_limit() == options.max_line_bytes,
                0 <= k <= all.len(),
                events_view(events@) == all.skip(k),
                self.matching_line_count() == sat_add(old(self).matching_line_count(),
                    line_hits(all.take(k), query_matcher(*query)) as int),
                self.occurrence_count() == sat_add(old(self).occurrence_count(),
                    line_occurrences(all.take(k), query_matcher(*query)) as int),
                old(collector).mode() != ResultMode::Quiet ==> counters(*collector) == counters(*old(collector)),
                collector.mode() == old(collector).mode(),
                events_effect(selves, collectors, all.take(k), *query, *options),
                same_state(selves[0], *old(self)),
                selves.last() == *self,
                collectors[0] == *old(collector),
                collectors.last() == *collector,
            decreases events@.len(),
        {
            let ghost self_before = *self;
            let ghost collector_before = *collector;
            let ghost before_count = self.matching_line_count();
            let ghost before_occ = self.occurrence_count();
            let ghost pre = events@;
            let event = events.remove(0);
            proof {
                assert(events_view(pre).len() == pre.len());
                assert(k < all.len());
                assert(events_view(pre)[0] == pre[0].view());
                assert(all.skip(k)[0] == all[k]);
                assert(event.view() == all[k]);
                assert(events@ =~= pre.subrange(1, pre.len() as int));
                assert(events_view(events@) =~= all.skip(k + 1)) by {
                    assert forall|i: int| 0 <= i < events@.len() implies events_view(events@)[i] == all.skip(k + 1)[i] by {
                        assert(events@[i] == pre[i + 1]);
                        assert(events_view(pre)[i + 1] == all.skip(k)[i + 1]);
                    }
                }
                assert(all.take(k + 1).drop_last() =~= all.take(k));
                assert(all.take(k + 1).last() == all[k]);
            }
            match event {
                LineEvent::Line { number, offset, bytes: line } => {
                    let found = self.process_line(line.as_slice(), offset, number, query, cache, options, collector);
                    proof {
                        let matcher = query_matcher(*query);
                        if found@.len() > 0 {
                            lemma_sat_add_twice(old(self).matching_line_count(), line_hits(all.take(k), matcher) as int, 1);
                        }
                        lemma_sat_add_twice(old(self).occurrence_count(), line_occurrences(all.take(k), matcher) as int,
                            found@.len() as int);
                    }
                }
                LineEvent::TooLong { number } => {
                    self.warn_long_line(number, options, collector);
                }
            }
            proof {
                assert(event_effect(self_before, *self, collector_before, *collector, *query, *options, all[k]));
                let grown = selves.push(*self);
                let gathered = collectors.push(*collector);
                assert forall|i: int| 0 <= i < k + 1 implies #[trigger] event_effect(grown[i], grown[i + 1], gathered[i],
                    gathered[i + 1], *query, *options, all.take(k + 1)[i]) by {
                    assert(all.take(k + 1)[i] == all[i]);
                    if i < k {
                        assert(all.take(k)[i] == all[i]);
                        assert(event_effect(selves[i], selves[i + 1], collectors[i], collectors[i + 1], *query, *options, all.take(k)[i]));
                    }
                }
                selves = grown;
                collectors = gathered;
                k = k + 1;
            }
        }
        proof {
            assert(all.take(k) =~= all);
        }
    }

    /// Ends the source: searches an unterminated last line, records the
    /// matches still waiting for following context, and records the
    /// source's summary with its logical line count.
    pub fn finish(
        self,
        query: &CompiledQuery,
        cache: &mut QueryCache,
        options: &SearchOptions,
        collector: &mut Collector,
    )
        requires
            self.wf(),
            old(collector).wf(),
            cache_matches(query, old(cache)),
            query is Literal ==> query->Literal_0@.len() > 0,
        ensures
            final(collector).wf(),
            final(collector).kept_setup(*old(collector)),
            cache_matches(query, final(cache)),
            old(collector).mode() != ResultMode::Quiet ==> {
                let last = last_line_spans(self.split_state(), query_matcher(*query));
                let lines = sat_add(self.matching_line_count(), if last.len() > 0 { 1int } else { 0int });
                let found = sat_add(self.occurrence_count(), last.len() as int);
                &&& found > 0 ==> counters(*final(collector)) == (old(collector).matching_line_count().wrapping_add(lines),
                    old(collector).occurrence_count().wrapping_add(found), old(collector).matched_file_count().wrapping_add(1))
                &&& found == 0 ==> counters(*final(collector)) == counters(*old(collector))
            },
            finish_effect(self, *old(collector), *final(collector), *query, *options),
    {
        let ghost st = self.split_state();
        let ghost lines_before = self.matching_line_count();
        let ghost found_before = self.occurrence_count();
        let mut searcher = self;
        let mut splitter = LineSplitter::new(0);
        std::mem::swap(&mut splitter, &mut searcher.splitter);
        let finished = splitter.finish();
        let total_lines = finished.1;
        let ghost start_self = searcher;
        let ghost start_collector = *collector;
        if let Some(LineEvent::Line { number, offset, bytes }) = finished.0 {
            proof {
                assert(bytes@ == st.pending);
            }
            searcher.process_line(bytes.as_slice(), offset, number, query, cache, options, collector);
        }
        let ghost s1 = searcher;
        let ghost c1 = *collector;
        proof {
            assert(last_line_done(st, start_self, s1, start_collector, c1, *query, *options));
            assert(same_progress(start_self, self));
        }
        proof {
            let last = last_line_spans(st, query_matcher(*query));
            assert(searcher.matching_line_count() == sat_add(lines_before, if last.len() > 0 { 1int } else { 0int }));
            assert(searcher.occurrence_count() == sat_add(found_before, last.len() as int));
        }
        let mut pending = Vec::new();
        std::mem::swap(&mut pending, &mut searcher.pending_matches);
        let ghost collector_mid = *collector;
        let ghost waiting_all = pending@;
        let ghost mut taken: int = 0;
        proof {
            assert(waiting_all == s1.pending());
            assert(collector.match_ranking().offered() =~= collector_mid.match_ranking().offered()
                + waiting_all.subrange(0, 0).map_values(|p: PendingMatch| p.found));
            assert(pending@ =~= waiting_all.subrange(0, waiting_all.len() as int));
        }
        while pending.len() > 0
            invariant
                collector.wf(),
                collector.kept_setup(*old(collector)),
                counters(*collector) == counters(collector_mid),
                collector.mode() == collector_mid.mode(),
                0 <= taken <= waiting_all.len(),
                pending@ == waiting_all.subrange(taken, waiting_all.len() as int),
                collector.match_ranking().offered() == collector_mid.match_ranking().offered()
                    + waiting_all.subrange(0, taken).map_values(|p: PendingMatch| p.found),
                collector.warning_ranking() == collector_mid.warning_ranking(),
                collector.file_ranking() == collector_mid.file_ranking(),
                collector.evidence_ranking() == collector_mid.evidence_ranking(),
                collector.evidence_mode() == collector_mid.evidence_mode(),
                collector.dropped_warning_count() == collector_mid.dropped_warning_count(),
                collector.quiet_recorded() == collector_mid.quiet_recorded(),
                collector.fatal_failure() == collector_mid.fatal_failure(),
                collector.match_ranking().limit() == collector_mid.match_ranking().limit(),
            decreases pending@.len(),
        {
            let ghost before_offered = collector.match_ranking().offered();
            let waiting = pending.remove(0);
            proof {
                assert(waiting == waiting_all[taken]);
            }
            collector.retain_match(waiting.found);
            proof {
                assert(waiting_all.subrange(0, taken + 1).map_values(|p: PendingMatch| p.found)
                    =~= waiting_all.subrange(0, taken).map_values(|p: PendingMatch| p.found).push(waiting_all[taken].found));
                assert(collector.match_ranking().offered() =~= collector_mid.match_ranking().offered()
                    + waiting_all.subrange(0, taken + 1).map_values(|p: PendingMatch| p.found));
                taken = taken + 1;
                assert(pending@ =~= waiting_all.subrange(taken, waiting_all.len() as int));
            }
        }
        proof {
            assert(waiting_all.subrange(0, taken) =~= waiting_all);
            assert(collector.warning_ranking().offered() =~= collector_mid.warning_ranking().offered() + Seq::<SearchWarning>::empty());
            assert(only_offered(c1, *collector, s1.pending().map_values(|p: PendingMatch| p.found), Seq::empty()));
        }
        let ghost c2 = *collector;
        let identity = searcher.identity;
        let summary = FileSummary {
            root_index: identity.root_index,
            path: identity.path,
            source_bytes: identity.source_bytes,
            total_lines,
            matching_lines: searcher.matching_lines,
            occurrences: searcher.occurrences,
            encoding: identity.encoding,
            lossy: identity.lossy,
            archive: identity.archive,
        };
        proof {
            assert(summary == line_summary(self, *query));
        }
        collector.finish_file(summary);
        proof {
            assert(last_line_done(st, start_self, s1, start_collector, c1, *query, *options) && same_progress(start_self, self)
                && only_offered(c1, c2, s1.pending().map_values(|p: PendingMatch| p.found), Seq::empty())
                && c2.warning_ranking() == c1.warning_ranking()
                && c2.dropped_warning_count() == c1.dropped_warning_count()
                && file_finished(c2, *collector, line_summary(self, *query)));
        }
    }

    /// The display path of the source.
    pub fn path(&self) -> (path: &String)
        ensures
            *path == self.identity_view().path,
    {
        &self.identity.path
    }
}

} // verus!

use vstd::prelude::*;
use crate::text::find_byte;

verus! {

/// One logical line delivered by the splitter.
#[derive(Debug, Clone, PartialEq, Eq)]
pub enum LineEvent {
    /// A complete line within the byte limit, without its `\n`.
    Line {
        /// One-based line number.
        number: u64,
        /// Offset of the line's first byte in the source.
        offset: u64,
        /// The line's bytes.
        bytes: Vec<u8>,
    },
    /// A line longer than the byte limit; its bytes are not retained.
    TooLong {
        /// One-based line number.
        number: u64,
    },
}

/// The mathematical form of a line event.
pub enum SpecLineEvent {
    Line(u64, u64, Seq<u8>),
    TooLong(u64),
}

impl LineEvent {
    /// The mathematical form of this event.
    pub open spec fn view(&self) -> SpecLineEvent {
        match self {
            LineEvent::Line { number, offset, bytes } => SpecLineEvent::Line(*number, *offset, bytes@),
            LineEvent::TooLong { number } => SpecLineEvent::TooLong(*number),
        }
    }
}

/// The mathematical form of a sequence of line events.
pub open spec fn events_view(events: Seq<LineEvent>) -> Seq<SpecLineEvent> {
    events.map_values(|event: LineEvent| event.view())
}

/// The state of the streaming line splitter together with the events it has
/// emitted.
pub struct SplitState {
    pub pending: Seq<u8>,
    pub discarding: bool,
    pub line_number: u64,
    pub pending_offset: u64,
    pub next_offset: u64,
    pub events: Seq<SpecLineEvent>,
}

/// `x + n`, saturating at `u64::MAX`.
pub open spec fn sat_add(x: u64, n: int) -> u64 {
    if x + n > u64::MAX { u64::MAX } else { (x + n) as u64 }
}

/// The splitter's reaction to one byte: a `\n` completes the current line
/// (or ends a discarded one); any other byte extends the pending line, or,
/// when that would exceed `max` bytes, reports the line as too long once and
/// discards it.
pub open spec fn step(max: nat, st: SplitState, b: u8) -> SplitState {
    let next = sat_add(st.next_offset, 1);
    if st.discarding {
        if b == 10 {
            SplitState { pending: Seq::empty(), discarding: false, line_number: sat_add(st.line_number, 1), pending_offset: next, next_offset: next, events: st.events }
        } else {
            SplitState { next_offset: next, ..st }
        }
    } else if b == 10 {
        SplitState {
            pending: Seq::empty(),
            discarding: false,
            line_number: sat_add(st.line_number, 1),
            pending_offset: next,
            next_offset: next,
            events: st.events.push(SpecLineEvent::Line(st.line_number, st.pending_offset, st.pending)),
        }
    } else if st.pending.len() + 1 > max {
        SplitState { pending: Seq::empty(), discarding: true, next_offset: next, events: st.events.push(SpecLineEvent::TooLong(st.line_number)), ..st }
    } else {
        SplitState { pending: st.pending.push(b), next_offset: next, ..st }
    }
}

/// The splitter state after every byte of `bytes`, in order.
pub open spec fn feed(max: nat, st: SplitState, bytes: Seq<u8>) -> SplitState
    decreases bytes.len(),
{
    if bytes.len() == 0 {
        st
    } else {
        step(max, feed(max, st, bytes.drop_last()), bytes.last())
    }
}

/// The state of a fresh splitter.
pub open spec fn initial_state() -> SplitState {
    SplitState { pending: Seq::empty(), discarding: false, line_number: 1, pending_offset: 0, next_offset: 0, events: Seq::empty() }
}

/// States the splitter can reach: a discarded line keeps no bytes and a
/// pending line is within the limit.
pub open spec fn split_inv(max: nat, st: SplitState) -> bool {
    &&& st.discarding ==> st.pending.len() == 0
    &&& !st.discarding ==> st.pending.len() <= max
}

/// Feeding two chunks one after the other is feeding their concatenation:
/// the lines, their numbers and offsets, and the too-long reports do not
/// depend on where the input was split into chunks.
pub proof fn lemma_chunks_concatenate(max: nat, st: SplitState, first: Seq<u8>, second: Seq<u8>)
    ensures
        feed(max, feed(max, st, first), second) == feed(max, st, first + second),
    decreases second.len(),
{
    if second.len() == 0 {
        assert(first + second =~= first);
    } else {
        lemma_chunks_concatenate(max, st, first, second.drop_last());
        assert((first + second).drop_last() =~= first + second.drop_last());
        assert((first + second).last() == second.last());
    }
}

proof fn lemma_feed_inv(max: nat, st: SplitState, bytes: Seq<u8>)
    requires
        split_inv(max, st),
    ensures
        split_inv(max, feed(max, st, bytes)),
    decreases bytes.len(),
{
    if bytes.len() > 0 {
        lemma_feed_inv(max, st, bytes.drop_last());
    }
}

/// The effect of a segment without `\n`.
pub open spec fn absorb_state(max: nat, st: SplitState, segment: Seq<u8>) -> SplitState {
    let next = sat_add(st.next_offset, segment.len() as int);
    if st.discarding || segment.len() == 0 {
        SplitState { next_offset: next, ..st }
    } else if st.pending.len() + segment.len() > max {
        SplitState { pending: Seq::empty(), discarding: true, next_offset: next, events: st.events.push(SpecLineEvent::TooLong(st.line_number)), ..st }
    } else {
        SplitState { pending: st.pending + segment, next_offset: next, ..st }
    }
}

proof fn lemma_absorb(max: nat, st: SplitState, segment: Seq<u8>)
    requires
        split_inv(max, st),
        forall|i: int| 0 <= i < segment.len() ==> segment[i] != 10,
    ensures
        feed(max, st, segment) == absorb_state(max, st, segment),
    decreases segment.len(),
{
    if segment.len() == 0 {
        assert(st.pending + segment =~= st.pending);
    } else {
        let prefix = segment.drop_last();
        lemma_absorb(max, st, prefix);
        assert(st.pending + prefix.push(segment.last()) =~= st.pending + segment) by {
            assert(prefix.push(segment.last()) =~= segment);
        }
        assert((st.pending + prefix).push(segment.last()) =~= st.pending + segment);
    }
}

/// A streaming splitter of bytes into logical lines with a per-line limit.
pub struct LineSplitter {
    max_line_bytes: usize,
    pending: Vec<u8>,
    discarding: bool,
    line_number: u64,
    pending_offset: u64,
    next_offset: u64,
}

impl LineSplitter {
    /// The splitter's state; events already delivered are not part of it.
    pub closed spec fn state(&self) -> SplitState {
        SplitState {
            pending: self.pending@,
            discarding: self.discarding,
            line_number: self.line_number,
            pending_offset: self.pending_offset,
            next_offset: self.next_offset,
            events: Seq::empty(),
        }
    }

    /// The per-line byte limit.
    pub closed spec fn max(&self) -> nat {
        self.max_line_bytes as nat
    }

    /// The splitter invariant.
    pub open spec fn wf(&self) -> bool {
        split_inv(self.max(), self.state())
    }

    /// A splitter at the start of a source.
    pub fn new(max_line_bytes: usize) -> (splitter: Self)
        ensures
            splitter.wf(),
            splitter.max() == max_line_bytes,
            splitter.state() == initial_state(),
    {
        LineSplitter { max_line_bytes, pending: Vec::new(), discarding: false, line_number: 1, pending_offset: 0, next_offset: 0 }
    }

    /// The current one-based line number.
    pub fn line_number(&self) -> (number: u64)
        ensures
            number == self.state().line_number,
    {
        self.line_number
    }

    fn absorb(&mut self, segment: &[u8], events: &mut Vec<LineEvent>)
        requires
            old(self).wf(),
            forall|i: int| 0 <= i < segment@.len() ==> segment@[i] != 10,
        ensures
            final(self).wf(),
            final(self).max() == old(self).max(),
            ({
                let after = absorb_state(old(self).max(), old(self).state(), segment@);
                &&& final(self).state() == SplitState { events: Seq::empty(), ..after }
                &&& events_view(final(events)@) == events_view(old(events)@) + after.events
            }),
    {
        let length = segment.len() as u64;
        if self.discarding || segment.len() == 0 {
            self.next_offset = self.next_offset.saturating_add(length);
        } else if segment.len() > self.max_line_bytes - self.pending.len() {
            events.push(LineEvent::TooLong { number: self.line_number });
            self.pending.clear();
            self.discarding = true;
            self.next_offset = self.next_offset.saturating_add(length);
        } else {
            self.pending.extend_from_slice(segment);
            self.next_offset = self.next_offset.saturating_add(length);
        }
        proof {
            let after = absorb_state(old(self).max(), old(self).state(), segment@);
            assert(events_view(final(events)@) =~= events_view(old(events)@) + after.events);
            assert(self.pending@ =~= after.pending);
        }
    }

    fn newline(&mut self, events: &mut Vec<LineEvent>)
        requires
            old(self).wf(),
        ensures
            final(self).wf(),
            final(self).max() == old(self).max(),
            ({
                let after = step(old(self).max(), old(self).state(), 10);
                &&& final(self).state() == SplitState { events: Seq::empty(), ..after }
                &&& events_view(final(events)@) == events_view(old(events)@) + after.events
            }),
    {
        let next = self.next_offset.saturating_add(1);
        if !self.discarding {
            let mut line: Vec<u8> = Vec::new();
            std::mem::swap(&mut line, &mut self.pending);
            events.push(LineEvent::Line { number: self.line_number, offset: self.pending_offset, bytes: line });
        }
        self.discarding = false;
        self.line_number = self.line_number.saturating_add(1);
        self.next_offset = next;
        self.pending_offset = next;
        proof {
            let after = step(old(self).max(), old(self).state(), 10);
            assert(events_view(final(events)@) =~= events_view(old(events)@) + after.events);
            assert(self.pending@ =~= Seq::<u8>::empty());
        }
    }

    /// Splits one chunk. The returned events and the new state are those of
    /// feeding the chunk's bytes one by one: chunks may split lines anywhere.
    pub fn push(&mut self, bytes: &[u8]) -> (events: Vec<LineEvent>)
        requires
            old(self).wf(),
        ensures
            final(self).wf(),
            final(self).max() == old(self).max(),
            ({
                let after = feed(old(self).max(), old(self).state(), bytes@);
                &&& final(self).state() == SplitState { events: Seq::empty(), ..after }
                &&& events_view(events@) == after.events
            }),
    {
        let mut events: Vec<LineEvent> = Vec::new();
        let mut start: usize = 0;
        let ghost max = old(self).max();
        let ghost origin = old(self).state();
        proof {
            assert(bytes@.subrange(0, 0) =~= Seq::<u8>::empty());
            assert(events_view(events@) =~= Seq::<SpecLineEvent>::empty());
        }
        loop
            invariant
                start <= bytes@.len(),
                self.wf(),
                self.max() == max,
                split_inv(max, origin),
                ({
                    let done = feed(max, origin, bytes@.subrange(0, start as int));
                    &&& self.state() == SplitState { events: Seq::empty(), ..done }
                    &&& events_view(events@) == done.events
                }),
            ensures
                self.wf(),
                self.max() == max,
                ({
                    let done = feed(max, origin, bytes@);
                    &&& self.state() == SplitState { events: Seq::empty(), ..done }
                    &&& events_view(events@) == done.events
                }),
            decreases bytes@.len() - start,
        {
            let rest = &bytes[start..bytes.len()];
            match find_byte(10u8, rest) {
                Some(relative) => {
                    let end = start + relative;
                    let segment = &bytes[start..end];
                    let ghost before_state = self.state();
                    self.absorb(segment, &mut events);
                    let ghost middle_state = self.state();
                    self.newline(&mut events);
                    proof {
                        let done = feed(max, origin, bytes@.subrange(0, start as int));
                        assert(segment@ =~= bytes@.subrange(start as int, end as int));
                        assert forall|i: int| 0 <= i < segment@.len() implies segment@[i] != 10 by {
                            assert(segment@[i] == rest@[i]);
                        }
                        lemma_feed_inv(max, origin, bytes@.subrange(0, start as int));
                        lemma_absorb(max, done, segment@);
                        let absorbed = absorb_state(max, done, segment@);
                        let local = absorb_state(max, before_state, segment@);
                        assert(absorbed.events =~= done.events + local.events);
                        assert(middle_state == SplitState { events: Seq::empty(), ..absorbed });
                        lemma_chunks_concatenate(max, origin, bytes@.subrange(0, start as int), segment@);
                        assert(bytes@.subrange(0, start as int) + segment@ =~= bytes@.subrange(0, end as int));
                        let one = seq![10u8];
                        lemma_chunks_concatenate(max, origin, bytes@.subrange(0, end as int), one);
                        assert(bytes@.subrange(0, end as int) + one =~= bytes@.subrange(0, end + 1));
                        assert(one.drop_last() =~= Seq::<u8>::empty());
                        assert(feed(max, absorbed, one.drop_last()) == absorbed);
                        assert(feed(max, absorbed, one) == step(max, absorbed, 10));
                        let stepped = step(max, absorbed, 10);
                        let local_step = step(max, middle_state, 10);
                        assert(stepped.events =~= absorbed.events + local_step.events);
                        assert(SplitState { events: Seq::empty(), ..stepped } == SplitState { events: Seq::empty(), ..local_step });
                    }
                    start = end + 1;
                }
                None => {
                    let ghost before_state = self.state();
                    self.absorb(rest, &mut events);
                    proof {
                        let done = feed(max, origin, bytes@.subrange(0, start as int));
                        lemma_feed_inv(max, origin, bytes@.subrange(0, start as int));
                        lemma_absorb(max, done, rest@);
                        lemma_chunks_concatenate(max, origin, bytes@.subrange(0, start as int), rest@);
                        assert(bytes@.subrange(0, start as int) + rest@ =~= bytes@);
                        assert(bytes@.subrange(0, bytes@.len() as int) =~= bytes@);
                        let absorbed = absorb_state(max, done, rest@);
                        let local = absorb_state(max, before_state, rest@);
                        assert(absorbed.events =~= done.events + local.events);
                        assert(SplitState { events: Seq::empty(), ..local } == SplitState { events: Seq::empty(), ..absorbed });
                    }
                    start = bytes.len();
                    break;
                }
            }
        }
        proof {
            assert(bytes@.subrange(0, bytes@.len() as int) =~= bytes@);
        }
        events
    }

    /// Ends the source: an unterminated pending line within the limit is
    /// delivered, and the logical line count is returned.
    pub fn finish(self) -> (result: (Option<LineEvent>, u64))
        requires
            self.wf(),
        ensures
            match result.0 {
                Some(event) => !self.state().discarding && self.state().pending.len() > 0
                    && event.view() == SpecLineEvent::Line(self.state().line_number, self.state().pending_offset, self.state().pending),
                None => self.state().discarding || self.state().pending.len() == 0,
            },
            result.1 == sat_add(
                (if self.state().line_number > 0 { self.state().line_number - 1 } else { 0 }) as u64,
                if self.state().discarding || self.state().pending.len() > 0 { 1 } else { 0 },
            ),
    {
        let unterminated = !self.pending.is_empty() || self.discarding;
        let total = self.line_number.saturating_sub(1).saturating_add(if unterminated { 1 } else { 0 });
        if !self.pending.is_empty() && !self.discarding {
            (Some(LineEvent::Line { number: self.line_number, offset: self.pending_offset, bytes: self.pending }), total)
        } else {
            (None, total)
        }
    }
}

} // verus!

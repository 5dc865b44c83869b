//! Highlight events: the boundaries of nested regions over a source buffer,
//! and what makes a stream of them consistent.

use vstd::prelude::*;

verus! {

/// One boundary of a highlight region. A region opens at a byte offset with
/// the capture index of its role, and closes at a later offset; the innermost
/// open region is the one an end event closes.
#[derive(Clone, Copy, Debug, PartialEq, Eq, Structural)]
pub enum HighlightEvent {
    /// A region tagged with `capture` begins before the byte at `offset`.
    Start { offset: usize, capture: usize },
    /// The innermost open region ends before the byte at `offset`.
    End { offset: usize },
}

/// Why a stream of events cannot be rendered.
#[derive(Clone, Copy, Debug, PartialEq, Eq, Structural)]
pub enum RenderFailure {
    /// An event lies beyond the end of the source, or before the event that
    /// precedes it in the stream.
    OffsetOutOfOrder,
    /// A start event names a capture index that the class table does not hold.
    CaptureOutOfRange,
    /// An end event arrives while no region is open.
    UnbalancedEnd,
}

impl HighlightEvent {
    /// The byte offset at which the event takes effect.
    pub open spec fn offset(self) -> int {
        match self {
            HighlightEvent::Start { offset, .. } => offset as int,
            HighlightEvent::End { offset } => offset as int,
        }
    }

    /// The byte offset at which the event takes effect.
    pub fn position(&self) -> (at: usize)
        ensures
            at == self.offset(),
    {
        match self {
            HighlightEvent::Start { offset, .. } => *offset,
            HighlightEvent::End { offset } => *offset,
        }
    }
}

/// The capture indices of the regions that `events` leave open, outermost
/// first. An end event on an empty stack leaves it empty.
pub open spec fn open_captures(events: Seq<HighlightEvent>) -> Seq<usize>
    decreases events.len(),
{
    if events.len() == 0 {
        Seq::empty()
    } else {
        let before = open_captures(events.drop_last());
        match events.last() {
            HighlightEvent::Start { capture, .. } => before.push(capture),
            HighlightEvent::End { .. } => if before.len() > 0 {
                before.drop_last()
            } else {
                before
            },
        }
    }
}

/// What is wrong with event `index`, given the events before it: its offset
/// is checked first, then its capture index or the region it would close.
pub open spec fn event_fault(
    source_len: int,
    class_count: int,
    events: Seq<HighlightEvent>,
    index: int,
) -> Option<RenderFailure> {
    let event = events[index];
    if event.offset() > source_len || (index > 0 && event.offset() < events[index - 1].offset()) {
        Some(RenderFailure::OffsetOutOfOrder)
    } else {
        match event {
            HighlightEvent::Start { capture, .. } => if capture >= class_count {
                Some(RenderFailure::CaptureOutOfRange)
            } else {
                None
            },
            HighlightEvent::End { .. } => if open_captures(events.take(index)).len() == 0 {
                Some(RenderFailure::UnbalancedEnd)
            } else {
                None
            },
        }
    }
}

/// A stream is consistent when no event in it is at fault: offsets never
/// decrease and stay within the source, every capture index is in the class
/// table, and every end event closes an open region.
pub open spec fn consistent(source_len: int, class_count: int, events: Seq<HighlightEvent>) -> bool {
    forall|index: int|
        0 <= index < events.len() ==> (#[trigger] event_fault(
            source_len,
            class_count,
            events,
            index,
        )) is None
}

/// The fault of the first faulty event at or after `index`, if there is one.
pub open spec fn fault_from(
    source_len: int,
    class_count: int,
    events: Seq<HighlightEvent>,
    index: int,
) -> Option<RenderFailure>
    decreases events.len() - index,
{
    if index < 0 || index >= events.len() {
        None
    } else if event_fault(source_len, class_count, events, index) is Some {
        event_fault(source_len, class_count, events, index)
    } else {
        fault_from(source_len, class_count, events, index + 1)
    }
}

/// The fault of the first faulty event of the stream, if there is one.
pub open spec fn first_fault(source_len: int, class_count: int, events: Seq<HighlightEvent>) -> Option<
    RenderFailure,
> {
    fault_from(source_len, class_count, events, 0)
}

/// One more event changes the open regions as its kind says.
pub proof fn lemma_open_captures_step(events: Seq<HighlightEvent>, index: int)
    requires
        0 <= index < events.len(),
    ensures
        open_captures(events.take(index + 1)) == match events[index] {
            HighlightEvent::Start { capture, .. } => open_captures(events.take(index)).push(capture),
            HighlightEvent::End { .. } => if open_captures(events.take(index)).len() > 0 {
                open_captures(events.take(index)).drop_last()
            } else {
                open_captures(events.take(index))
            },
        },
{
    assert(events.take(index + 1).drop_last() =~= events.take(index));
    assert(events.take(index + 1).last() == events[index]);
}

/// No fault from `index` on means that no event from `index` on is at fault.
pub proof fn lemma_fault_free_suffix(
    source_len: int,
    class_count: int,
    events: Seq<HighlightEvent>,
    index: int,
)
    requires
        0 <= index <= events.len(),
    ensures
        fault_from(source_len, class_count, events, index) is None <==> forall|k: int|
            index <= k < events.len() ==> (#[trigger] event_fault(source_len, class_count, events, k))
                is None,
    decreases events.len() - index,
{
    if index < events.len() {
        lemma_fault_free_suffix(source_len, class_count, events, index + 1);
    }
}

/// A stream has no first fault exactly when it is consistent.
pub proof fn lemma_consistent_iff_no_fault(
    source_len: int,
    class_count: int,
    events: Seq<HighlightEvent>,
)
    ensures
        first_fault(source_len, class_count, events) is None <==> consistent(
            source_len,
            class_count,
            events,
        ),
{
    lemma_fault_free_suffix(source_len, class_count, events, 0);
}

/// Checks a stream against a source of `source_len` bytes and a class table
/// of `class_count` entries, and reports the fault of the first faulty event.
pub fn check_events(source_len: usize, class_count: usize, events: &[HighlightEvent]) -> (res: Result<
    (),
    RenderFailure,
>)
    ensures
        res is Ok <==> consistent(source_len as int, class_count as int, events@),
        res == (match first_fault(source_len as int, class_count as int, events@) {
            Some(failure) => Err(failure),
            None => Ok(()),
        }),
{
    let mut index: usize = 0;
    let mut depth: usize = 0;
    let mut last: usize = 0;
    while index < events.len()
        invariant
            index <= events@.len(),
            depth == open_captures(events@.take(index as int)).len(),
            depth <= index,
            index > 0 ==> last == events@[index - 1].offset(),
            first_fault(source_len as int, class_count as int, events@) == fault_from(
                source_len as int,
                class_count as int,
                events@,
                index as int,
            ),
        decreases events@.len() - index,
    {
        let event = events[index];
        let at = event.position();
        proof {
            lemma_open_captures_step(events@, index as int);
        }
        if at > source_len || (index > 0 && at < last) {
            return Err(RenderFailure::OffsetOutOfOrder);
        }
        match event {
            HighlightEvent::Start { capture, .. } => {
                if capture >= class_count {
                    return Err(RenderFailure::CaptureOutOfRange);
                }
                depth += 1;
            },
            HighlightEvent::End { .. } => {
                if depth == 0 {
                    return Err(RenderFailure::UnbalancedEnd);
                }
                depth -= 1;
            },
        }
        last = at;
        index += 1;
    }
    proof {
        lemma_consistent_iff_no_fault(source_len as int, class_count as int, events@);
    }
    Ok(())
}

} // verus!

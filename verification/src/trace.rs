//! The coordination trace of the binning stage.
//!
//! Each worker appends pairs of a tag and a value to a ring of its own as it
//! takes part in the rounds that pick the least chunk. The first tag that
//! names no event ends the worker's trace.

use vstd::prelude::*;
use crate::error::DecodeError;

verus! {

/// Workers that write a trace.
pub const N_THREADS: usize = 256;

/// Words in the ring of one worker.
pub const PER_THREAD_LOG: usize = 0x4000;

/// Events that fit in the ring of one worker.
pub const PER_THREAD_EVENTS: usize = 0x2000;

/// A milestone of a worker.
#[derive(Clone, Copy, Debug, PartialEq, Eq, Structural)]
pub enum EventKind {
    /// The worker started.
    Start,
    /// The worker saw a candidate for the minimum that all share.
    SharedMinimum,
    /// The minimum of the worker's own chunks.
    ThreadMinimum,
    /// The worker won the round.
    Won,
    /// The chunk that was chosen.
    ChosenChunk,
    /// A read cursor.
    ReadIndex,
    /// A write cursor.
    WriteIndex,
}

/// One entry of a trace.
#[derive(Clone, Copy, Debug, PartialEq, Eq, Structural)]
pub struct Event {
    pub kind: EventKind,
    pub value: u32,
}

/// The event that a tag names; tags from one to seven name one.
pub open spec fn event_kind(tag: u32) -> Option<EventKind> {
    if tag == 1 {
        Some(EventKind::Start)
    } else if tag == 2 {
        Some(EventKind::SharedMinimum)
    } else if tag == 3 {
        Some(EventKind::ThreadMinimum)
    } else if tag == 4 {
        Some(EventKind::Won)
    } else if tag == 5 {
        Some(EventKind::ChosenChunk)
    } else if tag == 6 {
        Some(EventKind::ReadIndex)
    } else if tag == 7 {
        Some(EventKind::WriteIndex)
    } else {
        None
    }
}

/// The words by which a trace is printed.
pub open spec fn event_name(kind: EventKind) -> Seq<char> {
    match kind {
        EventKind::Start => "start thread"@,
        EventKind::SharedMinimum => "shared minimum element"@,
        EventKind::ThreadMinimum => "minimum element of this thread"@,
        EventKind::Won => "thread won"@,
        EventKind::ChosenChunk => "chosen chunk_n"@,
        EventKind::ReadIndex => "rd_ix"@,
        EventKind::WriteIndex => "wr_ix"@,
    }
}

/// A result with an event put before what it holds.
pub open spec fn trace_after(front: Seq<Event>, rest: Result<Seq<Event>, DecodeError>) -> Result<
    Seq<Event>,
    DecodeError,
> {
    match rest {
        Ok(events) => Ok(front + events),
        Err(e) => Err(e),
    }
}

/// The events of a ring that starts at word `base`, from pair `i` on, in
/// the order in which they were appended. A ring that the buffer does not
/// hold up to the end of the trace is truncated.
pub open spec fn trace_from(buf: Seq<u32>, base: int, i: nat) -> Result<Seq<Event>, DecodeError>
    decreases PER_THREAD_EVENTS - i,
{
    let at = base + 2 * i;
    if i >= PER_THREAD_EVENTS {
        Ok(Seq::empty())
    } else if at >= buf.len() {
        Err(DecodeError::Truncated)
    } else {
        match event_kind(buf[at]) {
            None => Ok(Seq::empty()),
            Some(kind) => if at + 1 >= buf.len() {
                Err(DecodeError::Truncated)
            } else {
                trace_after(
                    seq![Event { kind, value: buf[at + 1] }],
                    trace_from(buf, base, i + 1),
                )
            },
        }
    }
}

/// The trace of a worker.
pub open spec fn thread_trace(buf: Seq<u32>, thread: nat) -> Result<Seq<Event>, DecodeError> {
    trace_from(buf, thread * PER_THREAD_LOG, 0)
}

/// What a decoded trace holds.
pub open spec fn trace_view(r: Result<Vec<Event>, DecodeError>) -> Result<Seq<Event>, DecodeError> {
    match r {
        Ok(events) => Ok(events@),
        Err(e) => Err(e),
    }
}

impl EventKind {
    /// The event that a tag names.
    pub fn from_tag(tag: u32) -> (r: Option<EventKind>)
        ensures
            r == event_kind(tag),
    {
        match tag {
            1 => Some(EventKind::Start),
            2 => Some(EventKind::SharedMinimum),
            3 => Some(EventKind::ThreadMinimum),
            4 => Some(EventKind::Won),
            5 => Some(EventKind::ChosenChunk),
            6 => Some(EventKind::ReadIndex),
            7 => Some(EventKind::WriteIndex),
            _ => None,
        }
    }

    /// The words by which the event is printed.
    pub fn name(self) -> (r: &'static str)
        ensures
            r@ == event_name(self),
    {
        match self {
            EventKind::Start => "start thread",
            EventKind::SharedMinimum => "shared minimum element",
            EventKind::ThreadMinimum => "minimum element of this thread",
            EventKind::Won => "thread won",
            EventKind::ChosenChunk => "chosen chunk_n",
            EventKind::ReadIndex => "rd_ix",
            EventKind::WriteIndex => "wr_ix",
        }
    }
}

/// Decodes the trace of one worker.
pub fn decode_thread(buf: &[u32], thread: usize) -> (r: Result<Vec<Event>, DecodeError>)
    requires
        thread < N_THREADS,
    ensures
        trace_view(r) == thread_trace(buf@, thread as nat),
{
    let base: usize = thread * PER_THREAD_LOG;
    let mut events: Vec<Event> = Vec::new();
    let mut i: usize = 0;
    assert(trace_after(events@, trace_from(buf@, base as int, 0)) == thread_trace(
        buf@,
        thread as nat,
    )) by {
        let rest = trace_from(buf@, base as int, 0);
        if rest is Ok {
            assert(events@ + rest->Ok_0 =~= rest->Ok_0);
        }
    }
    while i < PER_THREAD_EVENTS
        invariant
            i <= PER_THREAD_EVENTS,
            base == thread * PER_THREAD_LOG,
            thread < N_THREADS,
            trace_after(events@, trace_from(buf@, base as int, i as nat)) == thread_trace(
                buf@,
                thread as nat,
            ),
        decreases PER_THREAD_EVENTS - i,
    {
        let ghost front = events@;
        let at: usize = base + 2 * i;
        if at >= buf.len() {
            return Err(DecodeError::Truncated);
        }
        let kind = match EventKind::from_tag(buf[at]) {
            Some(kind) => kind,
            None => {
                assert(front + Seq::<Event>::empty() =~= front);
                return Ok(events);
            },
        };
        if at + 1 >= buf.len() {
            return Err(DecodeError::Truncated);
        }
        let event = Event { kind, value: buf[at + 1] };
        events.push(event);
        proof {
            let rest = trace_from(buf@, base as int, (i + 1) as nat);
            if rest is Ok {
                assert((front + seq![event]) + rest->Ok_0 =~= front + (seq![event] + rest->Ok_0));
            }
            assert(events@ =~= front + seq![event]);
        }
        i = i + 1;
    }
    assert(events@ + Seq::<Event>::empty() =~= events@);
    Ok(events)
}

/// Decodes the trace of every worker. Item `thread` of the result is the
/// trace of that worker, or the reason why it could not be read.
pub fn analyze_log(buf: &[u32]) -> (r: Vec<Result<Vec<Event>, DecodeError>>)
    ensures
        r@.len() == N_THREADS,
        forall|thread: int|
            0 <= thread < N_THREADS ==> trace_view(#[trigger] r@[thread]) == thread_trace(
                buf@,
                thread as nat,
            ),
{
    let mut out: Vec<Result<Vec<Event>, DecodeError>> = Vec::new();
    let mut thread: usize = 0;
    while thread < N_THREADS
        invariant
            thread <= N_THREADS,
            out@.len() == thread,
            forall|t: int|
                0 <= t < thread ==> trace_view(#[trigger] out@[t]) == thread_trace(buf@, t as nat),
        decreases N_THREADS - thread,
    {
        let trace = decode_thread(buf, thread);
        out.push(trace);
        thread = thread + 1;
    }
    out
}

} // verus!

//! A streaming request from the first comment to the last record. The proxy
//! commits to a 200 event stream immediately and sends comment lines, which
//! every client ignores, while it waits for a slot or rides out trouble; then
//! the upstream's stream is piped through. Here stands what is decided at each
//! step; whoever runs it queues, sends, reads and delivers.

use vstd::prelude::*;

use crate::digits;
use crate::errors::sse_error;
use crate::proxy::{bench_connect, bench_status, retryable, Attempt, Penalty};
use crate::sse::SseScan;
use crate::time::Instant;

verus! {

/// Sent as soon as a stream is committed to.
pub const CONNECTED: &'static str = ": connected\n\n";

/// Sent while a request waits for a slot.
pub const HEARTBEAT: &'static str = ": heartbeat\n\n";

/// Sent before a request is tried again.
pub const RETRYING: &'static str = ": retrying\n\n";

/// Where a stream stands.
#[derive(Clone, Copy, PartialEq, Eq, Structural, Debug)]
pub enum Phase {
    /// It queues for a slot, or its request is with the upstream.
    Trying,
    /// The upstream rejected it with this status; what it says is being read.
    Rejected(u16),
    /// The upstream's stream is being piped through.
    Piping,
    /// It is over.
    Closed,
}

/// What happened.
pub enum Event<'a> {
    /// The client hung up.
    Gone,
    /// An attempt came to its end.
    Attempted(Attempt),
    /// What the upstream says of a rejection: its status in words, and the
    /// body.
    Explained { status: &'a str, detail: &'a str },
    /// The upstream sent these bytes.
    Chunk(&'a [u8]),
    /// The upstream sent nothing for too long.
    Stalled,
    /// The connection to the upstream broke.
    Broken,
    /// The upstream's stream is over.
    Ended,
}

/// The tokens that a stream is counted with.
pub struct Accounted {
    pub prompt: Option<u64>,
    pub completion: u64,
    /// Where the completion count comes from: "usage" or "estimate".
    pub source: &'static str,
}

/// What is done next.
pub enum Next {
    /// Queue for a slot and send the request.
    Queue,
    /// Read what the upstream says of its rejection.
    Explain,
    /// Deliver the bytes that were read, if any, and read on.
    Read,
    /// Record the stream under this label, with its tokens where it was piped
    /// to its end.
    Record { label: String, tokens: Option<Accounted> },
}

/// What is to be done: the lane is penalized, the model remembered as one that
/// rejects additions, the client told, in that order, and then the next step.
pub struct Action {
    pub penalty: Penalty,
    pub remember: bool,
    pub frame: Option<String>,
    pub next: Next,
}

/// A streaming request.
pub struct Stream {
    /// Trouble is not waited out past this instant.
    pub deadline: Instant,
    /// What is sent to the upstream.
    pub body: Vec<u8>,
    /// The untouched body, where `body` is not it.
    pub fallback: Option<Vec<u8>>,
    pub scan: SseScan,
    pub phase: Phase,
}

/// The event can happen to a stream that stands there.
pub open spec fn can_happen(phase: Phase, e: Event) -> bool {
    match e {
        Event::Gone => phase != Phase::Closed,
        Event::Attempted(_) => phase == Phase::Trying,
        Event::Explained { .. } => phase is Rejected,
        Event::Chunk(_) | Event::Stalled | Event::Broken | Event::Ended => phase == Phase::Piping,
    }
}

/// The untouched body of a request.
pub open spec fn untouched(s: Stream) -> Seq<u8> {
    match s.fallback {
        Some(f) => f@,
        None => s.body@,
    }
}

/// Nothing about the request itself is different.
pub open spec fn same_request(a: Stream, b: Stream) -> bool {
    a.deadline == b.deadline && a.body == b.body && a.fallback == b.fallback
}

/// Nothing is different but the phase.
pub open spec fn moved(before: Stream, after: Stream, phase: Phase) -> bool {
    same_request(before, after) && after.scan == before.scan && after.phase == phase
}

/// Nothing is done beside the next step.
pub open spec fn quiet(a: Action) -> bool {
    a.penalty is Spared && !a.remember && a.frame is None
}

/// The stream is recorded under this label and nothing else is done.
pub open spec fn recorded(a: Action, label: Seq<char>) -> bool {
    &&& quiet(a)
    &&& a.next matches Next::Record { label: l, tokens }
    &&& l@ == label
    &&& tokens is None
}

/// The client is told of an error, which ends the stream, and the stream is
/// recorded under this label.
pub open spec fn failed(a: Action, label: Seq<char>, message: Seq<char>) -> bool {
    &&& a.penalty is Spared
    &&& !a.remember
    &&& a.frame matches Some(f)
    &&& f@ == crate::errors::error_frames(message)
    &&& a.next matches Next::Record { label: l, tokens }
    &&& l@ == label
    &&& tokens is None
}

/// What the client is told of an error that waiting would not mend.
pub open spec fn rejection(status: Seq<char>, detail: Seq<char>) -> Seq<char> {
    "upstream error "@ + status + ": "@ + detail
}

/// The tokens of a stream that was piped to its end: exact when the upstream
/// reported usage, otherwise an estimate of one token per event.
pub open spec fn counted(s: Stream, t: Accounted) -> bool {
    &&& t.prompt == s.scan.counts().prompt
    &&& match s.scan.counts().completion {
        Some(n) => t.completion == n && t.source@ == "usage"@,
        None => t.completion == s.scan.counts().events && t.source@ == "estimate"@,
    }
}

/// What is done after an attempt that ended at `now`. A 400 right after
/// something was added usually means that the model rejects it; trouble that may
/// pass is waited out until the deadline; other errors are told.
pub open spec fn triaged(
    before: Stream,
    after: Stream,
    attempt: Attempt,
    now: int,
    a: Action,
) -> bool {
    match attempt {
        Attempt::NoSlot => {
            &&& moved(before, after, Phase::Closed)
            &&& failed(a, "504"@, "proxy timed out waiting for an upstream slot"@)
        },
        Attempt::Failed => {
            &&& moved(before, after, Phase::Trying)
            &&& crate::proxy::connect_penalty(a.penalty)
            &&& !a.remember
            &&& a.frame is None
            &&& a.next is Queue
        },
        Attempt::Answered { status, retry_after, exhausted } => if status == 400
            && before.fallback is Some {
            &&& after.deadline == before.deadline
            &&& after.body@ == untouched(before)
            &&& after.fallback is None
            &&& after.scan == before.scan
            &&& after.phase == Phase::Trying
            &&& a.penalty is Spared
            &&& a.remember
            &&& a.frame is None
            &&& a.next is Queue
        } else if crate::proxy::worth_retrying(status) {
            if now >= before.deadline@ {
                &&& moved(before, after, Phase::Closed)
                &&& failed(a, "504"@, "upstream unavailable, retries exhausted"@)
            } else {
                &&& moved(before, after, Phase::Trying)
                &&& if exhausted {
                    a.penalty is Spared
                } else {
                    crate::proxy::status_penalty(a.penalty, status, retry_after)
                }
                &&& !a.remember
                &&& a.frame matches Some(f)
                &&& f@ == RETRYING@
                &&& a.next is Queue
            }
        } else if crate::proxy::success(status) {
            &&& moved(before, after, Phase::Piping)
            &&& quiet(a)
            &&& a.next is Read
        } else {
            &&& moved(before, after, Phase::Rejected(status))
            &&& quiet(a)
            &&& a.next is Explain
        },
    }
}

/// What [`Stream::on`] does.
pub open spec fn stepped(before: Stream, after: Stream, e: Event, now: int, a: Action) -> bool {
    match e {
        Event::Gone => moved(before, after, Phase::Closed) && recorded(a, "disconnect"@),
        Event::Attempted(attempt) => triaged(before, after, attempt, now, a),
        Event::Explained { status, detail } => {
            &&& moved(before, after, Phase::Closed)
            &&& before.phase matches Phase::Rejected(code)
            &&& failed(a, digits::numeral(code as nat, 10), rejection(status@, detail@))
        },
        Event::Chunk(bytes) => {
            &&& same_request(before, after)
            &&& after.phase == Phase::Piping
            &&& after.scan.counts() == before.scan.counts().after_text(
                before.scan.pending() + crate::utf8::lossy_text(bytes@),
            )
            &&& after.scan.pending() == crate::sse::kept(
                crate::sse::unfinished(
                    before.scan.pending() + crate::utf8::lossy_text(bytes@),
                ),
            )
            &&& quiet(a)
            &&& a.next is Read
        },
        Event::Stalled => {
            &&& moved(before, after, Phase::Closed)
            &&& failed(a, "stall"@, "upstream stream stalled"@)
        },
        Event::Broken => {
            &&& moved(before, after, Phase::Closed)
            &&& failed(a, "stream_error"@, "upstream stream interrupted"@)
        },
        Event::Ended => {
            &&& moved(before, after, Phase::Closed)
            &&& quiet(a)
            &&& a.next matches Next::Record { label, tokens }
            &&& label@ == "200"@
            &&& tokens matches Some(t)
            &&& counted(before, t)
        },
    }
}

fn step(next: Next) -> (a: Action)
    ensures
        quiet(a),
        a.next == next,
{
    Action { penalty: Penalty::Spared, remember: false, frame: None, next }
}

fn record(label: &str) -> (a: Action)
    ensures
        recorded(a, label@),
{
    step(Next::Record { label: label.to_owned(), tokens: None })
}

fn fail(label: &str, message: &str) -> (a: Action)
    ensures
        failed(a, label@, message@),
{
    Action {
        penalty: Penalty::Spared,
        remember: false,
        frame: Some(sse_error(message)),
        next: Next::Record { label: label.to_owned(), tokens: None },
    }
}

impl Stream {
    /// A stream that is committed to, before its first attempt. Its client is
    /// sent [`CONNECTED`] first.
    pub fn open(deadline: Instant, body: Vec<u8>, fallback: Option<Vec<u8>>) -> (r: Stream)
        ensures
            r.deadline == deadline,
            r.body == body,
            r.fallback == fallback,
            r.phase == Phase::Trying,
            r.scan.pending() == Seq::<char>::empty(),
            r.scan.counts().events == 0,
            r.scan.counts().prompt is None,
            r.scan.counts().completion is None,
            r.scan.counts().quality == crate::quality::Quality::nothing(),
    {
        Stream { deadline, body, fallback, scan: SseScan::default(), phase: Phase::Trying }
    }

    fn triage(&mut self, attempt: &Attempt, now: Instant) -> (a: Action)
        requires
            old(self).phase == Phase::Trying,
        ensures
            triaged(*old(self), *final(self), *attempt, now@, a),
    {
        match attempt {
            Attempt::NoSlot => {
                self.phase = Phase::Closed;
                fail("504", "proxy timed out waiting for an upstream slot")
            },
            Attempt::Failed => Action {
                penalty: bench_connect(),
                remember: false,
                frame: None,
                next: Next::Queue,
            },
            Attempt::Answered { status, retry_after, exhausted } => {
                if *status == 400 && self.fallback.is_some() {
                    let original = self.fallback.take().unwrap();
                    self.body = original;
                    return Action {
                        penalty: Penalty::Spared,
                        remember: true,
                        frame: None,
                        next: Next::Queue,
                    };
                }
                if retryable(*status) {
                    if now.nanos >= self.deadline.nanos {
                        self.phase = Phase::Closed;
                        return fail("504", "upstream unavailable, retries exhausted");
                    }
                    let penalty = if *exhausted {
                        Penalty::Spared
                    } else {
                        bench_status(*status, retry_after)
                    };
                    return Action {
                        penalty,
                        remember: false,
                        frame: Some(RETRYING.to_owned()),
                        next: Next::Queue,
                    };
                }
                if 200 <= *status && *status < 300 {
                    self.phase = Phase::Piping;
                    step(Next::Read)
                } else {
                    self.phase = Phase::Rejected(*status);
                    step(Next::Explain)
                }
            },
        }
    }

    fn account(&self) -> (t: Accounted)
        ensures
            counted(*self, t),
    {
        match self.scan.completion {
            Some(n) => Accounted { prompt: self.scan.prompt, completion: n, source: "usage" },
            None => Accounted {
                prompt: self.scan.prompt,
                completion: self.scan.events,
                source: "estimate",
            },
        }
    }

    /// Decide what is done about an event at `now`.
    pub fn on(&mut self, e: Event, now: Instant) -> (a: Action)
        requires
            can_happen(old(self).phase, e),
        ensures
            stepped(*old(self), *final(self), e, now@, a),
            final(self).phase == Phase::Closed <==> a.next is Record,
    {
        match e {
            Event::Gone => {
                self.phase = Phase::Closed;
                record("disconnect")
            },
            Event::Attempted(attempt) => self.triage(&attempt, now),
            Event::Explained { status, detail } => {
                let code = match self.phase {
                    Phase::Rejected(code) => code,
                    _ => 0,
                };
                self.phase = Phase::Closed;
                let mut message = "upstream error ".to_owned();
                message.append(status);
                message.append(": ");
                message.append(detail);
                let label = digits::decimal(code as u64);
                fail(label.as_str(), message.as_str())
            },
            Event::Chunk(bytes) => {
                self.scan.feed(bytes);
                step(Next::Read)
            },
            Event::Stalled => {
                self.phase = Phase::Closed;
                fail("stall", "upstream stream stalled")
            },
            Event::Broken => {
                self.phase = Phase::Closed;
                fail("stream_error", "upstream stream interrupted")
            },
            Event::Ended => {
                let tokens = Some(self.account());
                self.phase = Phase::Closed;
                step(Next::Record { label: "200".to_owned(), tokens })
            },
        }
    }
}

/// Exhausted workers never bench a lane.
pub proof fn law_exhausted_workers_spare_the_lane(
    before: Stream,
    after: Stream,
    status: u16,
    retry_after: Option<String>,
    now: int,
    a: Action,
)
    requires
        stepped(
            before,
            after,
            Event::Attempted(Attempt::Answered { status, retry_after, exhausted: true }),
            now,
            a,
        ),
    ensures
        a.penalty is Spared,
{
}

/// A request is sent on as it came or with what was added, and without that at
/// most once more: whatever happens, the untouched body stays what it was, and
/// once it has been fallen back on it is what is sent.
pub proof fn law_fallback_is_taken_once(
    before: Stream,
    after: Stream,
    e: Event,
    now: int,
    a: Action,
)
    requires
        stepped(before, after, e, now, a),
    ensures
        untouched(after) == untouched(before),
        a.remember ==> before.fallback is Some && after.fallback is None,
        !a.remember ==> after.body == before.body && after.fallback == before.fallback,
{
}

/// No trouble is waited out past the deadline: from then on an attempt that the
/// upstream answered leads on to its stream or to an end, or at most to one
/// more with the body as it came.
pub proof fn law_nothing_is_retried_past_the_deadline(
    before: Stream,
    after: Stream,
    status: u16,
    retry_after: Option<String>,
    exhausted: bool,
    now: int,
    a: Action,
)
    requires
        now >= before.deadline@,
        stepped(
            before,
            after,
            Event::Attempted(Attempt::Answered { status, retry_after, exhausted }),
            now,
            a,
        ),
    ensures
        a.next is Queue ==> a.remember && after.fallback is None,
{
}

/// A client is never left hanging: whenever the proxy itself ends a stream whose
/// client is still there, the last it sends is an error event and the end mark,
/// and a stream that the upstream ended gets nothing added.
pub proof fn law_streams_end_properly(
    before: Stream,
    after: Stream,
    e: Event,
    now: int,
    a: Action,
)
    requires
        stepped(before, after, e, now, a),
        a.next is Record,
    ensures
        match e {
            Event::Gone | Event::Ended => a.frame is None,
            _ => a.frame matches Some(f) && exists|message: Seq<char>|
                f@ == #[trigger] crate::errors::error_frames(message),
        },
{
}

/// A completion count that was reported is what is recorded: two streams that reported
/// the same one are recorded with it, however many events either of them had.
pub proof fn law_reported_counts_are_recorded(
    s: Stream,
    s_after: Stream,
    r: Stream,
    r_after: Stream,
    now: int,
    later: int,
    a: Action,
    b: Action,
    n: u64,
)
    requires
        stepped(s, s_after, Event::Ended, now, a),
        stepped(r, r_after, Event::Ended, later, b),
        s.scan.completion == Some(n),
        r.scan.completion == Some(n),
    ensures
        a.next matches Next::Record { tokens: Some(t), .. } && t.completion == n && t.source@
            == "usage"@,
        b.next matches Next::Record { tokens: Some(t), .. } && t.completion == n && t.source@
            == "usage"@,
{
}

} // verus!

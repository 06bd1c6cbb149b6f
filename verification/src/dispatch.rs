//! Global FIFO slot dispatcher. Every client connection funnels through one
//! queue, so under contention slots are granted strictly in arrival order
//! instead of letting freshly-arrived requests win wakeup races against long
//! waiters.
//!
//! The dispatcher decides; whoever runs it waits, and delivers what was decided
//! to the waiter. A waiter is known by the handle that its reply goes to.

use std::collections::VecDeque;

use vstd::prelude::*;

use crate::pool::{Pool, PoolView, Reservation};
use crate::time::{Duration, Instant, MAX_SPAN_NANOS, NANOS_PER_MILLI};

verus! {

/// The longest sleep between two looks at the queue, so that abandoned waiters
/// are noticed promptly.
pub const MAX_NAP_NANOS: u128 = 500 * NANOS_PER_MILLI;

/// One request in the queue.
pub struct Waiter<R> {
    /// Where the outcome goes.
    pub reply: R,
    /// A slot after this instant is of no use.
    pub deadline: Instant,
    /// The lane that the request would rather have.
    pub prefer: Option<usize>,
}

/// What is to be done next.
pub enum Turn<R> {
    /// Nobody waits.
    Idle,
    /// The first in the queue hung up and has left it.
    Abandoned(R),
    /// The first in the queue has a slot and has left it. If this cannot be
    /// delivered, the slot goes back by [`Dispatcher::undelivered`].
    Granted { reply: R, lane: usize, key: String, stamp: Instant, sticky: bool },
    /// No slot can open for the first in the queue before its deadline; it
    /// has left the queue.
    Expired(R),
    /// Look again after this long.
    Sleep(Duration),
}

/// The pool, everyone who ever joined the queue, in order, how many have left
/// it, and those who are still in it.
#[verifier::reject_recursive_types(R)]
pub struct DispatchView<R> {
    pub pool: PoolView,
    pub arrived: Seq<Waiter<R>>,
    pub settled: nat,
    pub waiting: Seq<Waiter<R>>,
}

/// The queue and the pool that it is served from.
#[verifier::reject_recursive_types(R)]
pub struct Dispatcher<R> {
    pool: Pool,
    waiting: VecDeque<Waiter<R>>,
    arrived: Ghost<Seq<Waiter<R>>>,
}

impl<R> View for Dispatcher<R> {
    type V = DispatchView<R>;

    closed spec fn view(&self) -> DispatchView<R> {
        DispatchView {
            pool: self.pool@,
            arrived: self.arrived@,
            settled: (self.arrived@.len() - self.waiting@.len()) as nat,
            waiting: self.waiting@,
        }
    }
}

/// The preferred lane, if there is such a lane.
pub open spec fn in_bounds(prefer: Option<usize>, lanes: nat) -> Option<usize> {
    match prefer {
        Some(p) if p < lanes => Some(p),
        _ => None,
    }
}

/// The pool with the lane at place `i` benched, if there is one.
pub open spec fn benched_at(pool: PoolView, i: int, until: int) -> PoolView {
    if 0 <= i < pool.lanes.len() {
        PoolView { lanes: pool.lanes.update(i, pool.lanes[i].benched(until)), ..pool }
    } else {
        pool
    }
}

impl<R> DispatchView<R> {
    /// Those in the queue are those who joined and have not left, in the order
    /// in which they came.
    pub open spec fn wf(self) -> bool {
        &&& self.pool.wf()
        &&& self.settled <= self.arrived.len()
        &&& self.waiting == self.arrived.skip(self.settled as int)
    }

    /// The queue without its first.
    pub open spec fn head_left(self, after: DispatchView<R>) -> bool {
        &&& after.arrived == self.arrived
        &&& after.settled == self.settled + 1
        &&& after.waiting == self.waiting.drop_first()
    }

    /// The queue as it is.
    pub open spec fn unmoved(self, after: DispatchView<R>) -> bool {
        &&& after.arrived == self.arrived
        &&& after.settled == self.settled
        &&& after.waiting == self.waiting
    }

    /// What [`Dispatcher::turn_at`] does.
    pub open spec fn turned(
        self,
        after: DispatchView<R>,
        now: int,
        later: int,
        gone: bool,
        t: Turn<R>,
    ) -> bool {
        if self.waiting.len() == 0 {
            t is Idle && after == self
        } else {
            let head = self.waiting[0];
            let prefer = in_bounds(head.prefer, self.pool.lanes.len());
            if gone {
                &&& t == Turn::Abandoned(head.reply)
                &&& after.pool == self.pool
                &&& self.head_left(after)
            } else if self.pool.saturated(now) {
                let wait = crate::pool::soonest(self.pool.lanes, now);
                &&& after.pool.latest == now
                &&& after.pool.lanes == self.pool.pruned(now)
                &&& if later + wait > head.deadline@ {
                    t == Turn::Expired(head.reply) && self.head_left(after)
                } else {
                    &&& t matches Turn::Sleep(nap)
                    &&& nap@ == crate::time::min_span(wait, MAX_NAP_NANOS as int)
                    &&& self.unmoved(after)
                }
            } else {
                &&& t matches Turn::Granted { reply, lane, key, stamp, sticky }
                &&& reply == head.reply
                &&& self.pool.reserved(
                    after.pool,
                    now,
                    prefer,
                    Reservation::Ready { lane, key, stamp, sticky },
                )
                &&& self.head_left(after)
            }
        }
    }
}

impl<R> Dispatcher<R> {
    /// An empty queue in front of `pool`.
    pub fn new(pool: Pool) -> (r: Self)
        requires
            pool@.wf(),
        ensures
            r@.wf(),
            r@.pool == pool@,
            r@.arrived == Seq::<Waiter<R>>::empty(),
    {
        let r = Dispatcher { pool, waiting: VecDeque::new(), arrived: Ghost(Seq::empty()) };
        assert(r@.waiting =~= r@.arrived.skip(r@.settled as int));
        r
    }

    /// Join the queue.
    pub fn acquire(&mut self, reply: R, deadline: Instant, prefer: Option<usize>)
        requires
            old(self)@.wf(),
        ensures
            final(self)@.wf(),
            final(self)@ == (DispatchView {
                arrived: old(self)@.arrived.push(Waiter { reply, deadline, prefer }),
                waiting: old(self)@.waiting.push(Waiter { reply, deadline, prefer }),
                ..old(self)@
            }),
    {
        let ghost before = self@;
        let w = Waiter { reply, deadline, prefer };
        let ghost all = self.arrived@.push(w);
        self.waiting.push_back(w);
        self.arrived = Ghost(all);
        proof {
            assert(self@.waiting =~= before.waiting.push(w));
            assert(self@.arrived.skip(self@.settled as int) =~= self@.waiting);
        }
    }

    /// How many wait.
    pub fn depth(&self) -> (r: usize)
        ensures
            r == self@.waiting.len(),
    {
        self.waiting.len()
    }

    /// The first in the queue.
    pub fn head(&self) -> (r: Option<&R>)
        ensures
            match r {
                Some(h) => self@.waiting.len() > 0 && *h == self@.waiting[0].reply,
                None => self@.waiting.len() == 0,
            },
    {
        if self.waiting.len() == 0 {
            None
        } else {
            Some(&self.waiting[0].reply)
        }
    }

    /// The first in the queue leaves it.
    fn leave(&mut self) -> (w: Waiter<R>)
        requires
            old(self)@.wf(),
            old(self)@.waiting.len() > 0,
        ensures
            final(self)@.wf(),
            final(self)@.pool == old(self)@.pool,
            old(self)@.head_left(final(self)@),
            w == old(self)@.waiting[0],
    {
        let ghost before = self@;
        let w = self.waiting.pop_front().unwrap();
        proof {
            assert(self@.waiting =~= before.waiting.drop_first());
            assert(before.arrived.skip(before.settled as int + 1) =~= self@.waiting);
        }
        w
    }

    /// Serve the first in the queue: `now` is when a slot is looked for,
    /// `later` when it turned out that there is none, and `gone` whether the
    /// first in the queue has hung up.
    pub fn turn_at(&mut self, now: Instant, later: Instant, gone: bool) -> (t: Turn<R>)
        requires
            old(self)@.wf(),
            old(self)@.pool.latest <= now@ <= MAX_SPAN_NANOS,
            later@ <= MAX_SPAN_NANOS,
        ensures
            final(self)@.wf(),
            old(self)@.turned(final(self)@, now@, later@, gone, t),
    {
        let ghost before = self@;
        if self.waiting.len() == 0 {
            return Turn::Idle;
        }
        if gone {
            let w = self.leave();
            return Turn::Abandoned(w.reply);
        }
        let deadline = self.waiting[0].deadline;
        let prefer = match self.waiting[0].prefer {
            Some(p) if p < self.pool.len() => Some(p),
            _ => None,
        };
        let r = self.pool.reserve_at(now, prefer);
        proof {
            assert(self@.waiting == before.waiting);
            crate::pool::law_waits_only_when_saturated(
                before.pool,
                self@.pool,
                now@,
                prefer,
                r,
            );
        }
        match r {
            Reservation::Ready { lane, key, stamp, sticky } => {
                let w = self.leave();
                Turn::Granted { reply: w.reply, lane, key, stamp, sticky }
            },
            Reservation::Wait(wait) => {
                if later.nanos > deadline.nanos || wait.nanos > deadline.nanos - later.nanos {
                    let w = self.leave();
                    Turn::Expired(w.reply)
                } else if wait.nanos < MAX_NAP_NANOS {
                    Turn::Sleep(wait)
                } else {
                    Turn::Sleep(Duration { nanos: MAX_NAP_NANOS })
                }
            },
        }
    }

    /// Serve the first in the queue at the present instant.
    pub fn turn(&mut self, gone: bool) -> (t: Turn<R>)
        requires
            old(self)@.wf(),
        ensures
            final(self)@.wf(),
            exists|now: int, later: int|
                {
                    &&& old(self)@.pool.latest <= now <= later <= MAX_SPAN_NANOS
                    &&& #[trigger] old(self)@.turned(final(self)@, now, later, gone, t)
                },
    {
        let now = self.pool.now();
        let second = self.pool.now();
        let later = if second.nanos < now.nanos {
            now
        } else {
            second
        };
        self.turn_at(now, later, gone)
    }

    /// A granted slot found nobody to take it: it goes back to the lane of its
    /// key, if the pool has one still.
    pub fn undelivered(&mut self, lane: usize, key: &String, stamp: Instant)
        requires
            old(self)@.wf(),
        ensures
            final(self)@.wf(),
            old(self)@.unmoved(final(self)@),
            ({
                let lanes = old(self)@.pool.lanes;
                let i = crate::pool::place_of(lanes, lane as int, key@);
                final(self)@.pool == if i < lanes.len() {
                    PoolView {
                        lanes: lanes.update(i, lanes[i].released(stamp@)),
                        ..old(self)@.pool
                    }
                } else {
                    old(self)@.pool
                }
            }),
    {
        if let Some(i) = self.pool.locate(lane, key) {
            self.pool.release(i, stamp);
        }
    }

    /// Bench the lane of a key from `now` on, if the pool has one still.
    pub fn penalize_at(&mut self, lane: usize, key: &String, now: Instant, backoff: Duration)
        requires
            old(self)@.wf(),
            now@ <= MAX_SPAN_NANOS,
            backoff.in_range(),
        ensures
            final(self)@.wf(),
            old(self)@.unmoved(final(self)@),
            final(self)@.pool == benched_at(
                old(self)@.pool,
                crate::pool::place_of(old(self)@.pool.lanes, lane as int, key@),
                now@ + backoff@,
            ),
    {
        if let Some(i) = self.pool.locate(lane, key) {
            self.pool.penalize_at(i, now, backoff);
        }
    }

    /// Bench the lane of a key from the present instant on.
    pub fn penalize(&mut self, lane: usize, key: &String, backoff: Duration)
        requires
            old(self)@.wf(),
            backoff.in_range(),
        ensures
            final(self)@.wf(),
            old(self)@.unmoved(final(self)@),
            exists|now: int|
                old(self)@.pool.latest <= now <= MAX_SPAN_NANOS && final(self)@.pool
                    == #[trigger] benched_at(
                    old(self)@.pool,
                    crate::pool::place_of(old(self)@.pool.lanes, lane as int, key@),
                    now + backoff@,
                ),
    {
        let now = self.pool.now();
        self.penalize_at(lane, key, now, backoff);
    }

    /// Serve the queue from a pool for other keys and rates from now on.
    pub fn rebuild(&mut self, keys: &Vec<(String, usize)>)
        requires
            old(self)@.wf(),
            forall|i: int| 0 <= i < keys@.len() ==> (#[trigger] keys@[i]).1 >= 1,
        ensures
            final(self)@.wf(),
            old(self)@.unmoved(final(self)@),
            final(self)@.pool.latest == old(self)@.pool.latest,
            final(self)@.pool.lanes == Seq::new(
                keys@.len(),
                |i: int|
                    crate::pool::carried(
                        old(self)@.pool.lanes,
                        keys@[i].0@,
                        keys@[i].1 as nat,
                    ),
            ),
    {
        self.pool = self.pool.rebuild(keys);
    }

    /// The number of lanes.
    pub fn lanes(&self) -> (r: usize)
        ensures
            r == self@.pool.lanes.len(),
    {
        self.pool.len()
    }

    /// The present, on the pool's clock.
    pub fn now(&self) -> (r: Instant)
        requires
            self@.wf(),
        ensures
            self@.pool.latest <= r@ <= MAX_SPAN_NANOS,
    {
        self.pool.now()
    }
}

/// How the affinity of a request turned out: its lane won, another had to
/// serve, or it had none.
pub open spec fn affinity_label(prefer: Option<usize>, sticky: bool) -> Seq<char> {
    if prefer is None {
        "none"@
    } else if sticky {
        "sticky"@
    } else {
        "spill"@
    }
}

pub fn affinity_result(prefer: Option<usize>, sticky: bool) -> (r: &'static str)
    ensures
        r@ == affinity_label(prefer, sticky),
{
    if prefer.is_none() {
        "none"
    } else if sticky {
        "sticky"
    } else {
        "spill"
    }
}

/// Slots are granted strictly in arrival order: whoever leaves the queue on a
/// turn is the one who has waited longest, nobody else moves, and nobody who
/// came later has left before.
pub proof fn law_first_come_first_served<R>(
    before: DispatchView<R>,
    after: DispatchView<R>,
    now: int,
    later: int,
    gone: bool,
    t: Turn<R>,
)
    requires
        before.wf(),
        after.wf(),
        before.turned(after, now, later, gone, t),
    ensures
        after.arrived == before.arrived,
        match t {
            Turn::Granted { reply, .. } => {
                &&& after.settled == before.settled + 1
                &&& reply == before.arrived[before.settled as int].reply
            },
            Turn::Abandoned(reply) | Turn::Expired(reply) => {
                &&& after.settled == before.settled + 1
                &&& reply == before.arrived[before.settled as int].reply
            },
            Turn::Idle | Turn::Sleep(_) => after.settled == before.settled,
        },
        after.waiting == before.arrived.skip(after.settled as int),
{
}

/// Nobody is kept waiting for a slot that comes too late, and nobody is sent
/// away while one may still come in time: the first in the queue is put off
/// only if the next slot opens by its deadline, and turned away only if not.
pub proof fn law_waits_end_by_the_deadline<R>(
    before: DispatchView<R>,
    after: DispatchView<R>,
    now: int,
    later: int,
    t: Turn<R>,
)
    requires
        before.wf(),
        before.waiting.len() > 0,
        before.turned(after, now, later, false, t),
    ensures
        t matches Turn::Sleep(nap) ==> later + nap@ <= before.waiting[0].deadline@,
        t is Sleep <==> before.pool.saturated(now) && later + crate::pool::soonest(
            before.pool.lanes,
            now,
        ) <= before.waiting[0].deadline@,
        t is Expired <==> before.pool.saturated(now) && later + crate::pool::soonest(
            before.pool.lanes,
            now,
        ) > before.waiting[0].deadline@,
{
}

/// A slot granted to a waiter that vanished is not lost: handed back, it leaves
/// its lane as it was before the grant, and it is that lane that it goes back to.
pub proof fn law_undelivered_slot_returns<R>(
    before: DispatchView<R>,
    after: DispatchView<R>,
    now: int,
    later: int,
    t: Turn<R>,
)
    requires
        before.wf(),
        before.pool.latest <= now,
        before.turned(after, now, later, false, t),
    ensures
        t matches Turn::Granted { lane, key, stamp, .. } ==> {
            &&& crate::pool::place_of(after.pool.lanes, lane as int, key@) == lane
            &&& after.pool.lanes[lane as int].released(stamp@)
                == before.pool.lanes[lane as int].pruned(now)
        },
{
    if let Turn::Granted { reply, lane, key, stamp, sticky } = t {
        crate::pool::law_release_undoes_reserve(
            before.pool,
            after.pool,
            now,
            in_bounds(before.waiting[0].prefer, before.pool.lanes.len()),
            lane,
            key,
            stamp,
            sticky,
        );
    }
}

} // verus!

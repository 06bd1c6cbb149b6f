//! Model pressure. The upstream caps the concurrency of each model's workers
//! apart from the rate of each key. When a model's workers are exhausted, no
//! other key would help: the model itself is held back for a moment and then
//! admitted up to a limit, which climbs while things stay calm and dissolves in
//! the end.

use vstd::prelude::*;

use crate::text;
use crate::time::{Duration, Instant, MAX_SPAN_NANOS, NANOS_PER_MILLI, NANOS_PER_SEC};

verus! {

/// How long a model is left alone after its workers were exhausted.
pub const DRAIN_NANOS: u128 = 2 * NANOS_PER_SEC;

/// The limit climbs by one for every span this long without exhaustion.
pub const CLIMB_NANOS: u128 = 60 * NANOS_PER_SEC;

/// The limit dissolves after a span this long without exhaustion.
pub const DISSOLVE_NANOS: u128 = 1800 * NANOS_PER_SEC;

/// How long to wait before asking again for a model that is full.
pub const RECHECK_NANOS: u128 = 500 * NANOS_PER_MILLI;

/// What the upstream says when a model's workers are exhausted.
pub const SIGNATURE: &'static str = "Worker local total request limit";

/// The state of one model.
#[derive(Clone, Copy, PartialEq, Eq, Debug)]
pub struct Pressure {
    /// The most requests in flight; 0 = ungoverned.
    pub limit: usize,
    pub inflight: usize,
    /// When its workers were last exhausted.
    pub exhausted_at: Instant,
    /// The limit has not changed since then.
    pub stable_since: Instant,
    /// Nothing is admitted before this instant.
    pub hold_until: Instant,
}

/// An answer to a request for a model.
#[derive(Clone, Copy, PartialEq, Eq, Debug)]
pub enum Permit {
    /// Go ahead; to be handed back by [`Governor::release`].
    Granted,
    /// Ask again after this long.
    Hold(Duration),
}

impl Permit {
    /// At `now`, it is to be asked for again after the deadline only.
    pub open spec fn late(self, now: int, deadline: int) -> bool {
        self matches Permit::Hold(wait) && now + wait@ > deadline
    }

    /// Whether waiting for it is in vain.
    pub fn too_late(&self, now: Instant, deadline: Instant) -> (r: bool)
        ensures
            r == self.late(now@, deadline@),
    {
        match self {
            Permit::Granted => false,
            Permit::Hold(wait) => now.nanos > deadline.nanos || wait.nanos > deadline.nanos
                - now.nanos,
        }
    }
}

/// `n` raised by `k`, as far as a count goes.
pub open spec fn raised(n: usize, k: int) -> usize {
    if n + k <= usize::MAX {
        (n + k) as usize
    } else {
        usize::MAX
    }
}

/// How often a span of [`CLIMB_NANOS`] fits between two instants.
pub open spec fn climbs(since: int, now: int) -> int {
    if now >= since {
        (now - since) / CLIMB_NANOS as int
    } else {
        0
    }
}

impl Pressure {
    /// A model that nothing is known of.
    pub open spec fn idle() -> Pressure {
        Pressure {
            limit: 0,
            inflight: 0,
            exhausted_at: Instant { nanos: 0 },
            stable_since: Instant { nanos: 0 },
            hold_until: Instant { nanos: 0 },
        }
    }

    /// The instants are readings of a clock.
    pub open spec fn in_range(self) -> bool {
        &&& self.exhausted_at@ <= MAX_SPAN_NANOS
        &&& self.stable_since@ <= MAX_SPAN_NANOS
        &&& self.hold_until@ <= MAX_SPAN_NANOS + DRAIN_NANOS
    }

    /// The limit as calm has changed it by `now`.
    pub open spec fn relaxed(self, now: int) -> Pressure {
        if self.limit == 0 {
            self
        } else if now - self.exhausted_at@ >= DISSOLVE_NANOS {
            Pressure { limit: 0, ..self }
        } else {
            let k = climbs(self.stable_since@, now);
            Pressure {
                limit: raised(self.limit, k),
                stable_since: Instant {
                    nanos: (self.stable_since@ + k * CLIMB_NANOS) as u128,
                },
                ..self
            }
        }
    }

    /// The answer to one more request at `now`, the limit being relaxed.
    pub open spec fn answer(self, now: int) -> Permit {
        if self.limit == 0 {
            Permit::Granted
        } else if now < self.hold_until@ {
            Permit::Hold(Duration { nanos: (self.hold_until@ - now) as u128 })
        } else if self.inflight < self.limit {
            Permit::Granted
        } else {
            Permit::Hold(Duration { nanos: RECHECK_NANOS })
        }
    }

    /// One more request in flight.
    pub open spec fn entered(self) -> Pressure {
        Pressure { inflight: raised(self.inflight, 1), ..self }
    }

    /// One request less in flight.
    pub open spec fn left(self) -> Pressure {
        Pressure {
            inflight: if self.inflight > 0 {
                (self.inflight - 1) as usize
            } else {
                0
            },
            ..self
        }
    }

    /// The workers were exhausted at `now`: the limit is half of what was in
    /// flight, and one at least.
    pub open spec fn throttled(self, now: Instant) -> Pressure {
        Pressure {
            limit: if self.inflight / 2 >= 1 {
                self.inflight / 2
            } else {
                1
            },
            exhausted_at: now,
            stable_since: now,
            hold_until: Instant { nanos: (now@ + DRAIN_NANOS) as u128 },
            ..self
        }
    }

    fn relax(&mut self, now: Instant)
        requires
            old(self).in_range(),
            now@ <= MAX_SPAN_NANOS,
        ensures
            *final(self) == old(self).relaxed(now@),
            final(self).in_range(),
    {
        if self.limit == 0 {
            return;
        }
        if now.nanos >= self.exhausted_at.nanos && now.nanos - self.exhausted_at.nanos
            >= DISSOLVE_NANOS {
            self.limit = 0;
            return;
        }
        if now.nanos >= self.stable_since.nanos {
            let k = (now.nanos - self.stable_since.nanos) / CLIMB_NANOS;
            assert(k * CLIMB_NANOS <= now.nanos - self.stable_since.nanos) by (nonlinear_arith)
                requires
                    k == (now.nanos - self.stable_since.nanos) as int / CLIMB_NANOS as int,
                    CLIMB_NANOS > 0,
            ;
            if k <= (usize::MAX - self.limit) as u128 {
                self.limit = self.limit + k as usize;
            } else {
                self.limit = usize::MAX;
            }
            self.stable_since = Instant { nanos: self.stable_since.nanos + k * CLIMB_NANOS };
        }
    }
}

/// Every model's state.
pub struct Governor {
    models: Vec<(String, Pressure)>,
}

/// The state of the first model of that name.
pub open spec fn found(list: Seq<(Seq<char>, Pressure)>, model: Seq<char>) -> Pressure
    decreases list.len(),
{
    if list.len() == 0 {
        Pressure::idle()
    } else if list[0].0 == model {
        list[0].1
    } else {
        found(list.drop_first(), model)
    }
}

proof fn lemma_found_at(list: Seq<(Seq<char>, Pressure)>, model: Seq<char>, i: int)
    requires
        0 <= i <= list.len(),
        forall|k: int| 0 <= k < i ==> (#[trigger] list[k]).0 != model,
        i < list.len() ==> list[i].0 == model,
    ensures
        found(list, model) == if i < list.len() {
            list[i].1
        } else {
            Pressure::idle()
        },
    decreases list.len(),
{
    if list.len() > 0 && i > 0 {
        assert(list[0].0 != model);
        let rest = list.drop_first();
        assert forall|k: int| 0 <= k < i - 1 implies (#[trigger] rest[k]).0 != model by {
            assert(rest[k] == list[k + 1]);
        }
        lemma_found_at(rest, model, i - 1);
    }
}

/// A change to one model's entry changes no other model.
proof fn lemma_found_other(
    list: Seq<(Seq<char>, Pressure)>,
    after: Seq<(Seq<char>, Pressure)>,
    i: int,
    other: Seq<char>,
)
    requires
        0 <= i < list.len(),
        after.len() == list.len(),
        forall|k: int| 0 <= k < list.len() && k != i ==> after[k] == #[trigger] list[k],
        after[i].0 == list[i].0,
        other != list[i].0,
    ensures
        found(after, other) == found(list, other),
    decreases list.len(),
{
    if i == 0 {
        assert(after.drop_first() =~= list.drop_first());
    } else {
        assert(after[0] == list[0]);
        let rest = list.drop_first();
        let rest_after = after.drop_first();
        assert forall|k: int| 0 <= k < rest.len() && k != i - 1 implies rest_after[k]
            == #[trigger] rest[k] by {
            assert(rest[k] == list[k + 1]);
        }
        lemma_found_other(rest, rest_after, i - 1, other);
    }
}

proof fn lemma_found_push(list: Seq<(Seq<char>, Pressure)>, model: Seq<char>, other: Seq<char>)
    ensures
        found(list.push((model, Pressure::idle())), other) == found(list, other),
    decreases list.len(),
{
    let after = list.push((model, Pressure::idle()));
    if list.len() > 0 {
        assert(after.drop_first() =~= list.drop_first().push((model, Pressure::idle())));
        lemma_found_push(list.drop_first(), model, other);
    } else {
        assert(after.drop_first() =~= Seq::<(Seq<char>, Pressure)>::empty());
        reveal_with_fuel(found, 2);
    }
}

impl View for Governor {
    type V = Seq<(Seq<char>, Pressure)>;

    closed spec fn view(&self) -> Seq<(Seq<char>, Pressure)> {
        self.models@.map_values(|m: (String, Pressure)| (m.0@, m.1))
    }
}

impl Governor {
    pub open spec fn wf(&self) -> bool {
        forall|i: int| 0 <= i < self@.len() ==> (#[trigger] self@[i]).1.in_range()
    }

    /// The state of a model.
    pub open spec fn state(&self, model: Seq<char>) -> Pressure {
        found(self@, model)
    }

    /// Every model but one is what it was.
    pub open spec fn others_kept(&self, before: &Governor, model: Seq<char>) -> bool {
        forall|other: Seq<char>|
            other != model ==> #[trigger] self.state(other) == before.state(other)
    }

    /// A governor that governs nothing.
    pub fn new() -> (r: Self)
        ensures
            r.wf(),
            forall|model: Seq<char>| #[trigger] r.state(model) == Pressure::idle(),
    {
        Governor { models: Vec::new() }
    }

    /// The place of a model, which is made if it has none.
    fn place(&mut self, model: &str) -> (i: usize)
        requires
            old(self).wf(),
        ensures
            final(self).wf(),
            i < final(self)@.len(),
            final(self)@[i as int].0 == model@,
            final(self)@[i as int].1 == old(self).state(model@),
            forall|k: int| 0 <= k < i ==> (#[trigger] final(self)@[k]).0 != model@,
            forall|other: Seq<char>|
                #[trigger] final(self).state(other) == old(self).state(other),
    {
        let ghost list = self@;
        let mut i: usize = 0;
        while i < self.models.len()
            invariant
                self.wf(),
                *self == *old(self),
                list == self@,
                i <= self.models@.len(),
                forall|k: int| 0 <= k < i ==> (#[trigger] list[k]).0 != model@,
            decreases self.models.len() - i,
        {
            assert(list[i as int].0 == self.models@[i as int].0@);
            if text::same(self.models[i].0.as_str(), model) {
                proof {
                    lemma_found_at(list, model@, i as int);
                }
                return i;
            }
            i += 1;
        }
        let zero = Instant { nanos: 0 };
        let idle = Pressure {
            limit: 0,
            inflight: 0,
            exhausted_at: zero,
            stable_since: zero,
            hold_until: zero,
        };
        self.models.push((model.to_owned(), idle));
        proof {
            assert(self@ =~= list.push((model@, Pressure::idle())));
            lemma_found_at(list, model@, list.len() as int);
            assert forall|other: Seq<char>| #[trigger] self.state(other) == old(self).state(
                other,
            ) by {
                lemma_found_push(list, model@, other);
            }
        }
        i
    }

    /// Put a state in the place of a model.
    fn put(&mut self, i: usize, p: Pressure)
        requires
            old(self).wf(),
            i < old(self)@.len(),
            forall|k: int|
                0 <= k < i ==> (#[trigger] old(self)@[k]).0 != old(self)@[i as int].0,
            p.in_range(),
        ensures
            final(self).wf(),
            final(self).state(old(self)@[i as int].0) == p,
            final(self).others_kept(old(self), old(self)@[i as int].0),
    {
        let ghost list = self@;
        let ghost model = list[i as int].0;
        self.models[i].1 = p;
        proof {
            let after = self@;
            assert(after =~= list.update(i as int, (model, p)));
            lemma_found_at(after, model, i as int);
            assert forall|other: Seq<char>| other != model implies #[trigger] self.state(other)
                == old(self).state(other) by {
                lemma_found_other(list, after, i as int, other);
            }
        }
    }

    /// Ask for a model at `now`.
    pub fn permit(&mut self, model: &str, now: Instant) -> (r: Permit)
        requires
            old(self).wf(),
            now@ <= MAX_SPAN_NANOS,
        ensures
            final(self).wf(),
            final(self).others_kept(old(self), model@),
            r == old(self).state(model@).relaxed(now@).answer(now@),
            final(self).state(model@) == if r is Granted {
                old(self).state(model@).relaxed(now@).entered()
            } else {
                old(self).state(model@).relaxed(now@)
            },
    {
        let i = self.place(model);
        let mut p = self.models[i].1;
        assert(self@[i as int].1.in_range());
        p.relax(now);
        let r = if p.limit == 0 {
            Permit::Granted
        } else if now.nanos < p.hold_until.nanos {
            Permit::Hold(Duration { nanos: p.hold_until.nanos - now.nanos })
        } else if p.inflight < p.limit {
            Permit::Granted
        } else {
            Permit::Hold(Duration { nanos: RECHECK_NANOS })
        };
        if let Permit::Granted = r {
            if p.inflight < usize::MAX {
                p.inflight = p.inflight + 1;
            }
        }
        self.put(i, p);
        r
    }

    /// Hand a permit back.
    pub fn release(&mut self, model: &str)
        requires
            old(self).wf(),
        ensures
            final(self).wf(),
            final(self).others_kept(old(self), model@),
            final(self).state(model@) == old(self).state(model@).left(),
    {
        let i = self.place(model);
        let mut p = self.models[i].1;
        assert(self@[i as int].1.in_range());
        if p.inflight > 0 {
            p.inflight = p.inflight - 1;
        }
        self.put(i, p);
    }

    /// A request found the workers of its model exhausted at `now`. It counts
    /// as in flight still: its permit is handed back by itself.
    pub fn exhausted(&mut self, model: &str, now: Instant)
        requires
            old(self).wf(),
            now@ <= MAX_SPAN_NANOS,
        ensures
            final(self).wf(),
            final(self).others_kept(old(self), model@),
            final(self).state(model@) == old(self).state(model@).throttled(now),
    {
        let i = self.place(model);
        let mut p = self.models[i].1;
        assert(self@[i as int].1.in_range());
        p.limit = if p.inflight / 2 >= 1 {
            p.inflight / 2
        } else {
            1
        };
        p.exhausted_at = now;
        p.stable_since = now;
        p.hold_until = Instant { nanos: now.nanos + DRAIN_NANOS };
        self.put(i, p);
    }

    /// The limit and the requests in flight of a model.
    pub fn gauges(&self, model: &str) -> (r: (usize, usize))
        ensures
            r.0 == self.state(model@).limit,
            r.1 == self.state(model@).inflight,
    {
        let ghost list = self@;
        let mut i: usize = 0;
        while i < self.models.len()
            invariant
                list == self@,
                i <= self.models@.len(),
                forall|k: int| 0 <= k < i ==> (#[trigger] list[k]).0 != model@,
            decreases self.models.len() - i,
        {
            assert(list[i as int].0 == self.models@[i as int].0@);
            if text::same(self.models[i].0.as_str(), model) {
                proof {
                    lemma_found_at(list, model@, i as int);
                }
                return (self.models[i].1.limit, self.models[i].1.inflight);
            }
            i += 1;
        }
        proof {
            lemma_found_at(list, model@, list.len() as int);
        }
        (0, 0)
    }
}

/// A model under a limit never has more requests admitted than the limit, and
/// none at all while it is left alone to drain.
pub proof fn law_limit_is_kept(p: Pressure, now: int)
    requires
        p.relaxed(now).limit > 0,
        p.relaxed(now).answer(now) is Granted,
    ensures
        p.relaxed(now).entered().inflight <= p.relaxed(now).limit,
        now >= p.hold_until@,
{
}

/// A model is never starved: while it is calm, a limit lets at least one request
/// through once the model has drained, and after a long enough calm there is no
/// limit any more.
pub proof fn law_model_is_not_starved(p: Pressure, from: Instant, now: int)
    requires
        from@ <= now,
        p.inflight == 0,
    ensures
        p.throttled(from).limit >= 1,
        now >= from@ + DRAIN_NANOS ==> p.throttled(from).relaxed(now).answer(now) is Granted,
        now >= from@ + DISSOLVE_NANOS ==> p.throttled(from).relaxed(now).limit == 0,
{
    let k = climbs(from@, now);
    assert(k >= 0) by (nonlinear_arith)
        requires
            k == (now - from@) / CLIMB_NANOS as int,
            from@ <= now,
            CLIMB_NANOS > 0,
    ;
}

} // verus!

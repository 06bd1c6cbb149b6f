//! Key pool: one "lane" per upstream key, each with an exact sliding-window
//! rate limiter (N requests per rolling window). The upstream clocks arrivals
//! in a rolling 60 s window, so a sliding window matches it better than a
//! token bucket, which would allow a double-sized burst inside one minute.

use std::collections::VecDeque;

use vstd::prelude::*;

use crate::time::{Clock, Duration, Instant, MAX_SPAN_NANOS};

verus! {

/// The rolling window. The upstream's is 60 s; the extra second is a margin
/// for delivery jitter, since slots are reserved at grant time while the
/// upstream clocks arrivals.
pub const WINDOW_NANOS: u128 = 61_000_000_000;

/// The rolling window as a span.
pub fn window() -> (r: Duration)
    ensures
        r@ == WINDOW_NANOS,
{
    Duration { nanos: WINDOW_NANOS }
}

/// What a lane is, apart from how it is stored.
///
/// `log` is every send the lane ever granted and did not take back, oldest
/// first; `sent` is the end of it that the lane still remembers. `peak` is the
/// largest rate the lane was ever given.
pub struct LaneView {
    pub key: Seq<char>,
    pub rpm: nat,
    pub sent: Seq<int>,
    pub cooldown_until: int,
    pub log: Seq<int>,
    pub peak: nat,
}

/// The lanes in order, and the latest instant the pool has acted at.
pub struct PoolView {
    pub lanes: Seq<LaneView>,
    pub latest: int,
}

/// The send times that a rolling window ending at `now` still covers: the
/// expired ones are dropped from the front.
pub open spec fn live(sent: Seq<int>, now: int) -> Seq<int>
    decreases sent.len(),
{
    if sent.len() > 0 && now - sent[0] >= WINDOW_NANOS {
        live(sent.drop_first(), now)
    } else {
        sent
    }
}

pub open spec fn nondecreasing(s: Seq<int>) -> bool {
    forall|i: int, j: int| 0 <= i <= j < s.len() ==> s[i] <= s[j]
}

/// Any `cap + 1` sends in a row reach over at least a whole window.
pub open spec fn spaced(log: Seq<int>, cap: nat) -> bool {
    forall|i: int, j: int|
        #![trigger log[i], log[j]]
        0 <= i && i + cap <= j < log.len() ==> log[j] - log[i] >= WINDOW_NANOS
}

/// `s` without the last place where `x` stands in it.
pub open spec fn without_last(s: Seq<int>, x: int) -> Seq<int>
    decreases s.len(),
{
    if s.len() == 0 {
        s
    } else if s.last() == x {
        s.drop_last()
    } else {
        without_last(s.drop_last(), x).push(s.last())
    }
}

/// A lane that has sent nothing yet.
pub open spec fn fresh_lane(key: Seq<char>, rpm: nat) -> LaneView {
    LaneView {
        key,
        rpm,
        sent: Seq::empty(),
        cooldown_until: 0,
        log: Seq::empty(),
        peak: rpm,
    }
}

/// The first lane that has `key`, or the number of lanes if none has.
pub open spec fn lane_of(lanes: Seq<LaneView>, key: Seq<char>) -> int
    decreases lanes.len(),
{
    if lanes.len() == 0 || lanes[0].key == key {
        0
    } else {
        1 + lane_of(lanes.drop_first(), key)
    }
}

/// The lane that has `key`: the one at `i`, if it is, or else the first.
pub open spec fn place_of(lanes: Seq<LaneView>, i: int, key: Seq<char>) -> int {
    if 0 <= i < lanes.len() && lanes[i].key == key {
        i
    } else {
        lane_of(lanes, key)
    }
}

/// The lane for `key` in a pool that follows on one with these `lanes`.
pub open spec fn carried(lanes: Seq<LaneView>, key: Seq<char>, rpm: nat) -> LaneView {
    let i = lane_of(lanes, key);
    if i < lanes.len() {
        LaneView {
            rpm,
            peak: if lanes[i].peak < rpm {
                rpm
            } else {
                lanes[i].peak
            },
            ..lanes[i]
        }
    } else {
        fresh_lane(key, rpm)
    }
}

impl LaneView {
    /// What every lane keeps, `latest` being the last instant it was used at.
    pub open spec fn wf(self, latest: int) -> bool {
        let forgotten = self.log.len() - self.sent.len();
        &&& 1 <= self.rpm <= self.peak
        &&& nondecreasing(self.log)
        &&& forall|i: int| 0 <= i < self.log.len() ==> #[trigger] self.log[i] <= latest
        &&& spaced(self.log, self.peak)
        &&& 0 <= forgotten
        &&& self.sent == self.log.skip(forgotten)
        &&& forall|i: int|
            0 <= i < forgotten ==> latest - #[trigger] self.log[i] >= WINDOW_NANOS
        &&& self.cooldown_until <= 2 * MAX_SPAN_NANOS
    }

    /// The sends that count against the lane at `now`.
    pub open spec fn load(self, now: int) -> nat {
        live(self.sent, now).len()
    }

    /// The lane is off the bench and has a free slot.
    pub open spec fn can_take(self, now: int) -> bool {
        self.cooldown_until <= now && self.load(now) < self.rpm
    }

    /// The lane with its expired sends forgotten.
    pub open spec fn pruned(self, now: int) -> LaneView {
        LaneView { sent: live(self.sent, now), ..self }
    }

    /// The lane with a slot taken at `now`.
    pub open spec fn taken(self, now: int) -> LaneView {
        LaneView {
            sent: live(self.sent, now).push(now),
            log: self.log.push(now),
            ..self
        }
    }

    /// The lane with one send at `stamp` taken back, the latest if there are
    /// several, and unchanged if it remembers none.
    pub open spec fn released(self, stamp: int) -> LaneView {
        if self.sent.contains(stamp) {
            LaneView {
                sent: without_last(self.sent, stamp),
                log: without_last(self.log, stamp),
                ..self
            }
        } else {
            self
        }
    }

    /// The lane benched until `until`, if it is not already for longer.
    pub open spec fn benched(self, until: int) -> LaneView {
        LaneView {
            cooldown_until: if self.cooldown_until < until {
                until
            } else {
                self.cooldown_until
            },
            ..self
        }
    }

    /// The earliest instant from `now` on at which the lane has a slot again.
    pub open spec fn ready_at(self, now: int) -> int {
        let s = live(self.sent, now);
        let window_ready = if s.len() < self.rpm {
            now
        } else {
            s[s.len() - self.rpm] + WINDOW_NANOS
        };
        if window_ready >= self.cooldown_until {
            window_ready
        } else {
            self.cooldown_until
        }
    }
}

/// One key's lane.
pub struct Lane {
    key: String,
    rpm: usize,
    /// Times of the sends that may still be inside the window, oldest first.
    sent: VecDeque<Instant>,
    /// The lane is benched until this instant.
    cooldown_until: Instant,
    log: Ghost<Seq<int>>,
    peak: Ghost<nat>,
}

/// The times of a row of instants.
pub open spec fn times(s: Seq<Instant>) -> Seq<int> {
    s.map_values(|t: Instant| t@)
}

impl View for Lane {
    type V = LaneView;

    closed spec fn view(&self) -> LaneView {
        LaneView {
            key: self.key@,
            rpm: self.rpm as nat,
            sent: times(self.sent@),
            cooldown_until: self.cooldown_until@,
            log: self.log@,
            peak: self.peak@,
        }
    }
}

/// Of an ordered row of sends, `live` keeps a tail, and what it drops has
/// expired while what it keeps has not.
proof fn lemma_live(sent: Seq<int>, now: int)
    requires
        nondecreasing(sent),
    ensures
        live(sent, now).len() <= sent.len(),
        live(sent, now) == sent.skip(sent.len() - live(sent, now).len()),
        forall|i: int|
            0 <= i < sent.len() - live(sent, now).len() ==> now - #[trigger] sent[i]
                >= WINDOW_NANOS,
        forall|i: int|
            sent.len() - live(sent, now).len() <= i < sent.len() ==> now - #[trigger] sent[i]
                < WINDOW_NANOS,
    decreases sent.len(),
{
    if sent.len() > 0 && now - sent[0] >= WINDOW_NANOS {
        let rest = sent.drop_first();
        lemma_live(rest, now);
        let dropped = rest.len() - live(rest, now).len();
        assert(live(sent, now) =~= sent.skip(dropped + 1));
        assert forall|i: int| 0 <= i < dropped + 1 implies now - #[trigger] sent[i]
            >= WINDOW_NANOS by {
            if i > 0 {
                assert(rest[i - 1] == sent[i]);
            }
        }
        assert forall|i: int| dropped + 1 <= i < sent.len() implies now - #[trigger] sent[i]
            < WINDOW_NANOS by {
            assert(rest[i - 1] == sent[i]);
        }
    } else {
        assert(sent.skip(0) =~= sent);
        if sent.len() > 0 {
            assert forall|i: int| 0 <= i < sent.len() implies now - #[trigger] sent[i]
                < WINDOW_NANOS by {
                assert(sent[0] <= sent[i]);
            }
        }
    }
}

/// Forgetting expired sends a second time changes nothing.
proof fn lemma_live_twice(sent: Seq<int>, now: int)
    ensures
        live(live(sent, now), now) == live(sent, now),
    decreases sent.len(),
{
    if sent.len() > 0 && now - sent[0] >= WINDOW_NANOS {
        lemma_live_twice(sent.drop_first(), now);
    }
}

/// A lane has a slot at `now` exactly when it need not wait for one.
pub proof fn lemma_ready(l: LaneView, latest: int, now: int)
    requires
        l.wf(latest),
        latest <= now,
    ensures
        l.ready_at(now) <= now <==> l.can_take(now),
        l.ready_at(now) >= now,
{
    lemma_sent_ordered(l, latest);
    lemma_live(l.sent, now);
    let s = live(l.sent, now);
    if s.len() >= l.rpm {
        let gone = l.sent.len() - s.len();
        assert(s[s.len() - l.rpm] == l.sent[gone + (s.len() - l.rpm)]);
        let forgotten = l.log.len() - l.sent.len();
        assert(l.sent[gone + (s.len() - l.rpm)] == l.log[forgotten + gone + (s.len() - l.rpm)]);
    }
}

/// What a lane remembers is in order.
proof fn lemma_sent_ordered(l: LaneView, latest: int)
    requires
        l.wf(latest),
    ensures
        nondecreasing(l.sent),
{
    let forgotten = l.log.len() - l.sent.len();
    assert forall|i: int, j: int| 0 <= i <= j < l.sent.len() implies l.sent[i] <= l.sent[j] by {
        assert(l.sent[i] == l.log[forgotten + i]);
        assert(l.sent[j] == l.log[forgotten + j]);
    }
}

/// Forgetting expired sends keeps a lane well-formed.
proof fn lemma_pruned_wf(l: LaneView, latest: int, now: int)
    requires
        l.wf(latest),
        latest <= now,
    ensures
        l.pruned(now).wf(now),
{
    let forgotten = l.log.len() - l.sent.len();
    lemma_sent_ordered(l, latest);
    lemma_live(l.sent, now);
    let kept = live(l.sent, now);
    let gone = l.log.len() - kept.len();
    assert(kept =~= l.log.skip(gone));
    assert forall|i: int| 0 <= i < gone implies now - #[trigger] l.log[i] >= WINDOW_NANOS by {
        if i >= forgotten {
            assert(l.log[i] == l.sent[i - forgotten]);
        }
    }
}

/// Taking a free slot keeps a lane well-formed; above all, no window ever
/// covers more sends than the lane's rate.
proof fn lemma_taken_wf(l: LaneView, latest: int, now: int)
    requires
        l.wf(latest),
        latest <= now,
        l.can_take(now),
    ensures
        l.taken(now).wf(now),
{
    lemma_pruned_wf(l, latest, now);
    let p = l.pruned(now);
    let t = l.taken(now);
    let gone = p.log.len() - p.sent.len();
    assert(t.sent =~= t.log.skip(gone));
    assert forall|i: int, j: int|
        #![trigger t.log[i], t.log[j]]
        0 <= i && i + l.peak <= j < t.log.len() implies t.log[j] - t.log[i]
        >= WINDOW_NANOS by {
        if j < l.log.len() {
            assert(l.log[j] - l.log[i] >= WINDOW_NANOS);
        } else {
            assert(i < gone);
            assert(p.log[i] == t.log[i]);
        }
    }
}

impl Lane {
    fn new(key: String, rpm: usize) -> (r: Lane)
        requires
            rpm >= 1,
        ensures
            r@ == fresh_lane(key@, rpm as nat),
    {
        let r = Lane {
            key,
            rpm,
            sent: VecDeque::new(),
            cooldown_until: Instant { nanos: 0 },
            log: Ghost(Seq::empty()),
            peak: Ghost(rpm as nat),
        };
        assert(r@.sent =~= Seq::empty());
        r
    }

    /// Forget the sends that have left the window.
    fn prune(&mut self, now: Instant)
        ensures
            final(self)@ == old(self)@.pruned(now@),
    {
        let ghost before = self@;
        loop
            invariant
                live(self@.sent, now@) == live(before.sent, now@),
                self@ == (LaneView { sent: self@.sent, ..before }),
            ensures
                self@.sent == live(before.sent, now@),
                self@ == (LaneView { sent: self@.sent, ..before }),
            decreases self.sent@.len(),
        {
            if self.sent.len() == 0 {
                break;
            }
            let oldest: Instant = self.sent[0];
            assert(self@.sent[0] == oldest@);
            if now.nanos < oldest.nanos || now.nanos - oldest.nanos < WINDOW_NANOS {
                break;
            }
            let ghost row = self.sent@;
            let _ = self.sent.pop_front();
            assert(times(self.sent@) =~= times(row).drop_first());
        }
    }

    /// The earliest instant from `now` on at which the lane has a slot again.
    fn ready_at(&self, now: Instant) -> (r: Instant)
        requires
            self@.wf(now@),
            live(self@.sent, now@) == self@.sent,
            now@ <= MAX_SPAN_NANOS,
        ensures
            r@ == self@.ready_at(now@),
    {
        let n = self.sent.len();
        let mut at: Instant = now;
        if n >= self.rpm {
            let oldest: Instant = self.sent[n - self.rpm];
            proof {
                let forgotten = self@.log.len() - self@.sent.len();
                assert(oldest@ == self@.sent[n - self.rpm]);
                assert(self@.sent[n - self.rpm] == self@.log[forgotten + (n - self.rpm)]);
            }
            at = Instant { nanos: oldest.nanos + WINDOW_NANOS };
        }
        if self.cooldown_until.nanos > at.nanos {
            at = self.cooldown_until;
        }
        at
    }

    /// The same lane, held to another rate.
    fn retuned(&self, rpm: usize) -> (r: Lane)
        ensures
            r@ == (LaneView {
                rpm: rpm as nat,
                peak: if self@.peak < rpm {
                    rpm as nat
                } else {
                    self@.peak
                },
                ..self@
            }),
    {
        let mut sent: VecDeque<Instant> = VecDeque::new();
        let mut i: usize = 0;
        while i < self.sent.len()
            invariant
                i <= self.sent@.len(),
                sent@ == self.sent@.take(i as int),
            decreases self.sent.len() - i,
        {
            sent.push_back(self.sent[i]);
            assert(self.sent@.take(i as int + 1) =~= self.sent@.take(i as int).push(
                self.sent@[i as int],
            ));
            i += 1;
        }
        assert(self.sent@.take(i as int) =~= self.sent@);
        Lane {
            key: self.key.clone(),
            rpm,
            sent,
            cooldown_until: self.cooldown_until,
            log: self.log,
            peak: Ghost(
                if self.peak@ < rpm {
                    rpm as nat
                } else {
                    self.peak@
                },
            ),
        }
    }

    /// Take back a send at `stamp`.
    fn forget(&mut self, stamp: Instant)
        ensures
            final(self)@ == old(self)@.released(stamp@),
    {
        let ghost before = self@;
        let mut i: usize = self.sent.len();
        while i > 0
            invariant
                self@ == before,
                before == old(self)@,
                i <= self.sent@.len(),
                forall|j: int| i <= j < self.sent@.len() ==> before.sent[j] != stamp@,
            decreases i,
        {
            i -= 1;
            assert(before.sent[i as int] == self.sent@[i as int]@);
            if self.sent[i].nanos == stamp.nanos {
                let ghost row = self.sent@;
                let _ = self.sent.remove(i);
                self.log = Ghost(without_last(self.log@, stamp@));
                proof {
                    assert(before.sent.contains(stamp@));
                    lemma_without_last(before.sent, stamp@, i as int);
                    assert(times(self.sent@) =~= times(row).remove(i as int));
                }
                return;
            }
        }
        assert(!before.sent.contains(stamp@));
    }

    /// Stay benched until `until` at least.
    fn bench(&mut self, until: Instant)
        ensures
            final(self)@ == old(self)@.benched(until@),
    {
        if self.cooldown_until.nanos < until.nanos {
            self.cooldown_until = until;
        }
    }

    /// Record a send at `now`.
    fn push(&mut self, now: Instant)
        ensures
            final(self)@ == (LaneView {
                sent: old(self)@.sent.push(now@),
                log: old(self)@.log.push(now@),
                ..old(self)@
            }),
    {
        let ghost row = self.sent@;
        self.sent.push_back(now);
        self.log = Ghost(self.log@.push(now@));
        assert(times(self.sent@) =~= times(row).push(now@));
    }
}

proof fn lemma_fresh_wf(key: Seq<char>, rpm: nat)
    requires
        rpm >= 1,
    ensures
        forall|now: int| fresh_lane(key, rpm).wf(now),
{
    let l = fresh_lane(key, rpm);
    assert(l.sent =~= l.log.skip(0));
}

proof fn lemma_lane_of(lanes: Seq<LaneView>, key: Seq<char>)
    ensures
        0 <= lane_of(lanes, key) <= lanes.len(),
        lane_of(lanes, key) < lanes.len() ==> lanes[lane_of(lanes, key)].key == key,
        forall|j: int| 0 <= j < lane_of(lanes, key) ==> (#[trigger] lanes[j]).key != key,
    decreases lanes.len(),
{
    if lanes.len() > 0 && lanes[0].key != key {
        let rest = lanes.drop_first();
        lemma_lane_of(rest, key);
        assert forall|j: int| 0 <= j < lane_of(lanes, key) implies (#[trigger] lanes[j]).key
            != key by {
            if j > 0 {
                assert(rest[j - 1] == lanes[j]);
            }
        }
    }
}

/// A lane carried over to another pool stays well-formed.
proof fn lemma_carried_wf(p: PoolView, key: Seq<char>, rpm: nat)
    requires
        p.wf(),
        rpm >= 1,
    ensures
        carried(p.lanes, key, rpm).wf(p.latest),
{
    lemma_lane_of(p.lanes, key);
    lemma_fresh_wf(key, rpm);
    let i = lane_of(p.lanes, key);
    if i < p.lanes.len() {
        let l = p.lanes[i];
        let c = carried(p.lanes, key, rpm);
        assert(l.wf(p.latest));
        assert forall|i: int, j: int|
            #![trigger c.log[i], c.log[j]]
            0 <= i && i + c.peak <= j < c.log.len() implies c.log[j] - c.log[i]
            >= WINDOW_NANOS by {
            assert(i + l.peak <= j);
            assert(l.log[j] - l.log[i] >= WINDOW_NANOS);
        }
    }
}

/// `without_last` drops the element at `p`, if `x` stands there and nowhere
/// after.
proof fn lemma_without_last(s: Seq<int>, x: int, p: int)
    requires
        0 <= p < s.len(),
        s[p] == x,
        forall|q: int| p < q < s.len() ==> s[q] != x,
    ensures
        without_last(s, x) == s.remove(p),
    decreases s.len(),
{
    if s.last() == x {
        assert(s.remove(p) =~= s.drop_last());
    } else {
        lemma_without_last(s.drop_last(), x, p);
        assert(s.remove(p) =~= s.drop_last().remove(p).push(s.last()));
    }
}

/// The last place where `x` stands.
proof fn lemma_last_place(s: Seq<int>, x: int) -> (p: int)
    requires
        s.contains(x),
    ensures
        0 <= p < s.len(),
        s[p] == x,
        forall|q: int| p < q < s.len() ==> s[q] != x,
    decreases s.len(),
{
    if s.last() == x {
        s.len() - 1
    } else {
        let w = choose|w: int| 0 <= w < s.len() && s[w] == x;
        assert(s.drop_last()[w] == x);
        let p = lemma_last_place(s.drop_last(), x);
        assert forall|q: int| p < q < s.len() implies s[q] != x by {
            if q < s.len() - 1 {
                assert(s.drop_last()[q] == s[q]);
            }
        }
        p
    }
}

/// Taking a send back keeps a lane well-formed.
proof fn lemma_released_wf(l: LaneView, latest: int, stamp: int)
    requires
        l.wf(latest),
    ensures
        l.released(stamp).wf(latest),
{
    if l.sent.contains(stamp) {
        let forgotten = l.log.len() - l.sent.len();
        let p = lemma_last_place(l.sent, stamp);
        lemma_without_last(l.sent, stamp, p);
        assert forall|q: int| forgotten + p < q < l.log.len() implies l.log[q] != stamp by {
            assert(l.log[q] == l.sent[q - forgotten]);
        }
        assert(l.log[forgotten + p] == l.sent[p]);
        lemma_without_last(l.log, stamp, forgotten + p);
        let r = l.released(stamp);
        let k = forgotten + p;
        assert(r.sent =~= r.log.skip(forgotten));
        assert forall|i: int, j: int| 0 <= i <= j < r.log.len() implies r.log[i] <= r.log[j] by {
            let i0 = if i < k { i } else { i + 1 };
            let j0 = if j < k { j } else { j + 1 };
            assert(r.log[i] == l.log[i0] && r.log[j] == l.log[j0]);
        }
        assert forall|i: int, j: int|
            #![trigger r.log[i], r.log[j]]
            0 <= i && i + r.peak <= j < r.log.len() implies r.log[j] - r.log[i]
            >= WINDOW_NANOS by {
            let i0 = if i < k { i } else { i + 1 };
            let j0 = if j < k { j } else { j + 1 };
            assert(r.log[i] == l.log[i0] && r.log[j] == l.log[j0]);
            assert(i0 + l.peak <= j0);
        }
        assert forall|i: int| 0 <= i < r.log.len() implies #[trigger] r.log[i] <= latest by {
            let i0 = if i < k { i } else { i + 1 };
            assert(r.log[i] == l.log[i0]);
        }
    }
}

/// A well-formed pool stays so as time goes on, lane by lane, where each lane
/// is left alone, pruned, or given a send that it had room for.
proof fn lemma_lanes_wf(before: PoolView, lanes: Seq<LaneView>, now: int)
    requires
        before.wf(),
        before.latest <= now <= MAX_SPAN_NANOS,
        lanes.len() == before.lanes.len(),
        forall|i: int|
            #![trigger lanes[i]]
            0 <= i < lanes.len() ==> {
                ||| lanes[i] == before.lanes[i]
                ||| lanes[i] == before.lanes[i].pruned(now)
                ||| before.lanes[i].can_take(now) && lanes[i] == before.lanes[i].taken(now)
            },
    ensures
        (PoolView { lanes, latest: now }).wf(),
{
    assert forall|i: int| 0 <= i < lanes.len() implies (#[trigger] lanes[i]).wf(now) by {
        let l = before.lanes[i];
        assert(l.wf(before.latest));
        lemma_pruned_wf(l, before.latest, now);
        if l.can_take(now) {
            lemma_taken_wf(l, before.latest, now);
        }
        assert(l.wf(now));
    }
}

/// One upstream key each, in order.
pub struct Pool {
    lanes: Vec<Lane>,
    clock: Clock,
    latest: Instant,
}

/// The answer to a request for a slot.
pub enum Reservation {
    /// Slot reserved; send the request with this key. `stamp` identifies the
    /// reservation so an unused slot can be returned via [`Pool::release`].
    Ready {
        lane: usize,
        key: String,
        stamp: Instant,
        /// True when the caller's preferred lane won (conversation affinity hit).
        sticky: bool,
    },
    /// All lanes busy; soonest a slot frees up.
    Wait(Duration),
}

impl View for Pool {
    type V = PoolView;

    closed spec fn view(&self) -> PoolView {
        PoolView {
            lanes: Seq::new(self.lanes@.len(), |i: int| self.lanes@[i]@),
            latest: self.latest@,
        }
    }
}

impl PoolView {
    pub open spec fn wf(self) -> bool {
        &&& 0 <= self.latest <= MAX_SPAN_NANOS
        &&& forall|i: int| 0 <= i < self.lanes.len() ==> (#[trigger] self.lanes[i]).wf(self.latest)
    }

    /// Every lane with its expired sends forgotten.
    pub open spec fn pruned(self, now: int) -> Seq<LaneView> {
        Seq::new(self.lanes.len(), |i: int| self.lanes[i].pruned(now))
    }

    /// Lane `i` is free and, of the free lanes, carries the least load; among
    /// equals it is the first.
    pub open spec fn least_loaded(self, now: int, i: int) -> bool {
        &&& 0 <= i < self.lanes.len()
        &&& self.lanes[i].can_take(now)
        &&& forall|j: int|
            0 <= j < self.lanes.len() && (#[trigger] self.lanes[j]).can_take(now) ==> {
                ||| self.lanes[i].load(now) < self.lanes[j].load(now)
                ||| self.lanes[i].load(now) == self.lanes[j].load(now) && i <= j
            }
    }

    /// No lane has a free slot.
    pub open spec fn saturated(self, now: int) -> bool {
        forall|i: int| 0 <= i < self.lanes.len() ==> !(#[trigger] self.lanes[i]).can_take(now)
    }

    /// What [`Pool::reserve_at`] does: the preferred lane wins while it has a
    /// slot; otherwise the least-loaded free lane does; otherwise the caller
    /// is told how long to wait.
    pub open spec fn reserved(
        self,
        after: PoolView,
        now: int,
        prefer: Option<usize>,
        r: Reservation,
    ) -> bool {
        &&& after.latest == now
        &&& match prefer {
            Some(p) if self.lanes[p as int].can_take(now) => {
                &&& after.lanes == self.lanes.update(p as int, self.lanes[p as int].taken(now))
                &&& r matches Reservation::Ready { lane, key, stamp, sticky }
                &&& lane == p
                &&& key@ == self.lanes[p as int].key
                &&& stamp@ == now
                &&& sticky
            },
            _ => match r {
                Reservation::Ready { lane, key, stamp, sticky } => {
                    &&& self.least_loaded(now, lane as int)
                    &&& after.lanes == self.pruned(now).update(
                        lane as int,
                        self.lanes[lane as int].taken(now),
                    )
                    &&& key@ == self.lanes[lane as int].key
                    &&& stamp@ == now
                    &&& !sticky
                },
                Reservation::Wait(wait) => {
                    &&& self.saturated(now)
                    &&& after.lanes == self.pruned(now)
                    &&& wait@ == soonest(self.lanes, now)
                },
            },
        }
    }
}

/// How long until the first of the lanes has a slot again. Where there are no
/// lanes, there is a whole window to wait before anybody looks again.
pub open spec fn soonest(lanes: Seq<LaneView>, now: int) -> int
    decreases lanes.len(),
{
    if lanes.len() == 0 {
        WINDOW_NANOS as int
    } else if lanes.len() == 1 {
        lanes[0].ready_at(now) - now
    } else {
        crate::time::min_span(soonest(lanes.drop_last(), now), lanes.last().ready_at(now) - now)
    }
}

impl Pool {
    pub fn len(&self) -> (r: usize)
        ensures
            r == self@.lanes.len(),
    {
        self.lanes.len()
    }

    /// Take a slot on lane `i` if it has capacity at `now`. Reserving records
    /// the send time immediately, so callers can't oversubscribe a lane.
    fn try_take(&mut self, i: usize, now: Instant, sticky: bool) -> (r: Option<Reservation>)
        requires
            old(self)@.wf(),
            i < old(self)@.lanes.len(),
            old(self)@.latest <= now@ <= MAX_SPAN_NANOS,
        ensures
            final(self)@.latest == now@,
            final(self)@.wf(),
            match r {
                Some(Reservation::Ready { lane, key, stamp, sticky: st }) => {
                    &&& old(self)@.lanes[i as int].can_take(now@)
                    &&& final(self)@.lanes == old(self)@.lanes.update(
                        i as int,
                        old(self)@.lanes[i as int].taken(now@),
                    )
                    &&& lane == i
                    &&& key@ == old(self)@.lanes[i as int].key
                    &&& stamp@ == now@
                    &&& st == sticky
                },
                Some(Reservation::Wait(_)) => false,
                None => {
                    &&& !old(self)@.lanes[i as int].can_take(now@)
                    &&& final(self)@.lanes == old(self)@.lanes || final(self)@.lanes
                        == old(self)@.lanes.update(
                        i as int,
                        old(self)@.lanes[i as int].pruned(now@),
                    )
                },
            },
    {
        let ghost before = self@;
        self.latest = now;
        proof {
            assert(self@.lanes =~= before.lanes);
            lemma_lanes_wf(before, before.lanes, now@);
        }
        if self.lanes[i].cooldown_until.nanos > now.nanos {
            return None;
        }
        self.lanes[i].prune(now);
        proof {
            let lanes = before.lanes.update(i as int, before.lanes[i as int].pruned(now@));
            assert(self@.lanes =~= lanes);
            lemma_lanes_wf(before, lanes, now@);
        }
        if self.lanes[i].sent.len() < self.lanes[i].rpm {
            self.lanes[i].push(now);
            proof {
                let lanes = before.lanes.update(i as int, before.lanes[i as int].taken(now@));
                assert(self@.lanes =~= lanes);
                lemma_lanes_wf(before, lanes, now@);
            }
            let key = self.lanes[i].key.clone();
            Some(Reservation::Ready { lane: i, key, stamp: now, sticky })
        } else {
            None
        }
    }

    /// Try to reserve a request slot at `now`. `prefer` pins a conversation to
    /// one lane while it has capacity; otherwise the least-loaded free lane
    /// wins, spreading requests evenly across keys.
    pub fn reserve_at(&mut self, now: Instant, prefer: Option<usize>) -> (r: Reservation)
        requires
            old(self)@.wf(),
            old(self)@.latest <= now@ <= MAX_SPAN_NANOS,
            prefer matches Some(p) ==> p < old(self)@.lanes.len(),
        ensures
            final(self)@.wf(),
            old(self)@.reserved(final(self)@, now@, prefer, r),
    {
        let ghost before = self@;
        if let Some(p) = prefer {
            if let Some(r) = self.try_take(p, now, true) {
                return r;
            }
        }
        let ghost start = self@.lanes;
        self.latest = now;
        let mut best: Option<usize> = None;
        let mut best_load: usize = 0;
        let mut best_wait: u128 = WINDOW_NANOS;
        let mut i: usize = 0;
        proof {
            assert forall|j: int| 0 <= j < start.len() implies (#[trigger] start[j]).pruned(now@)
                == before.lanes[j].pruned(now@) by {
                lemma_live_twice(before.lanes[j].sent, now@);
            }
            assert(self@.lanes =~= start);
        }
        while i < self.lanes.len()
            invariant
                before.wf(),
                before.latest <= now@ <= MAX_SPAN_NANOS,
                start.len() == before.lanes.len(),
                forall|j: int|
                    0 <= j < start.len() ==> (#[trigger] start[j]).pruned(now@)
                        == before.lanes[j].pruned(now@),
                self@.latest == now@,
                self@.lanes.len() == start.len(),
                i <= self@.lanes.len(),
                forall|j: int|
                    0 <= j < i ==> #[trigger] self@.lanes[j] == before.lanes[j].pruned(now@),
                forall|j: int| i <= j < start.len() ==> #[trigger] self@.lanes[j] == start[j],
                match best {
                    Some(b) => {
                        &&& b < i
                        &&& before.lanes[b as int].can_take(now@)
                        &&& best_load == before.lanes[b as int].load(now@)
                        &&& forall|j: int|
                            0 <= j < i && (#[trigger] before.lanes[j]).can_take(now@) ==> {
                                ||| best_load < before.lanes[j].load(now@)
                                ||| best_load == before.lanes[j].load(now@) && b <= j
                            }
                    },
                    None => {
                        &&& forall|j: int|
                            0 <= j < i ==> !(#[trigger] before.lanes[j]).can_take(now@)
                        &&& best_wait == soonest(before.lanes.take(i as int), now@)
                    },
                },
            decreases self.lanes.len() - i,
        {
            let ghost l = before.lanes[i as int];
            let ghost mid = self@.lanes;
            assert(mid[i as int] == start[i as int]);
            self.lanes[i].prune(now);
            proof {
                assert(self@.lanes =~= mid.update(i as int, start[i as int].pruned(now@)));
                lemma_pruned_wf(l, before.latest, now@);
                lemma_live_twice(l.sent, now@);
                lemma_ready(l, before.latest, now@);
                assert(before.lanes.take(i as int + 1).drop_last() =~= before.lanes.take(
                    i as int,
                ));
            }
            let ready_at = self.lanes[i].ready_at(now);
            if ready_at.nanos <= now.nanos {
                let load = self.lanes[i].sent.len();
                if best.is_none() || load < best_load {
                    best = Some(i);
                    best_load = load;
                }
            } else if best.is_none() {
                let wait = ready_at.nanos - now.nanos;
                if i == 0 || wait < best_wait {
                    best_wait = wait;
                }
            }
            i += 1;
        }
        proof {
            assert(self@.lanes =~= before.pruned(now@));
            assert(before.lanes.take(before.lanes.len() as int) =~= before.lanes);
        }
        match best {
            Some(b) => {
                let ghost mid = self@.lanes;
                self.lanes[b].push(now);
                let key = self.lanes[b].key.clone();
                proof {
                    let lanes = before.pruned(now@).update(
                        b as int,
                        before.lanes[b as int].taken(now@),
                    );
                    assert(mid[b as int] == before.lanes[b as int].pruned(now@));
                    assert(self@.lanes[b as int] == before.lanes[b as int].taken(now@));
                    assert(self@.lanes =~= lanes);
                    lemma_lanes_wf(before, lanes, now@);
                }
                Reservation::Ready { lane: b, key, stamp: now, sticky: false }
            },
            None => {
                proof {
                    lemma_lanes_wf(before, before.pruned(now@), now@);
                }
                Reservation::Wait(Duration { nanos: best_wait })
            },
        }
    }

    /// A pool of one lane per key, each held to `rpm` sends per window.
    pub fn new(keys: Vec<String>, rpm: usize) -> (r: Self)
        requires
            rpm >= 1,
        ensures
            r@.wf(),
            r@.latest == 0,
            r@.lanes == Seq::new(keys@.len(), |i: int| fresh_lane(keys@[i]@, rpm as nat)),
    {
        let mut lanes: Vec<Lane> = Vec::new();
        let mut i: usize = 0;
        while i < keys.len()
            invariant
                rpm >= 1,
                i <= keys.len(),
                lanes.len() == i,
                forall|j: int|
                    #![trigger lanes@[j]]
                    0 <= j < i ==> lanes@[j]@ == fresh_lane(keys@[j]@, rpm as nat),
            decreases keys.len() - i,
        {
            lanes.push(Lane::new(keys[i].clone(), rpm));
            i += 1;
        }
        let r = Pool { lanes, clock: Clock::start(), latest: Instant { nanos: 0 } };
        proof {
            assert(r@.lanes =~= Seq::new(keys@.len(), |i: int| fresh_lane(keys@[i]@, rpm as nat)));
            assert forall|i: int| 0 <= i < r@.lanes.len() implies (#[trigger] r@.lanes[i]).wf(
                0,
            ) by {
                lemma_fresh_wf(keys@[i]@, rpm as nat);
            }
        }
        r
    }

    /// The present, on the pool's clock, and never before an instant that the
    /// pool has acted at.
    pub fn now(&self) -> (r: Instant)
        requires
            self@.wf(),
        ensures
            self@.latest <= r@ <= MAX_SPAN_NANOS,
    {
        let t = self.clock.now();
        if t.nanos < self.latest.nanos {
            self.latest
        } else {
            t
        }
    }

    /// Try to reserve a request slot at the present instant.
    pub fn reserve(&mut self, prefer: Option<usize>) -> (r: Reservation)
        requires
            old(self)@.wf(),
            prefer matches Some(p) ==> p < old(self)@.lanes.len(),
        ensures
            final(self)@.wf(),
            old(self)@.latest <= final(self)@.latest <= MAX_SPAN_NANOS,
            old(self)@.reserved(final(self)@, final(self)@.latest, prefer, r),
    {
        let now = self.now();
        self.reserve_at(now, prefer)
    }

    /// Return a reserved slot that was never spent on an upstream request
    /// (for one, the client hung up while queued).
    pub fn release(&mut self, lane: usize, stamp: Instant)
        requires
            old(self)@.wf(),
            lane < old(self)@.lanes.len(),
        ensures
            final(self)@.wf(),
            final(self)@ == (PoolView {
                lanes: old(self)@.lanes.update(
                    lane as int,
                    old(self)@.lanes[lane as int].released(stamp@),
                ),
                ..old(self)@
            }),
    {
        let ghost before = self@;
        self.lanes[lane].forget(stamp);
        proof {
            let l = before.lanes[lane as int];
            assert(l.wf(before.latest));
            lemma_released_wf(l, before.latest, stamp@);
            assert(self@.lanes =~= before.lanes.update(lane as int, l.released(stamp@)));
        }
    }

    /// Bench a lane from `now` on, after the upstream told us to back off. A
    /// longer bench it already serves stands.
    pub fn penalize_at(&mut self, lane: usize, now: Instant, backoff: Duration)
        requires
            old(self)@.wf(),
            lane < old(self)@.lanes.len(),
            now@ <= MAX_SPAN_NANOS,
            backoff.in_range(),
        ensures
            final(self)@.wf(),
            final(self)@ == (PoolView {
                lanes: old(self)@.lanes.update(
                    lane as int,
                    old(self)@.lanes[lane as int].benched(now@ + backoff@),
                ),
                ..old(self)@
            }),
    {
        let ghost before = self@;
        let until = Instant { nanos: now.nanos + backoff.nanos };
        self.lanes[lane].bench(until);
        proof {
            let l = before.lanes[lane as int];
            assert(l.wf(before.latest));
            assert(l.benched(until@).wf(before.latest));
            assert(self@.lanes =~= before.lanes.update(lane as int, l.benched(until@)));
        }
    }

    /// Bench a lane from the present instant on.
    pub fn penalize(&mut self, lane: usize, backoff: Duration)
        requires
            old(self)@.wf(),
            lane < old(self)@.lanes.len(),
            backoff.in_range(),
        ensures
            final(self)@.wf(),
            exists|now: int|
                old(self)@.latest <= now <= MAX_SPAN_NANOS && final(self)@ == (PoolView {
                    lanes: old(self)@.lanes.update(
                        lane as int,
                        #[trigger] old(self)@.lanes[lane as int].benched(now + backoff@),
                    ),
                    ..old(self)@
                }),
    {
        let now = self.now();
        self.penalize_at(lane, now, backoff);
    }

    /// The pool for another list of keys and rates. A key that stays keeps its
    /// sends and its bench, so it cannot be spent twice across the change.
    pub fn rebuild(&self, keys: &Vec<(String, usize)>) -> (r: Pool)
        requires
            self@.wf(),
            forall|i: int| 0 <= i < keys@.len() ==> (#[trigger] keys@[i]).1 >= 1,
        ensures
            r@.wf(),
            r@.latest == self@.latest,
            r@.lanes == Seq::new(
                keys@.len(),
                |i: int| carried(self@.lanes, keys@[i].0@, keys@[i].1 as nat),
            ),
    {
        let mut lanes: Vec<Lane> = Vec::new();
        let mut i: usize = 0;
        while i < keys.len()
            invariant
                forall|j: int| 0 <= j < keys@.len() ==> (#[trigger] keys@[j]).1 >= 1,
                i <= keys.len(),
                lanes.len() == i,
                forall|j: int|
                    #![trigger lanes@[j]]
                    0 <= j < i ==> lanes@[j]@ == carried(
                        self@.lanes,
                        keys@[j].0@,
                        keys@[j].1 as nat,
                    ),
            decreases keys.len() - i,
        {
            let rpm = keys[i].1;
            let lane = match self.find(&keys[i].0) {
                Some(at) => self.lanes[at].retuned(rpm),
                None => Lane::new(keys[i].0.clone(), rpm),
            };
            lanes.push(lane);
            i += 1;
        }
        let r = Pool { lanes, clock: self.clock, latest: self.latest };
        proof {
            assert(r@.lanes =~= Seq::new(
                keys@.len(),
                |i: int| carried(self@.lanes, keys@[i].0@, keys@[i].1 as nat),
            ));
            assert forall|i: int| 0 <= i < r@.lanes.len() implies (#[trigger] r@.lanes[i]).wf(
                self@.latest,
            ) by {
                lemma_carried_wf(self@, keys@[i].0@, keys@[i].1 as nat);
            }
        }
        r
    }

    /// Where the lane of a key is now that once was at `lane`: there still, or
    /// wherever the key is first found.
    pub fn locate(&self, lane: usize, key: &String) -> (r: Option<usize>)
        ensures
            match r {
                Some(i) => i < self@.lanes.len() && i == place_of(self@.lanes, lane as int, key@),
                None => place_of(self@.lanes, lane as int, key@) == self@.lanes.len(),
            },
    {
        if lane < self.lanes.len() {
            assert(self@.lanes[lane as int].key == self.lanes@[lane as int].key@);
            if self.lanes[lane].key == *key {
                return Some(lane);
            }
        }
        self.find(key)
    }

    /// The first lane of that key.
    fn find(&self, key: &String) -> (r: Option<usize>)
        ensures
            match r {
                Some(i) => i < self@.lanes.len() && i == lane_of(self@.lanes, key@),
                None => lane_of(self@.lanes, key@) == self@.lanes.len(),
            },
    {
        let mut i: usize = 0;
        proof {
            lemma_lane_of(self@.lanes, key@);
        }
        while i < self.lanes.len()
            invariant
                i <= self@.lanes.len(),
                i <= lane_of(self@.lanes, key@) <= self@.lanes.len(),
                lane_of(self@.lanes, key@) < self@.lanes.len() ==> self@.lanes[lane_of(
                    self@.lanes,
                    key@,
                )].key == key@,
                forall|j: int|
                    0 <= j < lane_of(self@.lanes, key@) ==> (#[trigger] self@.lanes[j]).key != key@,
            decreases self.lanes.len() - i,
        {
            assert(self@.lanes[i as int].key == self.lanes@[i as int].key@);
            if self.lanes[i].key == *key {
                return Some(i);
            }
            i += 1;
        }
        None
    }
}

/// How many of the sends fall into the span from `from` up to, but not
/// including, `to`.
pub open spec fn sends_within(log: Seq<int>, from: int, to: int) -> nat
    decreases log.len(),
{
    if log.len() == 0 {
        0
    } else {
        sends_within(log.drop_last(), from, to) + if from <= log.last() < to {
            1nat
        } else {
            0nat
        }
    }
}

/// Sends that all lie before the span do not count, and the others count once
/// each at most.
proof fn lemma_sends_within_bound(log: Seq<int>, from: int, to: int, early: int)
    requires
        0 <= early <= log.len(),
        forall|i: int| 0 <= i < early ==> #[trigger] log[i] < from,
    ensures
        sends_within(log, from, to) <= log.len() - early,
    decreases log.len(),
{
    if log.len() > 0 {
        let front = log.drop_last();
        if early == log.len() {
            assert(log[early - 1] < from);
            lemma_sends_within_bound(front, from, to, early - 1);
        } else {
            lemma_sends_within_bound(front, from, to, early);
        }
    }
}

proof fn lemma_spaced_bound(log: Seq<int>, cap: nat, from: int)
    requires
        spaced(log, cap),
        cap >= 1,
    ensures
        sends_within(log, from, from + WINDOW_NANOS) <= cap,
    decreases log.len(),
{
    if log.len() > 0 {
        let to = from + WINDOW_NANOS;
        let front = log.drop_last();
        if from <= log.last() < to {
            let last = log.len() - 1;
            let early: int = if last >= cap {
                last - cap + 1
            } else {
                0
            };
            assert forall|i: int| 0 <= i < early implies #[trigger] log[i] < from by {
                assert(log[last] - log[i] >= WINDOW_NANOS);
            }
            lemma_sends_within_bound(log, from, to, early);
        } else {
            assert(spaced(front, cap)) by {
                assert forall|i: int, j: int|
                    #![trigger front[i], front[j]]
                    0 <= i && i + cap <= j < front.len() implies front[j] - front[i]
                    >= WINDOW_NANOS by {
                    assert(log[j] - log[i] >= WINDOW_NANOS);
                }
            }
            lemma_spaced_bound(front, cap, from);
        }
    }
}

/// No key is ever used faster than its rate: of all the sends a lane has
/// granted and not taken back, no rolling window, wherever it starts, covers
/// more than the largest rate the lane was given.
pub proof fn law_no_key_exceeds_its_rate(pool: PoolView, lane: int, from: int)
    requires
        pool.wf(),
        0 <= lane < pool.lanes.len(),
    ensures
        sends_within(pool.lanes[lane].log, from, from + WINDOW_NANOS) <= pool.lanes[lane].peak,
{
    let l = pool.lanes[lane];
    assert(l.wf(pool.latest));
    lemma_spaced_bound(l.log, l.peak, from);
}

/// A slot that is handed back leaves nothing behind: a reservation followed by
/// the release of its stamp gives the lane its window back as it was.
pub proof fn law_release_undoes_reserve(
    before: PoolView,
    after: PoolView,
    now: int,
    prefer: Option<usize>,
    lane: usize,
    key: String,
    stamp: Instant,
    sticky: bool,
)
    requires
        before.wf(),
        before.latest <= now,
        prefer matches Some(p) ==> p < before.lanes.len(),
        before.reserved(after, now, prefer, Reservation::Ready { lane, key, stamp, sticky }),
    ensures
        after.lanes[lane as int].released(stamp@) == before.lanes[lane as int].pruned(now),
{
    let l = before.lanes[lane as int];
    let t = l.taken(now);
    assert(after.lanes[lane as int] == t);
    assert(t.sent.last() == now);
    assert(t.sent.contains(now));
    assert(t.sent.drop_last() =~= live(l.sent, now));
    assert(t.log.drop_last() =~= l.log);
}

/// At any later time, a lane has a slot exactly from the instant on that it
/// was said to be ready at.
proof fn lemma_ready_from(l: LaneView, latest: int, now: int, t: int)
    requires
        l.wf(latest),
        latest <= now <= t,
    ensures
        l.pruned(now).can_take(t) <==> l.ready_at(now) <= t,
{
    lemma_sent_ordered(l, latest);
    lemma_live(l.sent, now);
    lemma_pruned_wf(l, latest, now);
    lemma_sent_ordered(l.pruned(now), now);
    let s = live(l.sent, now);
    lemma_live(s, t);
    if s.len() >= l.rpm {
        let mark = s.len() - l.rpm;
        let kept = live(s, t).len();
        if kept < l.rpm {
            assert(t - s[mark] >= WINDOW_NANOS);
        } else {
            assert(t - s[mark] < WINDOW_NANOS);
        }
    }
}

/// `soonest` is reached by a lane, and no lane is below it.
pub proof fn lemma_soonest(lanes: Seq<LaneView>, now: int)
    requires
        lanes.len() > 0,
    ensures
        forall|i: int|
            0 <= i < lanes.len() ==> soonest(lanes, now) <= (#[trigger] lanes[i]).ready_at(now)
                - now,
        exists|i: int|
            0 <= i < lanes.len() && (#[trigger] lanes[i]).ready_at(now) - now == soonest(
                lanes,
                now,
            ),
    decreases lanes.len(),
{
    if lanes.len() == 1 {
        assert(lanes[0].ready_at(now) - now == soonest(lanes, now));
    } else {
        let front = lanes.drop_last();
        lemma_soonest(front, now);
        assert forall|i: int| 0 <= i < lanes.len() implies soonest(lanes, now) <= (
        #[trigger] lanes[i]).ready_at(now) - now by {
            if i < front.len() {
                assert(front[i] == lanes[i]);
            }
        }
        if soonest(lanes, now) == soonest(front, now) {
            let i = choose|i: int|
                0 <= i < front.len() && (#[trigger] front[i]).ready_at(now) - now == soonest(
                    front,
                    now,
                );
            assert(lanes[i] == front[i]);
        } else {
            assert(lanes[lanes.len() - 1].ready_at(now) - now == soonest(lanes, now));
        }
    }
}

/// Where no lane is benched, nobody is told to wait longer than a window.
pub proof fn law_only_benches_outlast_a_window(pool: PoolView, now: int)
    requires
        pool.wf(),
        pool.latest <= now,
        forall|i: int|
            0 <= i < pool.lanes.len() ==> (#[trigger] pool.lanes[i]).cooldown_until <= now,
    ensures
        soonest(pool.lanes, now) <= WINDOW_NANOS,
{
    if pool.lanes.len() > 0 {
        let l = pool.lanes[0];
        assert(l.wf(pool.latest));
        lemma_soonest(pool.lanes, now);
        lemma_pruned_wf(l, pool.latest, now);
        lemma_sent_ordered(l.pruned(now), now);
    }
}

/// The wait a caller is told is exact: left alone, no lane has a slot any
/// earlier, and one has a slot right then.
pub proof fn law_wait_is_exact(
    before: PoolView,
    after: PoolView,
    now: int,
    prefer: Option<usize>,
    wait: Duration,
)
    requires
        before.wf(),
        before.lanes.len() > 0,
        before.latest <= now,
        prefer matches Some(p) ==> p < before.lanes.len(),
        before.reserved(after, now, prefer, Reservation::Wait(wait)),
    ensures
        forall|t: int| now <= t < now + wait@ ==> #[trigger] after.saturated(t),
        !after.saturated(now + wait@),
{
    lemma_soonest(before.lanes, now);
    assert forall|t: int| now <= t < now + wait@ implies #[trigger] after.saturated(t) by {
        assert forall|i: int| 0 <= i < after.lanes.len() implies !(
        #[trigger] after.lanes[i]).can_take(t) by {
            assert(before.lanes[i].wf(before.latest));
            lemma_ready_from(before.lanes[i], before.latest, now, t);
        }
    }
    let i = choose|i: int|
        0 <= i < before.lanes.len() && (#[trigger] before.lanes[i]).ready_at(now) - now == soonest(
            before.lanes,
            now,
        );
    lemma_ready(before.lanes[i], before.latest, now);
    lemma_ready_from(before.lanes[i], before.latest, now, now + wait@);
    assert(after.lanes[i].can_take(now + wait@));
}

/// A key that stays in a pool that is rebuilt keeps what counts against it: it
/// cannot be spent twice across the change, and a bench is served to its end. A
/// lower rate holds from then on.
pub proof fn law_kept_keys_keep_their_state(
    before: PoolView,
    after: PoolView,
    key: Seq<char>,
    rpm: nat,
    now: int,
)
    requires
        before.wf(),
        after.wf(),
        lane_of(before.lanes, key) < before.lanes.len(),
        after.lanes.contains(carried(before.lanes, key, rpm)),
    ensures
        ({
            let old_lane = before.lanes[lane_of(before.lanes, key)];
            let new_lane = carried(before.lanes, key, rpm);
            &&& old_lane.key == key
            &&& new_lane.key == key
            &&& new_lane.log == old_lane.log
            &&& new_lane.load(now) == old_lane.load(now)
            &&& new_lane.cooldown_until == old_lane.cooldown_until
            &&& new_lane.can_take(now) ==> new_lane.load(now) < rpm
        }),
{
    lemma_lane_of(before.lanes, key);
}

/// A benched lane is passed over until its bench is served.
pub proof fn law_benched_lane_is_skipped(
    before: PoolView,
    after: PoolView,
    now: int,
    prefer: Option<usize>,
    lane: usize,
    key: String,
    stamp: Instant,
    sticky: bool,
)
    requires
        before.reserved(after, now, prefer, Reservation::Ready { lane, key, stamp, sticky }),
    ensures
        before.lanes[lane as int].cooldown_until <= now,
{
}

/// A slot is granted whenever some lane has one, and a caller is put off only
/// when none has.
pub proof fn law_waits_only_when_saturated(
    before: PoolView,
    after: PoolView,
    now: int,
    prefer: Option<usize>,
    r: Reservation,
)
    requires
        prefer matches Some(p) ==> p < before.lanes.len(),
        before.reserved(after, now, prefer, r),
    ensures
        r is Wait <==> before.saturated(now),
{
}

/// The sends of a lane that the rolling window of 61 s ending at `t` covers.
pub open spec fn covered(l: LaneView, t: int) -> nat {
    sends_within(l.log, t - 61_000_000_000 + 1, t + 1)
}

/// A lane that may send at `t`: its bench is over, and the rolling window covers
/// fewer sends than its rate.
pub open spec fn has_room(l: LaneView, t: int) -> bool {
    l.cooldown_until <= t && covered(l, t) < l.rpm
}

/// Of an ordered row of sends, those in the span are counted by where it begins.
proof fn lemma_sends_from(log: Seq<int>, from: int, to: int, early: int)
    requires
        0 <= early <= log.len(),
        forall|i: int| 0 <= i < early ==> #[trigger] log[i] < from,
        forall|i: int| early <= i < log.len() ==> from <= #[trigger] log[i] < to,
    ensures
        sends_within(log, from, to) == log.len() - early,
    decreases log.len(),
{
    if log.len() > 0 {
        let front = log.drop_last();
        if early == log.len() {
            assert(log[early - 1] < from);
            lemma_sends_from(front, from, to, early - 1);
        } else {
            assert(from <= log[log.len() - 1] < to);
            lemma_sends_from(front, from, to, early);
        }
    }
}

/// What counts against a lane is what the window covers of its log.
pub proof fn lemma_load_is_covered(l: LaneView, latest: int, t: int)
    requires
        l.wf(latest),
        latest <= t,
    ensures
        l.load(t) == covered(l, t),
        l.pruned(t).load(t) == covered(l, t),
        l.can_take(t) == has_room(l, t),
{
    lemma_sent_ordered(l, latest);
    lemma_live(l.sent, t);
    lemma_live_twice(l.sent, t);
    let forgotten = l.log.len() - l.sent.len();
    let early = l.log.len() - live(l.sent, t).len();
    assert forall|i: int| 0 <= i < early implies #[trigger] l.log[i] < t - 61_000_000_000 + 1 by {
        if i >= forgotten {
            assert(l.log[i] == l.sent[i - forgotten]);
        }
    }
    assert forall|i: int| early <= i < l.log.len() implies t - 61_000_000_000 + 1
        <= #[trigger] l.log[i] < t + 1 by {
        assert(l.log[i] == l.sent[i - forgotten]);
    }
    lemma_sends_from(l.log, t - 61_000_000_000 + 1, t + 1, early);
}

/// From `now` on, a lane that is left alone has room from when it is ready.
pub proof fn lemma_room_from(l: LaneView, latest: int, now: int, t: int)
    requires
        l.wf(latest),
        latest <= now <= t,
    ensures
        has_room(l, t) <==> l.ready_at(now) <= t,
{
    lemma_pruned_wf(l, latest, now);
    lemma_load_is_covered(l.pruned(now), now, t);
    lemma_ready_from(l, latest, now, t);
}

/// The full rate of a key can be used: a slot is granted exactly if some lane is off
/// its bench and its rolling window covers fewer sends than its rate, and it is such
/// a lane that it is granted on.
pub proof fn law_the_full_rate_is_granted(
    before: PoolView,
    after: PoolView,
    now: int,
    prefer: Option<usize>,
    r: Reservation,
)
    requires
        before.wf(),
        before.latest <= now,
        prefer matches Some(p) ==> p < before.lanes.len(),
        before.reserved(after, now, prefer, r),
    ensures
        r is Ready <==> exists|i: int|
            #![trigger before.lanes[i]]
            0 <= i < before.lanes.len() && before.lanes[i].cooldown_until <= now && sends_within(
                before.lanes[i].log,
                now - 61_000_000_000 + 1,
                now + 1,
            ) < before.lanes[i].rpm,
        r matches Reservation::Ready { lane, .. } ==> lane < before.lanes.len() && has_room(
            before.lanes[lane as int],
            now,
        ),
{
    assert forall|i: int| 0 <= i < before.lanes.len() implies (
    #[trigger] before.lanes[i]).can_take(now) == has_room(before.lanes[i], now) by {
        lemma_load_is_covered(before.lanes[i], before.latest, now);
    }
}

/// A conversation stays on its lane while that lane has room. Everybody else goes to
/// the lane whose window covers the fewest sends of those that have room, the first
/// of them where several do.
pub proof fn law_slots_are_spread(
    before: PoolView,
    after: PoolView,
    now: int,
    prefer: Option<usize>,
    lane: usize,
    key: String,
    stamp: Instant,
    sticky: bool,
)
    requires
        before.wf(),
        before.latest <= now,
        prefer matches Some(p) ==> p < before.lanes.len(),
        before.reserved(after, now, prefer, Reservation::Ready { lane, key, stamp, sticky }),
    ensures
        sticky <==> (prefer matches Some(p) && has_room(before.lanes[p as int], now)),
        sticky ==> prefer == Some(lane),
        !sticky ==> forall|j: int|
            0 <= j < before.lanes.len() && has_room(#[trigger] before.lanes[j], now) ==> {
                ||| covered(before.lanes[lane as int], now) < covered(before.lanes[j], now)
                ||| covered(before.lanes[lane as int], now) == covered(before.lanes[j], now)
                    && lane <= j
            },
        key@ == before.lanes[lane as int].key,
        stamp@ == now,
{
    assert forall|i: int| 0 <= i < before.lanes.len() implies {
        &&& (#[trigger] before.lanes[i]).can_take(now) == has_room(before.lanes[i], now)
        &&& before.lanes[i].load(now) == covered(before.lanes[i], now)
    } by {
        lemma_load_is_covered(before.lanes[i], before.latest, now);
    }
}

/// A reservation records one send at its instant on the lane that it grants, and
/// changes nothing else that counts: no other send, no rate, no bench, no key.
pub proof fn law_reservations_are_recorded(
    before: PoolView,
    after: PoolView,
    now: int,
    prefer: Option<usize>,
    r: Reservation,
)
    requires
        before.wf(),
        prefer matches Some(p) ==> p < before.lanes.len(),
        before.reserved(after, now, prefer, r),
    ensures
        after.lanes.len() == before.lanes.len(),
        after.latest == now,
        forall|j: int|
            0 <= j < before.lanes.len() ==> {
                &&& (#[trigger] after.lanes[j]).key == before.lanes[j].key
                &&& after.lanes[j].rpm == before.lanes[j].rpm
                &&& after.lanes[j].cooldown_until == before.lanes[j].cooldown_until
                &&& after.lanes[j].log == if r matches Reservation::Ready { lane, .. } && lane == j {
                    before.lanes[j].log.push(now)
                } else {
                    before.lanes[j].log
                }
            },
{
}

/// The wait that a caller is told ends when a lane has room again, and not before.
pub proof fn law_waits_end_with_room(
    before: PoolView,
    after: PoolView,
    now: int,
    prefer: Option<usize>,
    wait: Duration,
)
    requires
        before.wf(),
        before.lanes.len() > 0,
        before.latest <= now,
        prefer matches Some(p) ==> p < before.lanes.len(),
        before.reserved(after, now, prefer, Reservation::Wait(wait)),
    ensures
        wait@ > 0,
        forall|t: int, i: int|
            now <= t < now + wait@ && 0 <= i < before.lanes.len() ==> !#[trigger] has_room(
                before.lanes[i],
                t,
            ),
        exists|i: int| 0 <= i < before.lanes.len() && #[trigger] has_room(before.lanes[i], now + wait@),
{
    law_wait_is_exact(before, after, now, prefer, wait);
    assert forall|t: int, i: int|
        now <= t && 0 <= i < before.lanes.len() implies #[trigger] has_room(before.lanes[i], t)
        == after.lanes[i].can_take(t) by {
        let l = before.lanes[i];
        lemma_pruned_wf(l, before.latest, now);
        lemma_load_is_covered(l.pruned(now), now, t);
        assert(after.lanes[i] == l.pruned(now));
    }
    assert forall|t: int, i: int|
        now <= t < now + wait@ && 0 <= i < before.lanes.len() implies !#[trigger] has_room(
        before.lanes[i],
        t,
    ) by {
        assert(after.saturated(t));
        assert(!after.lanes[i].can_take(t));
    }
    assert(before.saturated(now));
    let i = choose|i: int|
        0 <= i < after.lanes.len() && (#[trigger] after.lanes[i]).can_take(now + wait@);
    assert(has_room(before.lanes[i], now + wait@));
    if wait@ <= 0 {
        lemma_soonest(before.lanes, now);
        let k = choose|k: int|
            0 <= k < before.lanes.len() && (#[trigger] before.lanes[k]).ready_at(now) - now
                == soonest(before.lanes, now);
        lemma_ready(before.lanes[k], before.latest, now);
        assert(!before.lanes[k].can_take(now));
    }
}

/// A lane that is benched at `now` for a span takes no send before the span is over,
/// whatever benches it served before, nor before an earlier bench is over; nothing
/// else of it changes, and no reservation names it meanwhile.
pub proof fn law_benches_are_served(l: LaneView, now: int, backoff: int, t: int)
    requires
        backoff >= 0,
    ensures
        ({
            let b = l.benched(now + backoff);
            &&& b.cooldown_until >= l.cooldown_until
            &&& b.cooldown_until >= now + backoff
            &&& b.cooldown_until == l.cooldown_until || b.cooldown_until == now + backoff
            &&& now <= t < now + backoff ==> !b.can_take(t) && !has_room(b, t)
            &&& t < l.cooldown_until ==> !b.can_take(t) && !has_room(b, t)
            &&& (b.key, b.rpm, b.sent, b.log, b.peak) == (l.key, l.rpm, l.sent, l.log, l.peak)
        }),
{
}

/// No reservation names a lane that is on its bench.
pub proof fn law_benched_lanes_get_no_slot(
    pool: PoolView,
    lane: int,
    now: int,
    backoff: int,
    t: int,
    prefer: Option<usize>,
    after: PoolView,
    r: Reservation,
)
    requires
        0 <= lane < pool.lanes.len(),
        now <= t < now + backoff,
        prefer matches Some(p) ==> p < pool.lanes.len(),
        (PoolView {
            lanes: pool.lanes.update(lane, pool.lanes[lane].benched(now + backoff)),
            ..pool
        }).reserved(after, t, prefer, r),
    ensures
        r matches Reservation::Ready { lane: granted, .. } ==> granted != lane,
{
    law_benches_are_served(pool.lanes[lane], now, backoff, t);
}

/// Handing back a send takes exactly one of that instant out of the log, the latest,
/// and only if the lane has it; nothing else of the lane changes.
pub proof fn law_releases_take_one_send_back(l: LaneView, latest: int, stamp: int)
    requires
        l.wf(latest),
    ensures
        ({
            let r = l.released(stamp);
            &&& (r.key, r.rpm, r.cooldown_until, r.peak) == (l.key, l.rpm, l.cooldown_until, l.peak)
            &&& if l.sent.contains(stamp) {
                exists|p: int|
                    #![trigger l.log.remove(p)]
                    0 <= p < l.log.len() && l.log[p] == stamp && r.log == l.log.remove(p)
            } else {
                r == l
            }
        }),
{
    if l.sent.contains(stamp) {
        let forgotten = l.log.len() - l.sent.len();
        let p = lemma_last_place(l.sent, stamp);
        assert forall|q: int| forgotten + p < q < l.log.len() implies l.log[q] != stamp by {
            assert(l.log[q] == l.sent[q - forgotten]);
        }
        assert(l.log[forgotten + p] == l.sent[p]);
        lemma_without_last(l.log, stamp, forgotten + p);
        assert(l.released(stamp).log == l.log.remove(forgotten + p));
    }
}

/// A rebuilt pool has a lane for each key that it is given, in their order and at
/// their rates. A key that had a lane keeps its sends and its bench; one that had
/// none starts with neither.
pub proof fn law_rebuilds_keep_what_counts(lanes: Seq<LaneView>, key: Seq<char>, rpm: nat)
    ensures
        ({
            let c = carried(lanes, key, rpm);
            &&& c.key == key
            &&& c.rpm == rpm
            &&& (forall|i: int| 0 <= i < lanes.len() ==> (#[trigger] lanes[i]).key != key) ==> {
                &&& c.log.len() == 0
                &&& c.sent.len() == 0
                &&& c.cooldown_until == 0
            }
            &&& forall|i: int|
                #![trigger lanes[i]]
                0 <= i < lanes.len() && lanes[i].key == key && (forall|j: int|
                    0 <= j < i ==> (#[trigger] lanes[j]).key != key) ==> {
                    &&& c.log == lanes[i].log
                    &&& c.sent == lanes[i].sent
                    &&& c.cooldown_until == lanes[i].cooldown_until
                }
        }),
{
    lemma_lane_of(lanes, key);
    let k = lane_of(lanes, key);
    assert forall|i: int|
        #![trigger lanes[i]]
        0 <= i < lanes.len() && lanes[i].key == key && (forall|j: int|
            0 <= j < i ==> (#[trigger] lanes[j]).key != key) implies i == k by {
        if k < i {
            assert(lanes[k].key != key);
        }
        if i < k {
            assert(lanes[i].key != key);
        }
    }
}

/// A new lane has the whole of its rate to give.
pub proof fn law_new_lanes_are_free(key: Seq<char>, rpm: nat, t: int)
    requires
        rpm >= 1,
        t >= 0,
    ensures
        fresh_lane(key, rpm).key == key,
        fresh_lane(key, rpm).rpm == rpm,
        fresh_lane(key, rpm).log.len() == 0,
        has_room(fresh_lane(key, rpm), t),
{
}

/// The lane of a key is found where it was, or else where the key first stands.
pub proof fn law_lanes_are_found_by_key(lanes: Seq<LaneView>, i: int, key: Seq<char>)
    ensures
        ({
            let p = place_of(lanes, i, key);
            &&& 0 <= p <= lanes.len()
            &&& p < lanes.len() ==> lanes[p].key == key
            &&& p == lanes.len() ==> forall|j: int|
                0 <= j < lanes.len() ==> (#[trigger] lanes[j]).key != key
            &&& 0 <= i < lanes.len() && lanes[i].key == key ==> p == i
            &&& !(0 <= i < lanes.len() && lanes[i].key == key) ==> forall|j: int|
                0 <= j < p ==> (#[trigger] lanes[j]).key != key
        }),
{
    lemma_lane_of(lanes, key);
}

} // verus!

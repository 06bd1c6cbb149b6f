//! Promises about lanes, the queue in front of them, and the pressure of models.

use vstd::prelude::*;

use crate::dispatch;
use crate::dispatch::{DispatchView, Dispatcher, Turn};
use crate::governor::{Governor, Permit};
use crate::pool;
use crate::pool::{LaneView, Pool, PoolView, Reservation};
use crate::time::{Duration, Instant, MAX_SPAN_NANOS};

verus! {

/// What a call for a slot gives: one exactly if some lane is off its bench and has sent
/// fewer requests in the last 61 s than its rate. The lane that is preferred gives it if
/// it can, and else the one that has sent the fewest, the first of them. Without a slot,
/// the wait ends when the first lane has room again. A slot is one more send of its
/// lane, and nothing else changes.
pub open spec fn granting(
    before: PoolView,
    after: PoolView,
    now: int,
    prefer: Option<usize>,
    r: Reservation,
) -> bool {
    let lanes = before.lanes;
    &&& r is Ready <==> exists|i: int| 0 <= i < lanes.len() && #[trigger] pool::has_room(lanes[i], now)
    &&& r matches Reservation::Ready { lane, key, stamp, sticky } ==> {
        &&& lane < lanes.len()
        &&& pool::has_room(lanes[lane as int], now)
        &&& key@ == lanes[lane as int].key
        &&& stamp@ == now
        &&& sticky <==> (prefer matches Some(i) && pool::has_room(lanes[i as int], now))
        &&& sticky ==> prefer == Some(lane)
        &&& !sticky ==> least_loaded(lanes, lane as int, now)
    }
    &&& r matches Reservation::Wait(wait) ==> lanes.len() > 0 ==> {
        &&& wait@ > 0
        &&& forall|t: int, i: int|
            now <= t < now + wait@ && 0 <= i < lanes.len() ==> !#[trigger] pool::has_room(lanes[i], t)
        &&& exists|i: int| 0 <= i < lanes.len() && #[trigger] pool::has_room(lanes[i], now + wait@)
    }
    &&& r matches Reservation::Wait(wait) ==> lanes.len() == 0 ==> wait@ == 61_000_000_000
    &&& sent_on(
        lanes,
        after.lanes,
        if r is Ready {
            r->lane as int
        } else {
            -1
        },
        now,
    )
}

/// Of the lanes with room, the one that has sent the fewest, and the first of those.
pub open spec fn least_loaded(lanes: Seq<LaneView>, lane: int, now: int) -> bool {
    forall|j: int|
        0 <= j < lanes.len() && #[trigger] pool::has_room(lanes[j], now) ==> {
            ||| pool::covered(lanes[lane], now) < pool::covered(lanes[j], now)
            ||| pool::covered(lanes[lane], now) == pool::covered(lanes[j], now) && lane <= j
        }
}

/// One lane has sent once more, and the lanes are else what they were.
pub open spec fn sent_on(lanes: Seq<LaneView>, after: Seq<LaneView>, lane: int, now: int) -> bool {
    &&& after.len() == lanes.len()
    &&& forall|j: int|
        0 <= j < lanes.len() ==> {
            &&& (#[trigger] after[j]).key == lanes[j].key
            &&& after[j].rpm == lanes[j].rpm
            &&& after[j].cooldown_until == lanes[j].cooldown_until
            &&& after[j].log == if j == lane {
                lanes[j].log.push(now)
            } else {
                lanes[j].log
            }
        }
}

proof fn lemma_granting(
    before: PoolView,
    after: PoolView,
    now: int,
    prefer: Option<usize>,
    r: Reservation,
)
    requires
        before.reserved(after, now, prefer, r),
        before.wf(),
        before.latest <= now <= MAX_SPAN_NANOS,
        prefer matches Some(i) ==> i < before.lanes.len(),
    ensures
        granting(before, after, now, prefer, r),
{
    pool::law_the_full_rate_is_granted(before, after, now, prefer, r);
    pool::law_reservations_are_recorded(before, after, now, prefer, r);
    if exists|i: int| 0 <= i < before.lanes.len() && #[trigger] pool::has_room(before.lanes[i], now) {
        let i = choose|i: int| 0 <= i < before.lanes.len() && #[trigger] pool::has_room(before.lanes[i], now);
        assert(before.lanes[i].cooldown_until <= now);
    }
    match r {
        Reservation::Ready { lane, key, stamp, sticky } => {
            assert(pool::has_room(before.lanes[lane as int], now));
            pool::law_slots_are_spread(before, after, now, prefer, lane, key, stamp, sticky);
        },
        Reservation::Wait(wait) => {
            if before.lanes.len() > 0 {
                pool::law_waits_end_with_room(before, after, now, prefer, wait);
            }
        },
    }
}

/// A key serves its full rate: a call is granted a slot exactly if some lane is off
/// its bench and has sent fewer requests in the last 61 s than its rate.
pub proof fn law_reserving(p: &mut Pool, now: Instant, prefer: Option<usize>, r: Reservation)
    requires
        call_ensures(Pool::reserve_at, (p, now, prefer), r),
        old(p)@.wf(),
        old(p)@.latest <= now@ <= MAX_SPAN_NANOS,
        prefer matches Some(i) ==> i < old(p)@.lanes.len(),
    ensures
        granting(old(p)@, final(p)@, now@, prefer, r),
        final(p)@.latest == now@,
{
    lemma_granting(old(p)@, final(p)@, now@, prefer, r);
}

/// The same of a call at the instant that the clock gives.
pub proof fn law_reserving_now(p: &mut Pool, prefer: Option<usize>, r: Reservation)
    requires
        call_ensures(Pool::reserve, (p, prefer), r),
        old(p)@.wf(),
        prefer matches Some(i) ==> i < old(p)@.lanes.len(),
    ensures
        final(p)@.latest >= old(p)@.latest,
        granting(old(p)@, final(p)@, final(p)@.latest, prefer, r),
{
    lemma_granting(old(p)@, final(p)@, final(p)@.latest, prefer, r);
}

/// A lane that is benched from one instant to another has no room between them,
/// whatever it served before, and none before an earlier bench is over. Nothing else
/// changes.
pub open spec fn benching(
    before: Seq<LaneView>,
    after: Seq<LaneView>,
    lane: int,
    now: int,
    until: int,
) -> bool {
    let l = before[lane];
    let b = after[lane];
    &&& after.len() == before.len()
    &&& forall|t: int| now <= t < until ==> !#[trigger] pool::has_room(b, t)
    &&& forall|t: int| t < l.cooldown_until ==> !#[trigger] pool::has_room(b, t)
    &&& forall|t: int|
        t >= l.cooldown_until && t >= until ==> #[trigger] pool::has_room(b, t) == pool::has_room(l, t)
    &&& b.cooldown_until >= l.cooldown_until
    &&& b.cooldown_until == until || b.cooldown_until == l.cooldown_until
    &&& b.log == l.log && b.rpm == l.rpm && b.key == l.key
    &&& forall|j: int| 0 <= j < before.len() && j != lane ==> #[trigger] after[j] == before[j]
}

/// A bench lasts as long as it is told.
pub proof fn law_benching(p: &mut Pool, lane: usize, now: Instant, backoff: Duration)
    requires
        call_ensures(Pool::penalize_at, (p, lane, now, backoff), ()),
        lane < old(p)@.lanes.len(),
    ensures
        benching(old(p)@.lanes, final(p)@.lanes, lane as int, now@, now@ + backoff@),
        final(p)@.latest == old(p)@.latest,
{
}

/// The same from the instant that the clock gives.
pub proof fn law_benching_now(p: &mut Pool, lane: usize, backoff: Duration)
    requires
        call_ensures(Pool::penalize, (p, lane, backoff), ()),
        lane < old(p)@.lanes.len(),
    ensures
        exists|now: int|
            old(p)@.latest <= now && #[trigger] benching(
                old(p)@.lanes,
                final(p)@.lanes,
                lane as int,
                now,
                now + backoff@,
            ),
{
    let now = choose|now: int|
        old(p)@.latest <= now <= MAX_SPAN_NANOS && final(p)@ == (PoolView {
            lanes: old(p)@.lanes.update(
                lane as int,
                #[trigger] old(p)@.lanes[lane as int].benched(now + backoff@),
            ),
            ..old(p)@
        });
    assert(benching(old(p)@.lanes, final(p)@.lanes, lane as int, now, now + backoff@));
}

/// Handing a slot back takes one send of that instant out of the lane's log, if the
/// lane remembers one, and changes nothing else.
pub proof fn law_releasing(p: &mut Pool, lane: usize, stamp: Instant)
    requires
        call_ensures(Pool::release, (p, lane, stamp), ()),
        old(p)@.wf(),
        lane < old(p)@.lanes.len(),
    ensures
        ({
            let l = old(p)@.lanes[lane as int];
            let r = final(p)@.lanes[lane as int];
            &&& r.rpm == l.rpm && r.key == l.key && r.cooldown_until == l.cooldown_until
            &&& if l.sent.contains(stamp@) {
                exists|i: int|
                    #![trigger l.log.remove(i)]
                    0 <= i < l.log.len() && l.log[i] == stamp@ && r.log == l.log.remove(i)
            } else {
                r == l
            }
        }),
        final(p)@.lanes.len() == old(p)@.lanes.len(),
        forall|j: int|
            0 <= j < old(p)@.lanes.len() && j != lane ==> #[trigger] final(p)@.lanes[j]
                == old(p)@.lanes[j],
{
    let l = old(p)@.lanes[lane as int];
    assert(l.wf(old(p)@.latest));
    pool::law_releases_take_one_send_back(l, old(p)@.latest, stamp@);
}

/// A new pool has one lane per key, in their order, each with the whole rate to give.
pub proof fn law_new_pools(keys: Vec<String>, rpm: usize, r: Pool, i: int, t: int)
    requires
        call_ensures(Pool::new, (keys, rpm), r),
        rpm >= 1,
        0 <= i < keys@.len(),
        t >= 0,
    ensures
        r@.lanes.len() == keys@.len(),
        r@.lanes[i].key == keys@[i]@,
        r@.lanes[i].rpm == rpm,
        r@.lanes[i].log.len() == 0,
        pool::has_room(r@.lanes[i], t),
{
}

/// A rebuilt pool has a lane for each key that it is given, in their order and at
/// their rates. A key that had a lane before keeps its sends and its bench, and one
/// that had none starts with neither.
pub proof fn law_rebuilding(p: &Pool, keys: &Vec<(String, usize)>, r: Pool, k: int)
    requires
        call_ensures(Pool::rebuild, (p, keys), r),
        0 <= k < keys@.len(),
    ensures
        r@.lanes.len() == keys@.len(),
        r@.lanes[k].key == keys@[k].0@,
        r@.lanes[k].rpm == keys@[k].1,
        (forall|i: int| 0 <= i < p@.lanes.len() ==> (#[trigger] p@.lanes[i]).key != keys@[k].0@)
            ==> r@.lanes[k].log.len() == 0 && r@.lanes[k].cooldown_until == 0,
        forall|i: int|
            #![trigger p@.lanes[i]]
            0 <= i < p@.lanes.len() && p@.lanes[i].key == keys@[k].0@ && (forall|j: int|
                0 <= j < i ==> (#[trigger] p@.lanes[j]).key != keys@[k].0@) ==> {
                &&& r@.lanes[k].log == p@.lanes[i].log
                &&& r@.lanes[k].cooldown_until == p@.lanes[i].cooldown_until
            },
{
    pool::law_rebuilds_keep_what_counts(p@.lanes, keys@[k].0@, keys@[k].1 as nat);
}

/// The first in the queue is served by what the lanes have to give: it has a slot if
/// one has room, is turned away if none has room again by its deadline, and is told to
/// look again otherwise, after half a second at most and no later than a lane has room.
/// A slot is one more send of its lane, and is given like any other.
pub open spec fn serving<R>(
    before: DispatchView<R>,
    after: DispatchView<R>,
    now: int,
    later: int,
    gone: bool,
    t: Turn<R>,
) -> bool {
    let lanes = before.pool.lanes;
    let head = before.waiting[0];
    &&& before.waiting.len() == 0 ==> t is Idle
    &&& before.waiting.len() > 0 && gone ==> t == Turn::Abandoned(head.reply)
    &&& before.waiting.len() > 0 && !gone ==> {
        &&& t is Granted <==> exists|i: int|
            0 <= i < lanes.len() && #[trigger] pool::has_room(lanes[i], now)
        &&& t is Granted || t is Expired || t is Sleep
        &&& t is Expired <==> forall|i: int, at: int|
            0 <= i < lanes.len() && now <= at && (at == now || at - now <= head.deadline@ - later)
                ==> !#[trigger] pool::has_room(lanes[i], at)
        &&& t matches Turn::Sleep(nap) ==> {
            &&& 0 < nap@ <= 500_000_000
            &&& forall|i: int, at: int|
                0 <= i < lanes.len() && now <= at < now + nap@ ==> !#[trigger] pool::has_room(
                    lanes[i],
                    at,
                )
            &&& nap@ == 500_000_000 || exists|i: int|
                0 <= i < lanes.len() && #[trigger] pool::has_room(lanes[i], now + nap@)
        }
        &&& t matches Turn::Expired(reply) ==> reply == head.reply
        &&& t matches Turn::Granted { reply, lane, key, stamp, sticky } ==> {
            &&& reply == head.reply
            &&& lane < lanes.len()
            &&& key@ == lanes[lane as int].key
            &&& stamp@ == now
            &&& pool::has_room(lanes[lane as int], now)
            &&& sticky <==> (head.prefer matches Some(p) && p < lanes.len() && pool::has_room(
                lanes[p as int],
                now,
            ))
            &&& sticky ==> head.prefer == Some(lane)
            &&& !sticky ==> least_loaded(lanes, lane as int, now)
        }
    }
    &&& sent_on(
        lanes,
        after.pool.lanes,
        if t is Granted {
            t->lane as int
        } else {
            -1
        },
        now,
    )
    &&& after.arrived == before.arrived
    &&& after.waiting == if t is Idle || t is Sleep {
        before.waiting
    } else {
        before.waiting.skip(1)
    }
}

proof fn lemma_serving<R>(
    before: DispatchView<R>,
    after: DispatchView<R>,
    now: int,
    later: int,
    gone: bool,
    t: Turn<R>,
)
    requires
        before.turned(after, now, later, gone, t),
        before.wf(),
        before.pool.latest <= now <= MAX_SPAN_NANOS,
        before.pool.lanes.len() > 0,
    ensures
        serving(before, after, now, later, gone, t),
{
    assert(before.waiting.len() > 0 ==> before.waiting.drop_first() =~= before.waiting.skip(1));
    if before.waiting.len() > 0 && !gone {
        let lanes = before.pool.lanes;
        let head = before.waiting[0];
        let prefer = dispatch::in_bounds(head.prefer, lanes.len());
        let wait = pool::soonest(lanes, now);
        assert forall|i: int, at: int| 0 <= i < lanes.len() && now <= at implies #[trigger] pool::has_room(
            lanes[i],
            at,
        ) == (lanes[i].ready_at(now) <= at) by {
            assert(lanes[i].wf(before.pool.latest));
            pool::lemma_room_from(lanes[i], before.pool.latest, now, at);
        }
        pool::lemma_soonest(lanes, now);
        assert forall|i: int| 0 <= i < lanes.len() implies (#[trigger] lanes[i]).can_take(now)
            == pool::has_room(lanes[i], now) && lanes[i].ready_at(now) >= now by {
            assert(lanes[i].wf(before.pool.latest));
            pool::lemma_load_is_covered(lanes[i], before.pool.latest, now);
            pool::lemma_ready(lanes[i], before.pool.latest, now);
        }
        let k = choose|k: int|
            0 <= k < lanes.len() && (#[trigger] lanes[k]).ready_at(now) - now == wait;
        assert(pool::has_room(lanes[k], now + wait));
        if before.pool.saturated(now) {
            assert forall|i: int| 0 <= i < lanes.len() implies !#[trigger] pool::has_room(lanes[i], now) by {
                assert(!lanes[i].can_take(now));
            }
            assert(!pool::has_room(lanes[k], now));
            assert(wait > 0);
            if later + wait > head.deadline@ {
                assert forall|i: int, at: int|
                    0 <= i < lanes.len() && now <= at && (at == now || at - now <= head.deadline@
                        - later) implies !#[trigger] pool::has_room(lanes[i], at) by {
                    assert(wait <= lanes[i].ready_at(now) - now);
                }
            }
        } else {
            let j = choose|j: int| 0 <= j < lanes.len() && (#[trigger] lanes[j]).can_take(now);
            assert(pool::has_room(lanes[j], now));
            if let Turn::Granted { reply, lane, key, stamp, sticky } = t {
                pool::law_slots_are_spread(
                    before.pool,
                    after.pool,
                    now,
                    prefer,
                    lane,
                    key,
                    stamp,
                    sticky,
                );
                pool::law_the_full_rate_is_granted(
                    before.pool,
                    after.pool,
                    now,
                    prefer,
                    Reservation::Ready { lane, key, stamp, sticky },
                );
            }
        }
    }
}

/// A turn of the queue serves its first.
pub proof fn law_turns<R>(
    d: &mut Dispatcher<R>,
    now: Instant,
    later: Instant,
    gone: bool,
    t: Turn<R>,
)
    requires
        call_ensures(Dispatcher::<R>::turn_at, (d, now, later, gone), t),
        old(d)@.wf(),
        old(d)@.pool.latest <= now@ <= MAX_SPAN_NANOS,
        old(d)@.pool.lanes.len() > 0,
    ensures
        serving(old(d)@, final(d)@, now@, later@, gone, t),
{
    lemma_serving(old(d)@, final(d)@, now@, later@, gone, t);
}

/// The same at the instants that the clock gives.
pub proof fn law_turns_now<R>(d: &mut Dispatcher<R>, gone: bool, t: Turn<R>)
    requires
        call_ensures(Dispatcher::<R>::turn, (d, gone), t),
        old(d)@.wf(),
        old(d)@.pool.lanes.len() > 0,
    ensures
        exists|now: int, later: int|
            old(d)@.pool.latest <= now <= later && #[trigger] serving(
                old(d)@,
                final(d)@,
                now,
                later,
                gone,
                t,
            ),
{
    let (now, later) = choose|now: int, later: int|
        {
            &&& old(d)@.pool.latest <= now <= later <= MAX_SPAN_NANOS
            &&& #[trigger] old(d)@.turned(final(d)@, now, later, gone, t)
        };
    lemma_serving(old(d)@, final(d)@, now, later, gone, t);
}

/// Whoever joins the queue stands behind all who are in it.
pub proof fn law_joining<R>(
    d: &mut Dispatcher<R>,
    reply: R,
    deadline: Instant,
    prefer: Option<usize>,
)
    requires
        call_ensures(Dispatcher::<R>::acquire, (d, reply, deadline, prefer), ()),
    ensures
        final(d)@.waiting.len() == old(d)@.waiting.len() + 1,
        final(d)@.waiting.drop_last() == old(d)@.waiting,
        final(d)@.waiting.last().reply == reply,
        final(d)@.waiting.last().deadline == deadline,
        final(d)@.waiting.last().prefer == prefer,
        final(d)@.pool == old(d)@.pool,
{
    assert(final(d)@.waiting.drop_last() =~= old(d)@.waiting);
}

/// A bench goes to the lane of the key that earned it, wherever that lane is now, and
/// lasts as long as it is told. The queue stays as it is.
pub proof fn law_benching_by_key<R>(
    d: &mut Dispatcher<R>,
    lane: usize,
    key: &String,
    now: Instant,
    backoff: Duration,
    i: int,
    t: int,
)
    requires
        call_ensures(Dispatcher::<R>::penalize_at, (d, lane, key, now, backoff), ()),
        0 <= i < old(d)@.pool.lanes.len(),
        old(d)@.pool.lanes[i].key == key@,
        i == lane || forall|j: int|
            #![trigger old(d)@.pool.lanes[j]]
            0 <= j < i || j == lane && j < old(d)@.pool.lanes.len() ==> old(d)@.pool.lanes[j].key
                != key@,
    ensures
        final(d)@.waiting == old(d)@.waiting,
        now@ <= t < now@ + backoff@ ==> !pool::has_room(final(d)@.pool.lanes[i], t),
        t >= now@ + backoff@ ==> pool::has_room(final(d)@.pool.lanes[i], t) == pool::has_room(
            old(d)@.pool.lanes[i],
            t,
        ),
        forall|j: int|
            0 <= j < old(d)@.pool.lanes.len() && j != i ==> #[trigger] final(d)@.pool.lanes[j]
                == old(d)@.pool.lanes[j],
{
    let lanes = old(d)@.pool.lanes;
    pool::law_lanes_are_found_by_key(lanes, lane as int, key@);
    let p = pool::place_of(lanes, lane as int, key@);
    assert(p == i) by {
        if i != lane {
            if lane < lanes.len() {
                assert(lanes[lane as int].key != key@);
            }
            if p < i {
                assert(lanes[p].key != key@);
            }
            if i < p {
                assert(lanes[i].key != key@);
            }
        }
    }
}

/// A slot that nobody took goes back to the lane that it was granted on: the lane has
/// the room again that it had before.
pub proof fn law_undelivered<R>(
    d: &mut Dispatcher<R>,
    lane: usize,
    key: &String,
    stamp: Instant,
)
    requires
        call_ensures(Dispatcher::<R>::undelivered, (d, lane, key, stamp), ()),
        old(d)@.wf(),
        lane < old(d)@.pool.lanes.len(),
        old(d)@.pool.lanes[lane as int].key == key@,
    ensures
        final(d)@.waiting == old(d)@.waiting,
        ({
            let l = old(d)@.pool.lanes[lane as int];
            let r = final(d)@.pool.lanes[lane as int];
            &&& r.rpm == l.rpm && r.cooldown_until == l.cooldown_until
            &&& if l.sent.contains(stamp@) {
                exists|i: int|
                    #![trigger l.log.remove(i)]
                    0 <= i < l.log.len() && l.log[i] == stamp@ && r.log == l.log.remove(i)
            } else {
                r == l
            }
        }),
        forall|j: int|
            0 <= j < old(d)@.pool.lanes.len() && j != lane ==> #[trigger] final(d)@.pool.lanes[j]
                == old(d)@.pool.lanes[j],
{
    let l = old(d)@.pool.lanes[lane as int];
    assert(l.wf(old(d)@.pool.latest));
    pool::law_releases_take_one_send_back(l, old(d)@.pool.latest, stamp@);
}

/// A count, as long as there is room for it.
pub open spec fn countable(n: int) -> int {
    if n <= usize::MAX {
        n
    } else {
        usize::MAX as int
    }
}

/// A request for a model that is not governed is granted. One for a governed model is
/// held while the model drains, which is two seconds from when its workers were
/// exhausted, and while as many requests are in flight as its limit allows; the limit
/// is one higher for each minute of calm, and gone after thirty.
pub proof fn law_permits(g: &mut Governor, model: &str, now: Instant, r: Permit)
    requires
        call_ensures(Governor::permit, (g, model, now), r),
        old(g).wf(),
    ensures
        ({
            let p = old(g).state(model@);
            let q = final(g).state(model@);
            let calm = now@ - p.exhausted_at@ >= 1_800_000_000_000;
            let minutes = if now@ >= p.stable_since@ {
                (now@ - p.stable_since@) / 60_000_000_000
            } else {
                0
            };
            let limit = countable(p.limit + minutes);
            &&& p.limit == 0 || calm ==> r is Granted && q.limit == 0
            &&& p.limit > 0 && !calm ==> {
                &&& q.limit == limit
                &&& r is Granted <==> now@ >= p.hold_until@ && p.inflight < limit
                &&& r matches Permit::Hold(wait) ==> wait@ == if now@ < p.hold_until@ {
                    p.hold_until@ - now@
                } else {
                    500_000_000
                }
            }
            &&& q.inflight == countable(
                p.inflight + if r is Granted {
                    1int
                } else {
                    0
                },
            )
        }),
        forall|other: Seq<char>|
            other != model@ ==> #[trigger] final(g).state(other) == old(g).state(other),
{
}

/// Exhausted workers halve what is in flight, to one at least, and stop the model for
/// two seconds.
pub proof fn law_exhaustion(g: &mut Governor, model: &str, now: Instant)
    requires
        call_ensures(Governor::exhausted, (g, model, now), ()),
        now@ <= MAX_SPAN_NANOS,
    ensures
        ({
            let p = old(g).state(model@);
            let q = final(g).state(model@);
            &&& q.limit >= 1
            &&& q.limit == 1 || q.limit == p.inflight / 2
            &&& p.inflight >= 2 ==> q.limit == p.inflight / 2
            &&& q.inflight == p.inflight
            &&& q.hold_until@ == now@ + 2_000_000_000
            &&& q.exhausted_at == now
            &&& q.stable_since == now
        }),
        forall|other: Seq<char>|
            other != model@ ==> #[trigger] final(g).state(other) == old(g).state(other),
{
}

/// A permit that is handed back is one request less in flight, and changes no limit.
pub proof fn law_handing_back(g: &mut Governor, model: &str)
    requires
        call_ensures(Governor::release, (g, model), ()),
    ensures
        ({
            let p = old(g).state(model@);
            let q = final(g).state(model@);
            &&& p.inflight > 0 ==> q.inflight == p.inflight - 1
            &&& p.inflight == 0 ==> q.inflight == 0
            &&& q.limit == p.limit
            &&& q.hold_until == p.hold_until
        }),
        forall|other: Seq<char>|
            other != model@ ==> #[trigger] final(g).state(other) == old(g).state(other),
{
}

/// A hold is in vain exactly if it ends after the deadline.
pub proof fn law_vain_holds(p: &Permit, now: Instant, deadline: Instant, r: bool)
    requires
        call_ensures(Permit::too_late, (p, now, deadline), r),
    ensures
        *p is Granted ==> !r,
        *p matches Permit::Hold(wait) ==> r == (now@ + wait@ > deadline@),
{
}

/// Seconds and milliseconds are what they are.
pub proof fn law_spans(n: u64, s: Duration, m: Duration)
    requires
        call_ensures(Duration::from_secs, (n,), s),
        call_ensures(Duration::from_millis, (n,), m),
    ensures
        s@ == n * 1_000_000_000,
        m@ == n * 1_000_000,
{
}

/// A queue tells how many wait in it, who is first, and how many lanes serve it.
pub proof fn law_queues<R>(d: &Dispatcher<R>, n: usize, first: Option<&R>, lanes: usize)
    requires
        call_ensures(Dispatcher::<R>::depth, (d,), n),
        call_ensures(Dispatcher::<R>::head, (d,), first),
        call_ensures(Dispatcher::<R>::lanes, (d,), lanes),
    ensures
        n == d@.waiting.len(),
        first is Some <==> d@.waiting.len() > 0,
        first matches Some(r) ==> *r == d@.waiting[0].reply,
        lanes == d@.pool.lanes.len(),
{
}

/// A queue starts empty, before the lanes that it is given.
pub proof fn law_new_queues<R>(p: Pool, d: Dispatcher<R>)
    requires
        call_ensures(Dispatcher::<R>::new, (p,), d),
        p@.wf(),
    ensures
        d@.waiting.len() == 0,
        d@.pool == p@,
{
}

/// Lanes that are rebuilt under a queue leave it as it is, and keep what they count.
pub proof fn law_rebuilding_under_the_queue<R>(
    d: &mut Dispatcher<R>,
    keys: &Vec<(String, usize)>,
    k: int,
)
    requires
        call_ensures(Dispatcher::<R>::rebuild, (d, keys), ()),
        0 <= k < keys@.len(),
    ensures
        final(d)@.waiting == old(d)@.waiting,
        ({
            let before = old(d)@.pool.lanes;
            let after = final(d)@.pool.lanes;
            &&& after.len() == keys@.len()
            &&& after[k].key == keys@[k].0@
            &&& after[k].rpm == keys@[k].1
            &&& (forall|i: int| 0 <= i < before.len() ==> (#[trigger] before[i]).key != keys@[k].0@)
                ==> after[k].log.len() == 0 && after[k].cooldown_until == 0
            &&& forall|i: int|
                #![trigger before[i]]
                0 <= i < before.len() && before[i].key == keys@[k].0@ && (forall|j: int|
                    0 <= j < i ==> (#[trigger] before[j]).key != keys@[k].0@) ==> {
                    &&& after[k].log == before[i].log
                    &&& after[k].cooldown_until == before[i].cooldown_until
                }
        }),
{
    pool::law_rebuilds_keep_what_counts(
        old(d)@.pool.lanes,
        keys@[k].0@,
        keys@[k].1 as nat,
    );
}

/// A bench by key from the instant that the clock gives.
pub proof fn law_benching_by_key_now<R>(
    d: &mut Dispatcher<R>,
    lane: usize,
    key: &String,
    backoff: Duration,
)
    requires
        call_ensures(Dispatcher::<R>::penalize, (d, lane, key, backoff), ()),
        lane < old(d)@.pool.lanes.len(),
        old(d)@.pool.lanes[lane as int].key == key@,
    ensures
        final(d)@.waiting == old(d)@.waiting,
        exists|now: int|
            old(d)@.pool.latest <= now && #[trigger] benching(
                old(d)@.pool.lanes,
                final(d)@.pool.lanes,
                lane as int,
                now,
                now + backoff@,
            ),
{
    let lanes = old(d)@.pool.lanes;
    let p = pool::place_of(lanes, lane as int, key@);
    pool::law_lanes_are_found_by_key(lanes, lane as int, key@);
    let now = choose|now: int|
        old(d)@.pool.latest <= now <= MAX_SPAN_NANOS && final(d)@.pool == #[trigger] dispatch::benched_at(
            old(d)@.pool,
            p,
            now + backoff@,
        );
    assert(p == lane);
    assert(benching(lanes, final(d)@.pool.lanes, lane as int, now, now + backoff@));
}

/// A lane is found by its place and its key, and by its key alone where it has moved.
pub proof fn law_locating(p: &Pool, lane: usize, key: &String, r: Option<usize>)
    requires
        call_ensures(Pool::locate, (p, lane, key), r),
    ensures
        lane < p@.lanes.len() && p@.lanes[lane as int].key == key@ ==> r == Some(lane),
        r matches Some(i) ==> i < p@.lanes.len() && p@.lanes[i as int].key == key@,
        r matches Some(i) ==> i == lane || forall|j: int|
            0 <= j < i ==> (#[trigger] p@.lanes[j]).key != key@,
        r is None ==> forall|j: int| 0 <= j < p@.lanes.len() ==> (#[trigger] p@.lanes[j]).key != key@,
{
    pool::law_lanes_are_found_by_key(p@.lanes, lane as int, key@);
}

/// How many lanes there are, and how long the window is that they are held to.
pub proof fn law_pool_sizes(p: &Pool, n: usize, w: Duration)
    requires
        call_ensures(Pool::len, (p,), n),
        call_ensures(pool::window, (), w),
    ensures
        n == p@.lanes.len(),
        w@ == 61_000_000_000,
{
}

/// How a slot goes with what was preferred.
pub proof fn law_affinity_results(prefer: Option<usize>, sticky: bool, r: &'static str)
    requires
        call_ensures(dispatch::affinity_result, (prefer, sticky), r),
    ensures
        prefer is None ==> r@ == "none"@,
        prefer is Some && sticky ==> r@ == "sticky"@,
        prefer is Some && !sticky ==> r@ == "spill"@,
{
}

/// Models are not governed before their workers are exhausted.
pub proof fn law_new_governors(g: Governor, model: Seq<char>)
    requires
        call_ensures(Governor::new, (), g),
    ensures
        g.state(model).limit == 0,
        g.state(model).inflight == 0,
{
}

/// What is shown of a model is its limit and what is in flight.
pub proof fn law_gauges(g: &Governor, model: &str, r: (usize, usize))
    requires
        call_ensures(Governor::gauges, (g, model), r),
    ensures
        r == (g.state(model@).limit, g.state(model@).inflight),
{
}

/// Whole seconds of a span; and the time of a clock that stands before its epoch is
/// the epoch.
pub proof fn law_seconds(d: &Duration, r: u64, since_epoch: Option<u64>, u: u64)
    requires
        call_ensures(Duration::as_secs, (d,), r),
        call_ensures(crate::time::unix_secs, (since_epoch,), u),
    ensures
        r * 1_000_000_000 <= d@ < (r + 1) * 1_000_000_000,
        since_epoch matches Some(n) ==> u == n,
        since_epoch is None ==> u == 0,
{
}

/// Without lanes there is nothing to wait for but a whole window: the first in the queue
/// looks again after half a second while its deadline leaves room for that.
pub proof fn law_turns_without_lanes<R>(
    d: &mut Dispatcher<R>,
    now: Instant,
    later: Instant,
    t: Turn<R>,
)
    requires
        call_ensures(Dispatcher::<R>::turn_at, (d, now, later, false), t),
        old(d)@.pool.lanes.len() == 0,
        old(d)@.waiting.len() > 0,
    ensures
        t is Expired <==> later@ + 61_000_000_000 > old(d)@.waiting[0].deadline@,
        t is Expired ==> t == Turn::Expired(old(d)@.waiting[0].reply),
        !(t is Expired) ==> (t matches Turn::Sleep(nap) && nap@ == 500_000_000),
{
}

} // verus!

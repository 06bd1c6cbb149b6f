//! Promises about the operator's side: history, login and sessions.

use vstd::prelude::*;

use crate::auth;
use crate::auth::{Admin, Headers, Login, Verdict};
use crate::base64;
use crate::config::{StoredConfig, User};
use crate::crypto;
use crate::crypto::NoRandomness;
use crate::digits;
use crate::form;
use crate::history;
use crate::history::{History, Write};
use crate::json;
use crate::json::Tree;
use crate::pages;
use crate::password;
use crate::sessions;
use crate::text;

verus! {

/// Snapshots as times and texts.
pub open spec fn seen(v: Seq<(u64, String)>) -> Seq<(u64, Seq<char>)> {
    v.map_values(|p: (u64, String)| (p.0, p.1@))
}

/// Those of one time, in their order.
pub open spec fn taken_at(v: Seq<(u64, String)>, t: u64) -> Seq<(u64, Seq<char>)> {
    of_time(seen(v), t)
}

pub open spec fn of_time(s: Seq<(u64, Seq<char>)>, t: u64) -> Seq<(u64, Seq<char>)>
    decreases s.len(),
{
    if s.len() == 0 {
        Seq::empty()
    } else if s.last().0 == t {
        of_time(s.drop_last(), t).push(s.last())
    } else {
        of_time(s.drop_last(), t)
    }
}

proof fn lemma_of_time(s: Seq<(u64, Seq<char>)>, t: u64)
    ensures
        history::at_time(s, t) == of_time(s, t),
    decreases s.len(),
{
    reveal(Seq::filter);
    if s.len() > 0 {
        lemma_of_time(s.drop_last(), t);
        assert(history::at_time(s, t) =~= of_time(s, t));
    } else {
        assert(history::at_time(s, t) =~= of_time(s, t));
    }
}

proof fn lemma_filters_agree<A>(s: Seq<A>, f: spec_fn(A) -> bool, g: spec_fn(A) -> bool)
    requires
        forall|i: int| 0 <= i < s.len() ==> f(#[trigger] s[i]) == g(s[i]),
    ensures
        s.filter(f) == s.filter(g),
    decreases s.len(),
{
    reveal(Seq::filter);
    if s.len() > 0 {
        let rest = s.drop_last();
        assert forall|i: int| 0 <= i < rest.len() implies f(#[trigger] rest[i]) == g(rest[i]) by {
            assert(rest[i] == s[i]);
        }
        lemma_filters_agree(rest, f, g);
        assert(f(s[s.len() - 1]) == g(s[s.len() - 1]));
    }
}

/// With a retention of `d` days a snapshot of time `p` is kept after one at `t` exactly
/// if `p + d * 86_400 >= t`; without one everything is kept. Nothing else changes
/// place, and the new snapshot comes last.
pub proof fn law_keeping(h: &mut History, t: u64, snapshot: String, w: Write)
    requires
        call_ensures(History::append, (h, t, snapshot), w),
    ensures
        seen(final(h).points@) == seen(old(h).points@).filter(
            |p: (u64, Seq<char>)| old(h).days == 0 || p.0 + old(h).days * 86_400 >= t,
        ).push((t, snapshot@)),
        final(h).days == old(h).days,
        final(h).persistent == old(h).persistent,
{
    let d = old(h).days;
    let s = seen(old(h).points@);
    let f = |p: (u64, Seq<char>)| d == 0 || p.0 + d * 86_400 >= t;
    assert(s == history::points_of(old(h).points@));
    let kept = history::retained(s, t, d);
    if d > 0 {
        lemma_filters_agree(s, |p: (u64, Seq<char>)| p.0 >= history::cutoff(t, d), f);
    } else {
        lemma_filters_agree(s, |p: (u64, Seq<char>)| true, f);
        lemma_all_stay(s, |p: (u64, Seq<char>)| true);
    }
    assert(seen(final(h).points@) == history::points_of(final(h).points@));
}

proof fn lemma_all_stay<A>(s: Seq<A>, f: spec_fn(A) -> bool)
    requires
        forall|i: int| 0 <= i < s.len() ==> f(#[trigger] s[i]),
    ensures
        s.filter(f) == s,
    decreases s.len(),
{
    reveal(Seq::filter);
    if s.len() > 0 {
        let rest = s.drop_last();
        assert forall|i: int| 0 <= i < rest.len() implies f(#[trigger] rest[i]) by {
            assert(rest[i] == s[i]);
        }
        lemma_all_stay(rest, f);
        assert(f(s[s.len() - 1]));
        assert(s.filter(f) =~= s);
    }
}

/// One snapshot is kept or dropped by its own time alone.
pub proof fn law_single_snapshots(
    h: &mut History,
    t: u64,
    snapshot: String,
    w: Write,
    p: (u64, Seq<char>),
)
    requires
        call_ensures(History::append, (h, t, snapshot), w),
        seen(old(h).points@).contains(p),
        old(h).days > 0,
        p != (t, snapshot@),
    ensures
        seen(final(h).points@).contains(p) <==> p.0 + old(h).days * 86_400 >= t,
{
    broadcast use vstd::seq_lib::group_filter_ensures;

    law_keeping(h, t, snapshot, w);
    let d = old(h).days;
    let f = |p: (u64, Seq<char>)| d == 0 || p.0 + d * 86_400 >= t;
    let kept = seen(old(h).points@).filter(f);
    let after = seen(final(h).points@);
    if kept.contains(p) {
        let k = choose|k: int| 0 <= k < kept.len() && kept[k] == p;
        assert(after[k] == p);
    }
    if after.contains(p) {
        let k = choose|k: int| 0 <= k < after.len() && after[k] == p;
        assert(kept[k] == p);
        assert(f(kept[k]));
    }
}

/// What is to be written: nothing without a file; one line for one snapshot; and after
/// more than 288 snapshots that were dropped, all that is left in place of the file.
pub proof fn law_writing(h: &mut History, t: u64, snapshot: String, w: Write)
    requires
        call_ensures(History::append, (h, t, snapshot), w),
    ensures
        ({
            let counted = old(h).dropped_since_compact + old(h).points@.len() - (
            final(h).points@.len() - 1);
            let dropped = if counted <= usize::MAX {
                counted
            } else {
                usize::MAX as int
            };
            &&& w is Nothing <==> !old(h).persistent
            &&& w is Rewrite <==> old(h).persistent && dropped > 288
            &&& final(h).dropped_since_compact == if w is Rewrite {
                0
            } else {
                dropped
            }
        }),
{
    let kept = history::retained(history::points_of(old(h).points@), t, old(h).days);
    assert(history::points_of(final(h).points@).len() == final(h).points@.len());
    assert(history::points_of(old(h).points@).len() == old(h).points@.len());
    assert(kept.len() <= old(h).points@.len()) by {
        lemma_filter_shrinks(
            history::points_of(old(h).points@),
            |p: (u64, Seq<char>)| p.0 >= history::cutoff(t, old(h).days),
        );
    }
}

proof fn lemma_filter_shrinks<A>(s: Seq<A>, f: spec_fn(A) -> bool)
    ensures
        s.filter(f).len() <= s.len(),
    decreases s.len(),
{
    reveal(Seq::filter);
    if s.len() > 0 {
        lemma_filter_shrinks(s.drop_last(), f);
    }
}

/// A file that was rewritten holds what the history holds: loading it gives the same
/// snapshots, ordered by their times, those of one time in the order they had.
pub proof fn law_loading(
    h: &mut History,
    t: u64,
    snapshot: String,
    w: Write,
    data: &[u8],
    persistent: bool,
    days: u64,
    r: History,
    at: u64,
)
    requires
        call_ensures(History::append, (h, t, snapshot), w),
        w matches Write::Rewrite(all) && data@ == vstd::utf8::encode_utf8(all@),
        call_ensures(History::load, (data, persistent, days), r),
    ensures
        forall|i: int, j: int|
            0 <= i <= j < r.points@.len() ==> (#[trigger] r.points@[i]).0 <= (
            #[trigger] r.points@[j]).0,
        taken_at(r.points@, at) == taken_at(final(h).points@, at),
        r.days == days,
        r.persistent == persistent,
        r.dropped_since_compact == 0,
{
    lemma_loaded(data, persistent, days, r, at);
    assert(seen(final(h).points@) == history::points_of(final(h).points@));
}

proof fn lemma_loaded(data: &[u8], persistent: bool, days: u64, r: History, at: u64)
    requires
        call_ensures(History::load, (data, persistent, days), r),
    ensures
        forall|i: int, j: int|
            0 <= i <= j < r.points@.len() ==> (#[trigger] r.points@[i]).0 <= (
            #[trigger] r.points@[j]).0,
        taken_at(r.points@, at) == of_time(history::points_in(history::lines(data@)), at),
{
    let s = history::points_in(history::lines(data@));
    let p = history::points_of(r.points@);
    assert(seen(r.points@) == p);
    assert(history::at_time(p, at) == history::at_time(s, at));
    lemma_of_time(p, at);
    lemma_of_time(s, at);
    assert forall|i: int, j: int| 0 <= i <= j < r.points@.len() implies (
    #[trigger] r.points@[i]).0 <= (#[trigger] r.points@[j]).0 by {
        assert(p[i].0 == r.points@[i].0 && p[j].0 == r.points@[j].0);
    }
}

/// A line that was added to a file adds its snapshot, behind those of its time, and
/// leaves all others.
pub proof fn law_adding_lines(
    h: &mut History,
    t: u64,
    snapshot: String,
    w: Write,
    file: &[u8],
    more: &[u8],
    persistent: bool,
    days: u64,
    before: History,
    after: History,
    at: u64,
)
    requires
        call_ensures(History::append, (h, t, snapshot), w),
        history::intact(file@),
        w matches Write::Append(line) && more@ == file@ + vstd::utf8::encode_utf8(line@),
        call_ensures(History::load, (file, persistent, days), before),
        call_ensures(History::load, (more, persistent, days), after),
    ensures
        taken_at(after.points@, at) == taken_at(before.points@, at) + if at == t {
            seq![(t, snapshot@)]
        } else {
            Seq::empty()
        },
        history::intact(more@),
{
    let line = w->Append_0@;
    let bytes = vstd::utf8::encode_utf8(line);
    lemma_loaded(file, persistent, days, before, at);
    lemma_loaded(more, persistent, days, after, at);
    history::law_log_grows(file@, bytes);
    let s = history::points_in(history::lines(file@));
    assert(history::reads_back(line, (t, snapshot@)));
    assert(history::points_in(history::lines(bytes)) == seq![(t, snapshot@)]);
    assert(s + seq![(t, snapshot@)] =~= s.push((t, snapshot@)));
    assert(s.push((t, snapshot@)).drop_last() =~= s);
    let a = history::lines(file@);
    let b = history::lines(bytes);
    assert(more@.last() == bytes.last());
    assert forall|i: int| 0 <= i < history::lines(more@).len() implies vstd::utf8::valid_utf8(
        #[trigger] history::lines(more@)[i],
    ) by {
        if i < a.len() {
            assert(history::lines(more@)[i] == a[i]);
        } else {
            assert(history::lines(more@)[i] == b[i - a.len()]);
        }
    }
}

/// Of a row, every one at a distance from the one before, and the last.
pub open spec fn spaced(
    all: Seq<(u64, Seq<char>)>,
    some: Seq<(u64, Seq<char>)>,
    stride: int,
) -> bool {
    &&& some.len() > 0
    &&& (some.len() - 2) * stride < all.len() - 1 <= (some.len() - 1) * stride
    &&& forall|j: int| 0 <= j < some.len() - 1 ==> #[trigger] some[j] == all[j * stride]
    &&& some.last() == all.last()
}

/// A range holds only snapshots of its span, in their order: all of them where they are
/// no more than asked for, else the first, the last, and those between at one distance.
pub proof fn law_ranges(h: &History, from: u64, to: u64, max: usize, r: Vec<(u64, String)>)
    requires
        call_ensures(History::range, (h, from, to, max), r),
    ensures
        ({
            let hits = seen(h.points@).filter(|p: (u64, Seq<char>)| from <= p.0 <= to);
            let most = if max < 2 {
                2int
            } else {
                max as int
            };
            let n = hits.len() as int;
            &&& hits.len() <= most ==> seen(r@) == hits
            &&& n > most ==> exists|stride: int|
                stride * most >= n > (stride - 1) * most && #[trigger] spaced(hits, seen(r@), stride)
        }),
{
    let hits = seen(h.points@).filter(|p: (u64, Seq<char>)| from <= p.0 <= to);
    let most = if max < 2 {
        2int
    } else {
        max as int
    };
    let n = hits.len() as int;
    assert(seen(h.points@) == history::points_of(h.points@));
    lemma_filters_agree(
        seen(h.points@),
        |p: history::Point| from <= p.0 <= to,
        |p: (u64, Seq<char>)| from <= p.0 <= to,
    );
    assert(hits == history::within(history::points_of(h.points@), from, to));
    assert(seen(r@).len() == r@.len());
    assert(seen(r@) == history::sampled(hits, max as int));
    assert(seen(r@) == history::points_of(r@));
    if n > 0 {
        history::law_range_is_sampled(hits, max);
        let stride = history::stride_for(n, max as int);
        history::lemma_sampled_evenly(hits, max);
        assert(spaced(hits, seen(r@), stride));
    } else {
        history::lemma_nothing_sampled(hits, max);
    }
}

/// A change of the retention changes nothing else.
pub proof fn law_retention_is_set(h: &mut History, days: u64)
    requires
        call_ensures(History::set_days, (h, days), ()),
    ensures
        final(h).days == days,
        seen(final(h).points@) == seen(old(h).points@),
        final(h).persistent == old(h).persistent,
        final(h).dropped_since_compact == old(h).dropped_since_compact,
{
    assert(seen(old(h).points@) == history::points_of(old(h).points@));
    assert(seen(final(h).points@) == history::points_of(final(h).points@));
    assert(old(h)@.persistent == old(h).persistent);
    assert(final(h)@.persistent == final(h).persistent);
    assert(final(h)@.dropped == final(h).dropped_since_compact);
    assert(final(h)@.days == final(h).days);
}

/// A query spans what it says, and a day up to now where it does not say.
pub proof fn law_queries(
    now: u64,
    from: &Option<String>,
    to: &Option<String>,
    r: (u64, u64),
    a: u64,
    b: u64,
)
    requires
        call_ensures(history::query_span, (now, from, to), r),
    ensures
        *from is None ==> r.0 == if now >= 86_400 {
            now - 86_400
        } else {
            0
        },
        *to is None ==> r.1 == now,
        *from matches Some(s) ==> s@ == digits::numeral(a as nat, 10) ==> r.0 == a,
        *to matches Some(s) ==> s@ == digits::numeral(b as nat, 10) ==> r.1 == b,
{
    digits::law_numerals_read_back(a, 10);
    digits::law_numerals_read_back(b, 10);
}

/// A query is answered with one object for each snapshot, in their order.
pub proof fn law_query_answers(points: &Vec<(u64, String)>, r: String)
    requires
        call_ensures(history::query_answer, (points,), r),
    ensures
        exists|list: Seq<Tree>|
            #![trigger json::rendering(Tree::Array(list))]
            {
                &&& r@ == json::rendering(Tree::Array(list))
                &&& list.len() == points@.len()
                &&& forall|i: int|
                    0 <= i < list.len() ==> {
                        &&& #[trigger] list[i] is Object
                        &&& list[i]->Object_0.dom() == set!["t"@, "m"@]
                        &&& list[i]->Object_0["t"@] == Tree::UInt(points@[i].0)
                        &&& list[i]->Object_0["m"@] == Tree::Str(points@[i].1@)
                    }
            },
{
    reveal_strlit("t");
    reveal_strlit("m");
    assert("t"@[0] != "m"@[0]);
    let list = history::points_of(points@).map_values(|p: (u64, Seq<char>)| history::point_tree(p));
    assert forall|i: int| 0 <= i < list.len() implies {
        &&& #[trigger] list[i] is Object
        &&& list[i]->Object_0.dom() == set!["t"@, "m"@]
        &&& list[i]->Object_0["t"@] == Tree::UInt(points@[i].0)
        &&& list[i]->Object_0["m"@] == Tree::Str(points@[i].1@)
    } by {
        assert(list[i] == history::point_tree((points@[i].0, points@[i].1@)));
        assert(list[i]->Object_0.dom() =~= set!["t"@, "m"@]);
    }
    assert(r@ == json::rendering(Tree::Array(list)));
}

/// The number that eight bytes are, the highest first.
pub open spec fn number_of(b: Seq<u8>) -> int {
    b[0] * 0x100_0000_0000_0000 + b[1] * 0x1_0000_0000_0000 + b[2] * 0x100_0000_0000 + b[3]
        * 0x1_0000_0000 + b[4] * 0x100_0000 + b[5] * 0x1_0000 + b[6] * 0x100 + b[7]
}

proof fn lemma_be_bytes(n: u64)
    ensures
        auth::be_bytes(n).len() == 8,
        number_of(auth::be_bytes(n)) == n,
{
    lemma_cut(n);
}

/// Secrets are the same exactly if they are equal.
pub proof fn law_secrets(a: &str, b: &str, r: bool)
    requires
        call_ensures(auth::ct_eq, (a, b), r),
    ensures
        r <==> a@ == b@,
{
}

/// A guard starts with what it is given and no failure.
pub proof fn law_new_guards(
    password: Option<String>,
    trust_proxy: bool,
    drawn: Result<Vec<u8>, NoRandomness>,
    now: u64,
    r: Result<Admin, NoRandomness>,
    a: &Admin,
    on: bool,
    typed: &str,
    fits: bool,
)
    requires
        call_ensures(Admin::with_draw, (password, trust_proxy, drawn, now), r),
        r matches Ok(made) && *a == made,
        call_ensures(Admin::enabled, (a,), on),
        call_ensures(Admin::password_matches, (a, typed), fits),
    ensures
        drawn matches Ok(key) && a@.signing_key == key@,
        a@.trust_proxy == trust_proxy,
        a@.window_start == now,
        a@.failures == 0,
        on <==> password is Some,
        fits <==> (password matches Some(p) && p@ == typed@),
{
}

/// A session that was signed is good up to its expiry, that second included, under the
/// key that signed it.
pub proof fn law_signed_sessions(
    a: &Admin,
    expiry: u64,
    signed: String,
    b: &Admin,
    token: &str,
    now: u64,
    r: bool,
)
    requires
        call_ensures(Admin::sign, (a, expiry), signed),
        a@.signing_key == b@.signing_key,
        token@ == signed@,
        call_ensures(Admin::verify_at, (b, token, now), r),
    ensures
        r <==> now <= expiry,
{
    auth::law_sessions_last_until_they_expire(a@.signing_key, expiry, now);
}

/// A session that is accepted ends in the tag, under the guard's key, of an expiry that
/// is not over: nothing else is accepted.
pub proof fn law_forged_sessions(a: &Admin, token: &str, now: u64, r: bool)
    requires
        call_ensures(Admin::verify_at, (a, token, now), r),
    ensures
        r ==> exists|head: Seq<char>, expiry: Seq<u8>|
            {
                &&& expiry.len() == 8
                &&& number_of(expiry) >= now
                &&& digits::parsed(head, 16) == Some(number_of(expiry) as u64)
                &&& token@ == #[trigger] (head + seq!['.'] + digits::hex_of(
                    crypto::hmac_sha256_tag(a@.signing_key, expiry),
                ))
            },
{
    if r {
        let (head, tag) = text::split_once_at(token@, '.')->0;
        let at = digits::parsed(head, 16)->0;
        let bytes = auth::be_bytes(at);
        lemma_be_bytes(at);
        text::lemma_find(token@, '.');
        let i = text::find(token@, '.');
        assert(token@ =~= head + seq!['.'] + tag);
        assert(number_of(bytes) as u64 == at);
        assert(token@ == head + seq!['.'] + digits::hex_of(
            crypto::hmac_sha256_tag(a@.signing_key, bytes),
        ));
    }
}

/// One more, as long as there is room to count.
pub open spec fn one_more(n: u32) -> int {
    if n < u32::MAX {
        n + 1
    } else {
        n as int
    }
}

/// Logins are refused while more than ten failures lie in the minute that the first of
/// them began; a failure after that minute begins another.
pub proof fn law_throttling(a: &mut Admin, now: u64, r: bool)
    requires
        call_ensures(Admin::note_failure_at, (a, now), r),
    ensures
        now < old(a)@.window_start + 60 ==> final(a)@.window_start == old(a)@.window_start
            && final(a)@.failures == one_more(old(a)@.failures),
        now >= old(a)@.window_start + 60 ==> final(a)@.window_start == now && final(a)@.failures
            == 1,
        r <==> final(a)@.failures > 10,
        final(a)@.password == old(a)@.password,
        final(a)@.signing_key == old(a)@.signing_key,
        final(a)@.trust_proxy == old(a)@.trust_proxy,
{
}

pub proof fn law_throttled(a: &Admin, now: u64, r: bool)
    requires
        call_ensures(Admin::is_throttled_at, (a, now), r),
    ensures
        r <==> a@.failures > 10 && now < a@.window_start + 60,
{
}

/// A cookie keeps its token from scripts and from other sites, for the seconds that it
/// is to last, and is sent over https alone where it came that way through a proxy that
/// is trusted.
pub proof fn law_cookies(
    a: &Admin,
    forwarded_proto: Option<&str>,
    token: &str,
    max_age: u64,
    r: String,
)
    requires
        call_ensures(Admin::cookie, (a, forwarded_proto, token, max_age), r),
    ensures
        ({
            let https = forwarded_proto matches Some(p) && crate::laws::words::same_but_for_case(
                p@,
                "https"@,
            );
            &&& a@.trust_proxy && https ==> r@ == "nimproxy_session"@ + "="@ + token@
                + "; HttpOnly; SameSite=Strict; Path=/; Max-Age="@ + digits::numeral(
                max_age as nat,
                10,
            ) + "; Secure"@
            &&& !(a@.trust_proxy && https) ==> r@ == "nimproxy_session"@ + "="@ + token@
                + "; HttpOnly; SameSite=Strict; Path=/; Max-Age="@ + digits::numeral(
                max_age as nat,
                10,
            )
        }),
{
    assert(auth::COOKIE@ == "nimproxy_session"@);
    if let Some(p) = forwarded_proto {
        crate::laws::words::lemma_same_ignoring_case(p@, "https"@);
    }
    reveal_strlit("");
    let base = "nimproxy_session"@ + "="@ + token@
        + "; HttpOnly; SameSite=Strict; Path=/; Max-Age="@ + digits::numeral(max_age as nat, 10);
    assert(base + ""@ =~= base);
}

/// Half a day after a time, or the end of time.
pub open spec fn half_a_day_on(now: u64) -> u64 {
    if now + 43_200 <= u64::MAX {
        (now + 43_200) as u64
    } else {
        u64::MAX
    }
}

/// A session is signed for half a day from now, and its cookie lasts as long; to log
/// out is to be given an empty one that is over at once.
pub proof fn law_session_cookies(
    a: &Admin,
    forwarded_proto: Option<&str>,
    now: u64,
    r: String,
    signed: String,
    token: &str,
    expected: String,
    out: String,
    nothing: &str,
    cleared: String,
)
    requires
        call_ensures(Admin::session_cookie_at, (a, forwarded_proto, now), r),
        call_ensures(Admin::sign, (a, half_a_day_on(now)), signed),
        token@ == signed@,
        call_ensures(Admin::cookie, (a, forwarded_proto, token, 43_200u64), expected),
        call_ensures(auth::logout, (a, forwarded_proto), out),
        nothing@.len() == 0,
        call_ensures(Admin::cookie, (a, forwarded_proto, nothing, 0u64), cleared),
    ensures
        r@ == expected@,
        out@ == cleared@,
{
    assert(nothing@ =~= Seq::<char>::empty());
}

/// A login is granted exactly with the right password while logins are not throttled;
/// only a wrong password counts as a failure.
pub proof fn law_logging_in(
    a: &mut Admin,
    forwarded_proto: Option<&str>,
    body: &str,
    now: u64,
    r: Login,
    typed: Option<String>,
)
    requires
        call_ensures(auth::login_submit_at, (a, forwarded_proto, body, now), r),
        call_ensures(form::form_field, (body, "password"), typed),
    ensures
        ({
            let throttled = old(a)@.failures > 10 && now < old(a)@.window_start + 60;
            let given = match typed {
                Some(t) => t@,
                None => Seq::empty(),
            };
            let right = old(a)@.password == Some(given);
            &&& r is Throttled <==> throttled
            &&& r is Granted <==> !throttled && right
            &&& r is Rejected <==> !throttled && !right
        }),
        !(r is Rejected) ==> final(a)@ == old(a)@,
        r is Rejected ==> final(a)@.failures > 0 && final(a)@.password == old(a)@.password
            && final(a)@.signing_key == old(a)@.signing_key,
        r is Rejected && now < old(a)@.window_start + 60 ==> final(a)@.failures == one_more(
            old(a)@.failures,
        ) && final(a)@.window_start == old(a)@.window_start,
        r is Rejected && now >= old(a)@.window_start + 60 ==> final(a)@.failures == 1
            && final(a)@.window_start == now,
{
}

/// What a login grants is the cookie of a session from now.
pub proof fn law_granted_cookies(
    a: &mut Admin,
    same: &Admin,
    forwarded_proto: Option<&str>,
    body: &str,
    now: u64,
    r: Login,
    cookie: String,
)
    requires
        call_ensures(auth::login_submit_at, (a, forwarded_proto, body, now), r),
        same@ == old(a)@,
        call_ensures(Admin::session_cookie_at, (same, forwarded_proto, now), cookie),
    ensures
        r matches Login::Granted(c) ==> c@ == cookie@,
{
    if let Login::Granted(c) = r {
        assert(r.grants() == Some(c@));
    }
}

/// The part of a cookie header that carries a session.
pub open spec fn carries(part: Seq<char>, token: Seq<char>) -> bool {
    text::trimmed(part) == "nimproxy_session="@ + token
}

proof fn lemma_first_token(parts: Seq<Seq<char>>)
    ensures
        auth::first_token(parts) is None ==> forall|i: int, t: Seq<char>|
            0 <= i < parts.len() ==> !#[trigger] carries(parts[i], t),
        auth::first_token(parts) matches Some(token) ==> exists|i: int|
            {
                &&& 0 <= i < parts.len()
                &&& #[trigger] carries(parts[i], token)
                &&& forall|j: int, t: Seq<char>|
                    0 <= j < i ==> !#[trigger] carries(parts[j], t)
            },
    decreases parts.len(),
{
    let p = "nimproxy_session="@;
    assert(auth::COOKIE@ + "="@ =~= p) by {
        reveal_strlit("nimproxy_session");
        reveal_strlit("=");
        reveal_strlit("nimproxy_session=");
    }
    if parts.len() > 0 {
        let whole = text::trimmed(parts[0]);
        if auth::token_in(parts[0]) is Some {
            let token = auth::token_in(parts[0])->0;
            assert(whole =~= p + token);
            assert(carries(parts[0], token));
        } else {
            assert forall|t: Seq<char>| !#[trigger] carries(parts[0], t) by {
                if carries(parts[0], t) {
                    assert(whole.subrange(0, p.len() as int) =~= p);
                }
            }
            let rest = parts.drop_first();
            lemma_first_token(rest);
            if let Some(token) = auth::first_token(rest) {
                let i = choose|i: int|
                    {
                        &&& 0 <= i < rest.len()
                        &&& #[trigger] carries(rest[i], token)
                        &&& forall|j: int, t: Seq<char>|
                            0 <= j < i ==> !#[trigger] carries(rest[j], t)
                    };
                assert(carries(parts[i + 1], token));
                assert forall|j: int, t: Seq<char>| 0 <= j < i + 1 implies !#[trigger] carries(
                    parts[j],
                    t,
                ) by {
                    if j > 0 {
                        assert(parts[j] == rest[j - 1]);
                        assert(!carries(rest[j - 1], t));
                    }
                }
            } else {
                assert forall|i: int, t: Seq<char>|
                    0 <= i < parts.len() implies !#[trigger] carries(parts[i], t) by {
                    if i > 0 {
                        assert(parts[i] == rest[i - 1]);
                        assert(!carries(rest[i - 1], t));
                    }
                }
            }
        }
    }
}

/// The session of a cookie header is the first that it carries, between semicolons.
pub proof fn law_cookie_tokens(cookie: &str, r: Option<String>)
    requires
        call_ensures(auth::cookie_token, (cookie,), r),
    ensures
        ({
            let parts = text::split_at_each(cookie@, ';');
            &&& r is None ==> forall|i: int, t: Seq<char>|
                0 <= i < parts.len() ==> !#[trigger] carries(parts[i], t)
            &&& r matches Some(token) ==> exists|i: int|
                {
                    &&& 0 <= i < parts.len()
                    &&& #[trigger] carries(parts[i], token@)
                    &&& forall|j: int, t: Seq<char>| 0 <= j < i ==> !#[trigger] carries(parts[j], t)
                }
        }),
{
    lemma_first_token(text::split_at_each(cookie@, ';'));
    assert(auth::optional_text(r) == auth::first_token(text::split_at_each(cookie@, ';')));
}

/// Of basic credentials the password is what follows the first colon, or all of it.
pub proof fn law_basic_passwords(
    b64: &str,
    r: Option<String>,
    bytes: Option<Vec<u8>>,
    user: Seq<char>,
    secret: Seq<char>,
)
    requires
        call_ensures(auth::decode_basic_password, (b64,), r),
        call_ensures(base64::base64_decode, (b64,), bytes),
        !user.contains(':'),
    ensures
        bytes is None ==> r is None,
        bytes matches Some(b) ==> !vstd::utf8::valid_utf8(b@) ==> r is None,
        bytes matches Some(b) ==> b@ == vstd::utf8::encode_utf8(user + seq![':'] + secret) ==> (
        r matches Some(p) && p@ == secret),
        bytes matches Some(b) ==> b@ == vstd::utf8::encode_utf8(user) ==> (r matches Some(p) && p@
            == user),
{
    assert(auth::optional_text(r) == auth::basic_password(b64@));
    if let Some(b) = bytes {
        let whole = user + seq![':'] + secret;
        text::lemma_split_joined(user, ':', secret);
        text::lemma_find(user, ':');
        vstd::utf8::encode_utf8_decode_utf8(whole);
        vstd::utf8::encode_utf8_decode_utf8(user);
        vstd::utf8::encode_utf8_valid_utf8(whole);
        vstd::utf8::encode_utf8_valid_utf8(user);
    }
}

/// The dashboard opens without a password where none is set, to a session that is good,
/// and to the password itself, as a bearer token or in basic credentials: to nothing
/// else. A browser that is refused is shown the login.
pub proof fn law_entering(
    a: &Admin,
    headers: &Headers,
    now: u64,
    r: bool,
    v: Verdict,
    cookie: &str,
    carried: Option<String>,
    token: &str,
    good: bool,
    sent: &str,
    basic: Option<String>,
)
    requires
        call_ensures(auth::authorized_at, (a, headers, now), r),
        call_ensures(auth::require_admin_at, (a, headers, now), v),
        call_ensures(auth::cookie_token, (cookie,), carried),
        headers.cookie matches Some(c) ==> cookie@ == c@,
        carried matches Some(t) ==> token@ == t@,
        call_ensures(Admin::verify_at, (a, token, now), good),
        call_ensures(auth::decode_basic_password, (sent,), basic),
        forall|b: Seq<char>|
            headers.authorization matches Some(h) && h@ == #[trigger] ("Basic "@ + b) ==> sent@
                == text::trimmed(b),
    ensures
        ({
            let by_session = headers.cookie is Some && carried is Some && good;
            let by_bearer = exists|b: Seq<char>|
                headers.authorization is Some && headers.authorization->0@ == #[trigger] (
                "Bearer "@ + b) && a@.password == Some(text::trimmed(b));
            let by_basic = exists|b: Seq<char>|
                headers.authorization is Some && headers.authorization->0@ == #[trigger] (
                "Basic "@ + b) && basic is Some && a@.password == Some(basic->0@);
            &&& r <==> a@.password is None || by_session || by_bearer || by_basic
            &&& v is Pass <==> r
            &&& v is Login <==> !r && headers.accept is Some && exists|x: Seq<char>, y: Seq<char>|
                headers.accept->0@ == #[trigger] (x + "text/html"@ + y)
        }),
{
    let password = a@.password;
    if let Some(h) = headers.authorization {
        let p = "Bearer "@;
        let q = "Basic "@;
        if text::stands_at(h@, p, 0) {
            let b = h@.skip(p.len() as int);
            assert(h@ =~= p + b);
            assert(text::after_prefix(h@, p) == Some(b));
        }
        if text::stands_at(h@, q, 0) {
            let b = h@.skip(q.len() as int);
            assert(h@ =~= q + b);
            assert(text::after_prefix(h@, q) == Some(b));
            assert(sent@ == text::trimmed(b));
            assert(auth::optional_text(basic) == auth::basic_password(text::trimmed(b)));
        }
        assert forall|b: Seq<char>| h@ == #[trigger] (p + b) implies text::after_prefix(h@, p)
            == Some(b) by {
            assert(h@.subrange(0, p.len() as int) =~= p);
            assert(h@.skip(p.len() as int) =~= b);
        }
        assert forall|b: Seq<char>| h@ == #[trigger] (q + b) implies text::after_prefix(h@, q)
            == Some(b) by {
            assert(h@.subrange(0, q.len() as int) =~= q);
            assert(h@.skip(q.len() as int) =~= b);
        }
    }
    if let Some(c) = headers.cookie {
        assert(auth::optional_text(carried) == auth::first_token(text::split_at_each(c@, ';')));
    }
    if let Some(h) = headers.accept {
        let p = "text/html"@;
        if text::contains_text(h@, p) {
            let i = choose|i: int| text::stands_at(h@, p, i);
            assert(h@ =~= h@.take(i) + p + h@.skip(i + p.len()));
        }
        if exists|x: Seq<char>, y: Seq<char>| h@ == #[trigger] (x + p + y) {
            let (x, y) = choose|x: Seq<char>, y: Seq<char>| h@ == #[trigger] (x + p + y);
            assert(h@.subrange(x.len() as int, (x.len() + p.len()) as int) =~= p);
            assert(text::stands_at(h@, p, x.len() as int));
        }
    }
}

/// The login page says when the password was wrong.
pub proof fn law_login_page(r: (u16, String), again: (u16, String))
    requires
        call_ensures(pages::login_html, (false,), r),
        call_ensures(pages::login_html, (true,), again),
    ensures
        r.0 == 200,
        again.0 == 401,
        exists|i: int|
            0 <= i <= r.1@.len() && again.1@ == #[trigger] r.1@.take(i)
                + pages::LOGIN_ERROR@ + r.1@.skip(i),
{
    let i = pages::LOGIN_HEAD@.len() as int;
    reveal_strlit("");
    assert(r.1@.take(i) =~= pages::LOGIN_HEAD@);
    assert(r.1@.skip(i) =~= pages::LOGIN_TAIL@);
}

proof fn lemma_between(a: Seq<char>, s: Seq<char>, t: Seq<char>, b: Seq<char>)
    requires
        a + s + b == a + t + b,
    ensures
        s == t,
{
    assert((a + s + b).len() == a.len() + s.len() + b.len());
    assert((a + t + b).len() == a.len() + t.len() + b.len());
    assert(s =~= (a + s + b).subrange(a.len() as int, (a.len() + s.len()) as int));
    assert(t =~= (a + t + b).subrange(a.len() as int, (a.len() + t.len()) as int));
}

/// What a cookie says besides its token.
pub open spec fn cookie_end(admin: auth::AdminView, forwarded_proto: Option<&str>) -> Seq<char> {
    "; HttpOnly; SameSite=Strict; Path=/; Max-Age="@ + digits::numeral(43_200, 10) + if
    admin.trust_proxy && auth::came_over_https(forwarded_proto) {
        "; Secure"@
    } else {
        ""@
    }
}

proof fn lemma_cookie_tokens_agree(
    a: &Admin,
    forwarded_proto: Option<&str>,
    s: Seq<char>,
    t: Seq<char>,
)
    requires
        auth::cookie_text(s, 43_200, a@.trust_proxy && auth::came_over_https(forwarded_proto))
            == auth::cookie_text(
            t,
            43_200,
            a@.trust_proxy && auth::came_over_https(forwarded_proto),
        ),
    ensures
        s == t,
{
    let head = auth::COOKIE@ + "="@;
    let end = cookie_end(a@, forwarded_proto);
    let secure = a@.trust_proxy && auth::came_over_https(forwarded_proto);
    assert(auth::cookie_text(s, 43_200, secure) =~= head + s + end);
    assert(auth::cookie_text(t, 43_200, secure) =~= head + t + end);
    lemma_between(head, s, t, end);
}

/// The digest of a text, in hexadecimal.
pub open spec fn digest_text(s: Seq<char>) -> Seq<char> {
    digits::hex_of(crypto::sha256_digest(vstd::utf8::encode_utf8(s)))
}

/// Two texts begin with the same eight characters.
pub open spec fn same_beginning(a: Seq<char>, b: Seq<char>) -> bool {
    a == b || (forall|i: int| 0 <= i < 8 && i < a.len() && i < b.len() ==> #[trigger] a[i] == b[i])
}

/// The session that a user is given opens for that user, for half a day, in every store
/// that holds them as they were: with the same name, and a password whose digest
/// begins as theirs did.
pub proof fn law_user_sessions(
    a: &Admin,
    forwarded_proto: Option<&str>,
    u: &User,
    now: u64,
    given: String,
    token: &str,
    again: String,
    store: &StoredConfig,
    later: u64,
    r: Option<&User>,
    i: int,
)
    requires
        call_ensures(sessions::mint_session_cookie, (a, forwarded_proto, u, now), given),
        call_ensures(Admin::cookie, (a, forwarded_proto, token, 43_200u64), again),
        given@ == again@,
        call_ensures(sessions::session_user_at, (a, store, token, later), r),
    ensures
        0 <= i < store.users@.len() && store.users@[i] == *u && later <= half_a_day_on(now)
            ==> r is Some,
        r matches Some(v) ==> {
            &&& later <= half_a_day_on(now)
            &&& v.username@ == u.username@
            &&& same_beginning(digest_text(v.password_hash@), digest_text(u.password_hash@))
            &&& exists|k: int| 0 <= k < store.users@.len() && (#[trigger] store.users@[k])@ == v@
        },
{
    let key = a@.signing_key;
    let end = half_a_day_on(now);
    let minted = sessions::user_token(key, end, u@);
    lemma_cookie_tokens_agree(a, forwarded_proto, minted, token@);
    sessions::law_user_sessions_last_until_they_expire(key, end, u@, later);
    if 0 <= i < store.users@.len() && store.users@[i] == *u {
        assert(store@.users[i] == u@);
    }
    if let Some(v) = r {
        let k = choose|k: int|
            {
                &&& 0 <= k < store@.users.len()
                &&& v@ == #[trigger] store@.users[k]
                &&& sessions::opens_for(key, token@, later, v@)
            };
        assert(store.users@[k]@ == v@);
        if u@.username != v@.username || sessions::fragment(u@.password_hash)
            != sessions::fragment(v@.password_hash) {
            sessions::law_user_sessions_belong_to_their_user(key, end, u@, v@, later);
        }
        let at = choose|at: u64| at >= later && token@ == #[trigger] sessions::user_token(key, at, v@);
        let x = digest_text(v.password_hash@);
        let y = digest_text(u.password_hash@);
        assert forall|i: int| 0 <= i < 8 && i < x.len() && i < y.len() implies #[trigger] x[i]
            == y[i] by {
            assert(sessions::fragment(v@.password_hash)[i] == x[i]);
            assert(sessions::fragment(u@.password_hash)[i] == y[i]);
        }
        assert(sessions::claim(at, v@) == sessions::claim(at, u@));
        assert(token@ == sessions::user_token(key, at, u@));
        assert(sessions::opens_for(key, token@, later, u@));
    }
}

/// A page of the dashboard opens to a user's session, and else as the guard decides.
pub proof fn law_pages_open(
    a: &Admin,
    store: &StoredConfig,
    headers: &Headers,
    now: u64,
    r: Verdict,
    v: Verdict,
    cookie: &str,
    carried: Option<String>,
    token: &str,
    user: Option<&User>,
)
    requires
        call_ensures(sessions::require_session_at, (a, store, headers, now), r),
        call_ensures(auth::require_admin_at, (a, headers, now), v),
        headers.cookie matches Some(c) ==> cookie@ == c@,
        call_ensures(auth::cookie_token, (cookie,), carried),
        carried matches Some(t) ==> token@ == t@,
        call_ensures(sessions::session_user_at, (a, store, token, now), user),
    ensures
        headers.cookie is Some && carried is Some && user is Some ==> r is Pass,
        !(headers.cookie is Some && carried is Some && user is Some) ==> r == v,
{
    if let Some(c) = headers.cookie {
        assert(auth::optional_text(carried) == auth::first_token(text::split_at_each(c@, ';')));
    }
}

/// One round of the key derivation is the tag of the salt and the number one.
pub proof fn law_first_round(secret: &[u8], salt: &[u8], rounds: u64, r: Vec<u8>)
    requires
        rounds <= 1,
        call_ensures(password::pbkdf2, (secret, salt, rounds), r),
    ensures
        r@ == crypto::hmac_sha256_tag(secret@, salt@ + seq![0u8, 0u8, 0u8, 1u8]),
{
}

/// Each round adds, bit by bit, the tag of what the round before added.
pub proof fn law_further_rounds(
    secret: &[u8],
    salt: &[u8],
    n: u64,
    a: Vec<u8>,
    b: Vec<u8>,
    c: Vec<u8>,
)
    requires
        1 <= n <= u64::MAX - 2,
        call_ensures(password::pbkdf2, (secret, salt, n), a),
        call_ensures(password::pbkdf2, (secret, salt, (n + 1) as u64), b),
        call_ensures(password::pbkdf2, (secret, salt, (n + 2) as u64), c),
    ensures
        exists|added: Seq<u8>|
            {
                let next = #[trigger] crypto::hmac_sha256_tag(secret@, added);
                &&& n == 1 ==> added == crypto::hmac_sha256_tag(secret@, a@)
                &&& forall|i: int| 0 <= i < 32 ==> b@[i] == (a@[i] ^ #[trigger] added[i])
                &&& forall|i: int| 0 <= i < 32 ==> c@[i] == (b@[i] ^ #[trigger] next[i])
            },
{
    let added = password::chained(secret@, salt@, (n + 1) as nat);
    let next = password::chained(secret@, salt@, (n + 2) as nat);
    assert(next == crypto::hmac_sha256_tag(secret@, added));
}

/// A password goes with its hash, and with another only where the derived keys agree.
pub proof fn law_hashes(
    secret: &str,
    salt: &[u8],
    rounds: u64,
    kept: String,
    typed: &str,
    text: &str,
    r: bool,
    a: Vec<u8>,
    b: Vec<u8>,
    bytes: &[u8],
    other: &[u8],
)
    requires
        call_ensures(password::hash_with, (secret, salt, rounds), kept),
        text@ == kept@,
        call_ensures(password::verify_password, (typed, text), r),
        bytes@ == vstd::utf8::encode_utf8(secret@),
        other@ == vstd::utf8::encode_utf8(typed@),
        call_ensures(password::pbkdf2, (bytes, salt, rounds), a),
        call_ensures(password::pbkdf2, (other, salt, rounds), b),
    ensures
        kept@ == "pbkdf2-sha256"@ + "$"@ + digits::numeral(rounds as nat, 10) + "$"@
            + digits::hex_of(salt@) + "$"@ + digits::hex_of(a@),
        r <==> a@ == b@,
        typed@ == secret@ ==> r,
{
    assert(password::SCHEME@ == "pbkdf2-sha256"@);
    password::law_passwords_go_with_their_hash(secret@, typed@, salt@, rounds);
    digits::lemma_hex_of(a@, b@);
}

/// A password is hashed with a salt that was drawn, in six hundred thousand rounds.
pub proof fn law_drawn_hashes(
    secret: &str,
    drawn: Result<Vec<u8>, NoRandomness>,
    r: Result<String, NoRandomness>,
    salt: &[u8],
    kept: String,
)
    requires
        call_ensures(password::hash_with_draw, (secret, drawn), r),
        drawn matches Ok(d) ==> salt@ == d@,
        call_ensures(password::hash_with, (secret, salt, 600_000u64), kept),
    ensures
        r is Ok <==> drawn is Ok,
        r matches Ok(h) ==> h@ == kept@,
{
}

/// A session that is good: the tag, under a key, of an expiry that is not over, behind
/// that expiry and a dot.
pub open spec fn good_session(key: Seq<u8>, token: Seq<char>, now: u64) -> bool {
    exists|head: Seq<char>, expiry: Seq<u8>|
        {
            &&& expiry.len() == 8
            &&& number_of(expiry) >= now
            &&& !head.contains('.')
            &&& digits::parsed(head, 16) == Some(number_of(expiry) as u64)
            &&& token == #[trigger] (head + seq!['.'] + digits::hex_of(
                crypto::hmac_sha256_tag(key, expiry),
            ))
        }
}

proof fn lemma_lowest(high: int, low: u8)
    ensures
        (high * 256 + low) / 256 == high,
        (high * 256 + low) % 256 == low,
{
}

/// A number that eight bytes are is cut into the same bytes again.
proof fn lemma_bytes_are_digits(b: Seq<u8>)
    requires
        b.len() == 8,
    ensures
        0 <= number_of(b) <= u64::MAX,
        auth::be_bytes(number_of(b) as u64) == b,
{
    let n7 = b[0] as int;
    let n6 = n7 * 256 + b[1];
    let n5 = n6 * 256 + b[2];
    let n4 = n5 * 256 + b[3];
    let n3 = n4 * 256 + b[4];
    let n2 = n3 * 256 + b[5];
    let n1 = n2 * 256 + b[6];
    let n = n1 * 256 + b[7];
    assert(n == number_of(b));
    lemma_lowest(n1, b[7]);
    lemma_lowest(n2, b[6]);
    lemma_lowest(n3, b[5]);
    lemma_lowest(n4, b[4]);
    lemma_lowest(n5, b[3]);
    lemma_lowest(n6, b[2]);
    lemma_lowest(n7, b[1]);
    let m = n as u64;
    lemma_cut(m);
    assert(auth::be_bytes(m) =~= b);
}

proof fn lemma_cut(n: u64)
    ensures
        ({
            let n0 = n as int;
            let n1 = n0 / 256;
            let n2 = n1 / 256;
            let n3 = n2 / 256;
            let n4 = n3 / 256;
            let n5 = n4 / 256;
            let n6 = n5 / 256;
            let n7 = n6 / 256;
            let b = auth::be_bytes(n);
            &&& b.len() == 8
            &&& b[0] == n7 && b[1] == n6 % 256 && b[2] == n5 % 256 && b[3] == n4 % 256
            &&& b[4] == n3 % 256 && b[5] == n2 % 256 && b[6] == n1 % 256 && b[7] == n0 % 256
        }),
{
    let n1 = n as int / 256;
    let n2 = n1 / 256;
    let n3 = n2 / 256;
    let n4 = n3 / 256;
    let n5 = n4 / 256;
    let n6 = n5 / 256;
    let n7 = n6 / 256;
    assert(n / 0x100 == n1);
    assert(n / 0x1_0000 == n2);
    assert(n / 0x100_0000 == n3);
    assert(n / 0x1_0000_0000 == n4);
    assert(n / 0x100_0000_0000 == n5);
    assert(n / 0x1_0000_0000_0000 == n6);
    assert(n / 0x100_0000_0000_0000 == n7);
    assert(0 <= n7 < 256);
}

proof fn lemma_good_session(key: Seq<u8>, token: Seq<char>, now: u64)
    ensures
        auth::token_valid(key, token, now) <==> good_session(key, token, now),
{
    text::lemma_find(token, '.');
    if auth::token_valid(key, token, now) {
        let (head, tag) = text::split_once_at(token, '.')->0;
        let at = digits::parsed(head, 16)->0;
        let bytes = auth::be_bytes(at);
        lemma_be_bytes(at);
        assert(!head.contains('.'));
        assert(token =~= head + seq!['.'] + tag);
        assert(number_of(bytes) as u64 == at);
        assert(token == head + seq!['.'] + digits::hex_of(crypto::hmac_sha256_tag(key, bytes)));
    }
    if good_session(key, token, now) {
        let (head, expiry) = choose|head: Seq<char>, expiry: Seq<u8>|
            {
                &&& expiry.len() == 8
                &&& number_of(expiry) >= now
                &&& !head.contains('.')
                &&& digits::parsed(head, 16) == Some(number_of(expiry) as u64)
                &&& token == #[trigger] (head + seq!['.'] + digits::hex_of(
                    crypto::hmac_sha256_tag(key, expiry),
                ))
            };
        lemma_bytes_are_digits(expiry);
        text::lemma_split_joined(
            head,
            '.',
            digits::hex_of(crypto::hmac_sha256_tag(key, expiry)),
        );
    }
}

/// A session is accepted exactly if it is good.
pub proof fn law_verifying(a: &Admin, token: &str, now: u64, r: bool)
    requires
        call_ensures(Admin::verify_at, (a, token, now), r),
    ensures
        r <==> good_session(a@.signing_key, token@, now),
{
    lemma_good_session(a@.signing_key, token@, now);
}

/// The same at the time that the clock gives.
pub proof fn law_verifying_now(a: &Admin, token: &str, r: bool)
    requires
        call_ensures(Admin::verify, (a, token), r),
    ensures
        exists|now: u64| r <==> #[trigger] good_session(a@.signing_key, token@, now),
{
    let now = choose|now: u64| r == #[trigger] auth::token_valid(a@.signing_key, token@, now);
    lemma_good_session(a@.signing_key, token@, now);
}

/// The token that a list of parts carries first.
pub open spec fn first_carried(parts: Seq<Seq<char>>, token: Seq<char>) -> bool {
    exists|i: int|
        {
            &&& 0 <= i < parts.len()
            &&& #[trigger] carries(parts[i], token)
            &&& forall|j: int, t: Seq<char>| 0 <= j < i ==> !#[trigger] carries(parts[j], t)
        }
}

/// Who enters: anyone where no password is set, and otherwise whoever brings a good
/// session in a cookie, or the password.
pub open spec fn enters(a: auth::AdminView, headers: Headers, now: u64) -> bool {
    ||| a.password is None
    ||| headers.cookie is Some && exists|token: Seq<char>|
        #[trigger] first_carried(text::split_at_each(headers.cookie->0@, ';'), token)
            && good_session(a.signing_key, token, now)
    ||| headers.authorization is Some && exists|b: Seq<char>|
        headers.authorization->0@ == #[trigger] ("Bearer "@ + b) && a.password == Some(
            text::trimmed(b),
        )
    ||| headers.authorization is Some && exists|b: Seq<char>|
        headers.authorization->0@ == #[trigger] ("Basic "@ + b) && auth::basic_password(
            text::trimmed(b),
        ) is Some && a.password == auth::basic_password(text::trimmed(b))
}

proof fn lemma_first_carried(parts: Seq<Seq<char>>, token: Seq<char>)
    ensures
        first_carried(parts, token) <==> auth::first_token(parts) == Some(token),
{
    lemma_first_token(parts);
    if first_carried(parts, token) {
        let i = choose|i: int|
            {
                &&& 0 <= i < parts.len()
                &&& #[trigger] carries(parts[i], token)
                &&& forall|j: int, t: Seq<char>| 0 <= j < i ==> !#[trigger] carries(parts[j], t)
            };
        assert(auth::first_token(parts) is Some);
        let other = auth::first_token(parts)->0;
        let k = choose|k: int|
            {
                &&& 0 <= k < parts.len()
                &&& #[trigger] carries(parts[k], other)
                &&& forall|j: int, t: Seq<char>| 0 <= j < k ==> !#[trigger] carries(parts[j], t)
            };
        if k < i {
            assert(!carries(parts[k], other));
        }
        if i < k {
            assert(!carries(parts[i], token));
        }
        let p = "nimproxy_session="@;
        let whole = text::trimmed(parts[i]);
        assert(token =~= whole.skip(p.len() as int));
        assert(other =~= whole.skip(p.len() as int));
    }
}

proof fn lemma_prefix(s: Seq<char>, p: Seq<char>, rest: Seq<char>)
    ensures
        text::after_prefix(s, p) == Some(rest) <==> s == p + rest,
{
    if s == p + rest {
        assert(s.subrange(0, p.len() as int) =~= p);
        assert(s.skip(p.len() as int) =~= rest);
    }
    if text::after_prefix(s, p) == Some(rest) {
        assert(s =~= p + rest);
    }
}

proof fn lemma_enters(a: auth::AdminView, headers: Headers, now: u64)
    ensures
        auth::admitted(a, headers, now) <==> enters(a, headers, now),
{
    if let Some(c) = headers.cookie {
        let parts = text::split_at_each(c@, ';');
        if let Some(token) = auth::first_token(parts) {
            lemma_first_carried(parts, token);
            lemma_good_session(a.signing_key, token, now);
        }
        assert forall|token: Seq<char>| #[trigger] first_carried(parts, token) implies
            auth::first_token(parts) == Some(token) by {
            lemma_first_carried(parts, token);
        }
    }
    if let Some(h) = headers.authorization {
        assert forall|b: Seq<char>| h@ == #[trigger] ("Bearer "@ + b) implies text::after_prefix(
            h@,
            "Bearer "@,
        ) == Some(b) by {
            lemma_prefix(h@, "Bearer "@, b);
        }
        assert forall|b: Seq<char>| h@ == #[trigger] ("Basic "@ + b) implies text::after_prefix(
            h@,
            "Basic "@,
        ) == Some(b) by {
            lemma_prefix(h@, "Basic "@, b);
        }
        if let Some(b) = text::after_prefix(h@, "Bearer "@) {
            lemma_prefix(h@, "Bearer "@, b);
        }
        if let Some(b) = text::after_prefix(h@, "Basic "@) {
            lemma_prefix(h@, "Basic "@, b);
        }
    }
}

/// The dashboard opens exactly to those who enter.
pub proof fn law_admitting(
    a: &Admin,
    headers: &Headers,
    now: u64,
    r: bool,
    at_once: bool,
    v: Verdict,
)
    requires
        call_ensures(auth::authorized_at, (a, headers, now), r),
        call_ensures(auth::authorized, (a, headers), at_once),
        call_ensures(auth::require_admin, (a, headers), v),
    ensures
        r <==> enters(a@, *headers, now),
        exists|t: u64| at_once <==> #[trigger] enters(a@, *headers, t),
        exists|t: u64| v is Pass <==> #[trigger] enters(a@, *headers, t),
        !(v is Pass) ==> (v is Login <==> headers.accept is Some && exists|x: Seq<char>, y: Seq<char>|
            headers.accept->0@ == #[trigger] (x + "text/html"@ + y)),
{
    lemma_enters(a@, *headers, now);
    let t = choose|t: u64| at_once == #[trigger] auth::admitted(a@, *headers, t);
    lemma_enters(a@, *headers, t);
    let u = choose|u: u64| v == #[trigger] auth::verdict(a@, *headers, u);
    lemma_enters(a@, *headers, u);
    lemma_wants_html(*headers);
    assert(v is Pass <==> enters(a@, *headers, u));
}

proof fn lemma_wants_html(headers: Headers)
    ensures
        auth::wants_html(auth::optional_text(headers.accept)) <==> headers.accept is Some
            && exists|x: Seq<char>, y: Seq<char>|
            headers.accept->0@ == #[trigger] (x + "text/html"@ + y),
{
    if let Some(h) = headers.accept {
        let p = "text/html"@;
        if text::contains_text(h@, p) {
            let i = choose|i: int| text::stands_at(h@, p, i);
            assert(h@ =~= h@.take(i) + p + h@.skip(i + p.len()));
        }
        if exists|x: Seq<char>, y: Seq<char>| h@ == #[trigger] (x + p + y) {
            let (x, y) = choose|x: Seq<char>, y: Seq<char>| h@ == #[trigger] (x + p + y);
            assert(h@.subrange(x.len() as int, (x.len() + p.len()) as int) =~= p);
            assert(text::stands_at(h@, p, x.len() as int));
        }
    }
}

/// The pages of the dashboard open to those who enter, and to users with a session.
pub proof fn law_pages_open_now(a: &Admin, store: &StoredConfig, headers: &Headers, v: Verdict)
    requires
        call_ensures(sessions::require_session, (a, store, headers), v),
    ensures
        exists|t: u64|
            v is Pass <==> #[trigger] enters(a@, *headers, t) || (headers.cookie is Some
                && exists|token: Seq<char>, i: int|
                #[trigger] first_carried(text::split_at_each(headers.cookie->0@, ';'), token) && 0
                    <= i < store.users@.len() && sessions::opens_for(
                    a@.signing_key,
                    token,
                    t,
                    (#[trigger] store.users@[i])@,
                )),
{
    let t = choose|t: u64|
        v == #[trigger] sessions::session_verdict(a@, store@.users, *headers, t);
    lemma_enters(a@, *headers, t);
    if let Some(c) = headers.cookie {
        let parts = text::split_at_each(c@, ';');
        assert forall|token: Seq<char>| #[trigger] first_carried(parts, token) implies
            auth::first_token(parts) == Some(token) by {
            lemma_first_carried(parts, token);
        }
        assert forall|i: int| 0 <= i < store.users@.len() implies #[trigger] store@.users[i]
            == store.users@[i]@ by {}
        if sessions::user_session_opens(a@, store@.users, Some(c@), t) {
            let token = auth::first_token(parts)->0;
            lemma_first_carried(parts, token);
            let i = choose|i: int|
                0 <= i < store@.users.len() && sessions::opens_for(
                    a@.signing_key,
                    token,
                    t,
                    #[trigger] store@.users[i],
                );
            assert(first_carried(parts, token) && sessions::opens_for(
                a@.signing_key,
                token,
                t,
                store.users@[i]@,
            ));
        }
        if exists|token: Seq<char>, i: int|
            #[trigger] first_carried(parts, token) && 0 <= i < store.users@.len()
                && sessions::opens_for(a@.signing_key, token, t, (#[trigger] store.users@[i])@) {
            let (token, i) = choose|token: Seq<char>, i: int|
                #[trigger] first_carried(parts, token) && 0 <= i < store.users@.len()
                    && sessions::opens_for(a@.signing_key, token, t, (#[trigger] store.users@[i])@);
            assert(sessions::opens_for(a@.signing_key, token, t, store@.users[i]));
        }
    }
    assert(v is Pass <==> enters(a@, *headers, t) || (headers.cookie is Some
        && sessions::user_session_opens(a@, store@.users, auth::optional_text(headers.cookie), t)));
}

/// A failure counts from the time that the clock gives, and so does the throttle.
pub proof fn law_throttling_now(a: &mut Admin, r: bool, b: &Admin, throttled: bool)
    requires
        call_ensures(Admin::note_failure, (a,), r),
        old(a)@.failures < u32::MAX,
        call_ensures(Admin::is_throttled, (b,), throttled),
    ensures
        r <==> final(a)@.failures > 10,
        final(a)@.failures == old(a)@.failures + 1 || final(a)@.failures == 1,
        final(a)@.failures == old(a)@.failures + 1 ==> old(a)@.failures == 0
            || final(a)@.window_start == old(a)@.window_start,
        final(a)@.failures != old(a)@.failures + 1 ==> final(a)@.window_start
            >= old(a)@.window_start + 60,
        final(a)@.password == old(a)@.password,
        final(a)@.signing_key == old(a)@.signing_key,
        throttled ==> b@.failures > 10,
        exists|now: u64| throttled <==> #[trigger] held_off(b@, now),
{
    let now = choose|now: u64| final(a)@ == #[trigger] old(a)@.failed(now);
    let t = choose|t: u64| throttled == #[trigger] b@.throttled(t);
    assert(throttled == held_off(b@, t));
}

/// More than ten failures, and the minute that they began is not over.
pub open spec fn held_off(a: auth::AdminView, now: u64) -> bool {
    a.failures > 10 && now < a.window_start + 60
}

/// A login at the time that the clock gives is granted with the right password alone,
/// and refused with it only while logins are throttled.
pub proof fn law_logging_in_now(
    a: &mut Admin,
    forwarded_proto: Option<&str>,
    body: &str,
    r: Login,
    typed: Option<String>,
)
    requires
        call_ensures(auth::login_submit, (a, forwarded_proto, body), r),
        call_ensures(form::form_field, (body, "password"), typed),
    ensures
        ({
            let given = match typed {
                Some(t) => t@,
                None => Seq::empty(),
            };
            let right = old(a)@.password == Some(given);
            &&& r is Granted ==> right
            &&& r is Rejected ==> !right
            &&& r is Throttled ==> old(a)@.failures > 10
            &&& old(a)@.failures <= 10 ==> (r is Granted <==> right)
            &&& !(r is Rejected) ==> final(a)@ == old(a)@
            &&& r is Rejected ==> final(a)@.failures > 0 && final(a)@.password == old(a)@.password
        }),
{
    let now = choose|now: u64|
        {
            &&& r.grants() == auth::login_grant(
                old(a)@,
                auth::came_over_https(forwarded_proto),
                auth::submitted_password(body@),
                now,
            )
            &&& r is Throttled <==> #[trigger] old(a)@.throttled(now)
            &&& final(a)@ == if r is Rejected {
                old(a)@.failed(now)
            } else {
                old(a)@
            }
        };
    assert(r is Throttled <==> old(a)@.throttled(now));
}

/// A guard is what it is made with; one that draws its key has one of thirty-two bytes.
pub proof fn law_made_guards(
    password: Option<String>,
    trust_proxy: bool,
    key: Vec<u8>,
    now: u64,
    a: Admin,
    drawn: Result<Admin, NoRandomness>,
)
    requires
        call_ensures(Admin::with_key, (password, trust_proxy, key, now), a),
        call_ensures(Admin::new, (password, trust_proxy), drawn),
    ensures
        a@.signing_key == key@,
        a@.trust_proxy == trust_proxy,
        a@.window_start == now,
        a@.failures == 0,
        a@.password is Some <==> password is Some,
        password matches Some(p) ==> a@.password == Some(p@),
        drawn matches Ok(b) ==> b@.signing_key.len() == 32 && b@.trust_proxy == trust_proxy
            && b@.failures == 0 && b@.password == a@.password,
{
}

/// A password is hashed with a salt of sixteen bytes.
pub proof fn law_fresh_hashes(secret: &str, r: Result<String, NoRandomness>, text: &str, ok: bool)
    requires
        call_ensures(password::hash_password, (secret,), r),
        r matches Ok(h) && text@ == h@,
        call_ensures(password::verify_password, (secret, text), ok),
    ensures
        ok,
        exists|salt: Seq<u8>|
            salt.len() == 16 && #[trigger] text::after_prefix(
                text@,
                "pbkdf2-sha256"@ + "$"@ + digits::numeral(600_000, 10) + "$"@ + digits::hex_of(salt)
                    + "$"@,
            ) is Some,
{
    let salt = choose|salt: Seq<u8>|
        salt.len() == password::SALT_LEN && text@ == #[trigger] password::hash_text(
            secret@,
            salt,
            password::ROUNDS,
        );
    password::law_passwords_go_with_their_hash(secret@, secret@, salt, password::ROUNDS);
    let head = "pbkdf2-sha256"@ + "$"@ + digits::numeral(600_000, 10) + "$"@ + digits::hex_of(salt)
        + "$"@;
    assert(password::SCHEME@ == "pbkdf2-sha256"@);
    let rest = digits::hex_of(
        password::derived(vstd::utf8::encode_utf8(secret@), salt, password::ROUNDS as nat),
    );
    assert(text@ =~= head + rest);
    lemma_prefix(text@, head, rest);
}

/// A snapshot is read from an object with a time and a text.
pub proof fn law_reading_snapshots(v: &serde_json::Value, r: Option<(u64, String)>)
    requires
        call_ensures(history::point_of, (v,), r),
    ensures
        ({
            let t = json::contents(*v);
            let whole = t is Object && t->Object_0.contains_key("t"@) && t->Object_0["t"@] is UInt
                && t->Object_0.contains_key("m"@) && t->Object_0["m"@] is Str;
            &&& r is Some <==> whole
            &&& r matches Some(p) ==> t->Object_0["t"@] == Tree::UInt(p.0) && t->Object_0["m"@]
                == Tree::Str(p.1@)
        }),
{
}

} // verus!

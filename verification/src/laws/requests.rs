//! Promises about requests, from the client's key to the last byte of the answer.

use vstd::prelude::*;
use vstd::std_specs::hash::DefaultHasherAdditionalSpecFns;

use std::collections::hash_map::DefaultHasher;

use crate::clients;
use crate::clients::{authenticate, Clients};
use crate::digits;
use crate::errors;
use crate::errors::ErrorReply;
use crate::json;
use crate::json::Tree;
use crate::proxy;
use crate::proxy::{
    Attempt, Buffered, Catalog, Fetched, Handling, Inflight, Penalty, Relayed, Upstream,
};
use crate::request;
use crate::request::Plan;
use crate::sse;
use crate::sse::SseScan;
use crate::startup::Config;
use crate::stream;
use crate::stream::{Event, Next, Phase, Stream};
use crate::time::{Duration, Instant};
use crate::usage::Usage;

verus! {

/// Statuses that are worth waiting out.
pub open spec fn passing(status: u16) -> bool {
    status == 429 || status == 500 || status == 502 || status == 503 || status == 504
}

/// The text that says how long to stay away, as seconds: what it spells, or ten.
pub open spec fn asked_backoff(retry_after: Option<String>, secs: u64) -> bool {
    match retry_after {
        None => secs == 10,
        Some(s) => match digits::parsed(s@, 10) {
            Some(n) => secs == n,
            None => secs == 10,
        },
    }
}

/// A lane is benched for a status, as long as the upstream asked.
pub open spec fn benched_for(p: Penalty, status: u16, retry_after: Option<String>) -> bool {
    &&& p matches Penalty::Benched { reason, backoff }
    &&& reason@ == digits::numeral(status as nat, 10)
    &&& exists|secs: u64|
        #[trigger] asked_backoff(retry_after, secs) && backoff@ == secs * 1_000_000_000
}

/// A lane is benched for a connection that failed, for five seconds.
pub open spec fn benched_for_connect(p: Penalty) -> bool {
    &&& p matches Penalty::Benched { reason, backoff }
    &&& reason@ == "connect"@
    &&& backoff@ == 5_000_000_000
}

proof fn lemma_penalties(p: Penalty, status: u16, retry_after: Option<String>)
    ensures
        proxy::status_penalty(p, status, retry_after) ==> benched_for(p, status, retry_after),
        proxy::connect_penalty(p) ==> benched_for_connect(p),
{
    let secs = proxy::backoff_secs(crate::auth::optional_text(retry_after));
    assert(asked_backoff(retry_after, secs));
}

/// Only these five statuses are worth trying again.
pub proof fn law_retryable(status: u16, r: bool)
    requires
        call_ensures(proxy::retryable, (status,), r),
    ensures
        r <==> passing(status),
{
}

/// A lane stays away as long as the upstream asks, and ten seconds if it does not say
/// or says something that is no number.
pub proof fn law_backoff(retry_after: &Option<String>, r: Duration, n: u64)
    requires
        call_ensures(proxy::backoff_for, (retry_after,), r),
    ensures
        *retry_after is None ==> r@ == 10_000_000_000,
        *retry_after matches Some(s) ==> s@ == digits::numeral(n as nat, 10) ==> r@ == n
            * 1_000_000_000,
        *retry_after matches Some(s) ==> (exists|i: int|
            0 <= i < s@.len() && !('0' <= #[trigger] s@[i] <= '9') && (i > 0 || s@[i] != '+')) ==> r@
            == 10_000_000_000,
        *retry_after matches Some(s) ==> s@.len() == 0 ==> r@ == 10_000_000_000,
{
    digits::law_numerals_read_back(n, 10);
    if let Some(s) = *retry_after {
        let d = digits::unsigned_digits(s@);
        if exists|i: int|
            0 <= i < s@.len() && !('0' <= #[trigger] s@[i] <= '9') && (i > 0 || s@[i] != '+') {
            let i = choose|i: int|
                0 <= i < s@.len() && !('0' <= #[trigger] s@[i] <= '9') && (i > 0 || s@[i] != '+');
            let k = if d.len() == s@.len() {
                i
            } else {
                i - 1
            };
            assert(d[k] == s@[i]);
            assert(digits::digit_value(d[k]) >= 10);
        }
    }
}

/// Exhausted workers are told by the words of the upstream, in an answer that is worth
/// waiting out.
pub proof fn law_classifying(status: u16, body: &str, r: bool)
    requires
        call_ensures(proxy::classify, (status, body), r),
    ensures
        r <==> passing(status) && exists|a: Seq<char>, b: Seq<char>|
            body@ == #[trigger] (a + "Worker local total request limit"@ + b),
{
    let p = "Worker local total request limit"@;
    assert(crate::governor::SIGNATURE@ == p);
    if crate::text::contains_text(body@, p) {
        let i = choose|i: int| crate::text::stands_at(body@, p, i);
        let a = body@.take(i);
        let b = body@.skip(i + p.len());
        assert(body@ =~= a + p + b);
    }
    if exists|a: Seq<char>, b: Seq<char>| body@ == #[trigger] (a + p + b) {
        let (a, b) = choose|a: Seq<char>, b: Seq<char>| body@ == #[trigger] (a + p + b);
        assert(body@.subrange(a.len() as int, (a.len() + p.len()) as int) =~= p);
        assert(crate::text::stands_at(body@, p, a.len() as int));
    }
}

/// An attempt that was answered carries the status and what the upstream asked for.
pub proof fn law_answered(status: u16, retry_after: Option<String>, body: &str, r: Attempt, x: bool)
    requires
        call_ensures(proxy::answered, (status, retry_after, body), r),
        call_ensures(proxy::classify, (status, body), x),
    ensures
        r == (Attempt::Answered { status, retry_after, exhausted: x }),
{
}

/// Without a stream, trouble that may pass is waited out until the deadline, the lane
/// benched as the upstream asks unless the workers of the model are exhausted; every
/// other answer is handed on, and without a slot the client is told that time is up.
pub proof fn law_buffered(attempt: &Attempt, now: Instant, deadline: Instant, b: Buffered)
    requires
        call_ensures(proxy::buffered, (attempt, now, deadline), b),
    ensures
        *attempt is NoSlot <==> b is TimedOut,
        *attempt is Failed ==> (b matches Buffered::Retry(p) && benched_for_connect(p)),
        *attempt matches Attempt::Answered { status, retry_after, exhausted } ==> {
            &&& b is Retry <==> passing(status) && now@ < deadline@
            &&& b is Relay <==> !(passing(status) && now@ < deadline@)
            &&& b matches Buffered::Retry(p) ==> {
                &&& exhausted ==> p is Spared
                &&& !exhausted ==> benched_for(p, status, retry_after)
            }
        },
{
    if let Buffered::Retry(p) = b {
        match *attempt {
            Attempt::Answered { status, retry_after, .. } => {
                lemma_penalties(p, status, retry_after);
            },
            _ => {
                lemma_penalties(p, 0, None);
            },
        }
    }
}

/// The number that a member of an object is.
pub open spec fn number_in(m: Map<Seq<char>, Tree>, key: Seq<char>) -> Option<u64> {
    if m.contains_key(key) && m[key] is UInt {
        Some(m[key]->UInt_0)
    } else {
        None
    }
}

/// The usage that a document reports: the two counts of the object under `usage`.
pub open spec fn usage_told(doc: Tree) -> Option<(Option<u64>, Option<u64>)> {
    if doc is Object && doc->Object_0.contains_key("usage"@) && !(doc->Object_0["usage"@] is Null) {
        let u = doc->Object_0["usage"@];
        if u is Object {
            Some(
                (
                    number_in(u->Object_0, "prompt_tokens"@),
                    number_in(u->Object_0, "completion_tokens"@),
                ),
            )
        } else {
            Some((None, None))
        }
    } else {
        None
    }
}

/// A pair of counts as a usage.
pub open spec fn as_usage(u: Option<(Option<u64>, Option<u64>)>) -> Option<Usage> {
    match u {
        Some((prompt, completion)) => Some(Usage { prompt, completion }),
        None => None,
    }
}

proof fn lemma_usage(doc: Tree)
    ensures
        crate::usage::usage_in(doc) == as_usage(usage_told(doc)),
{
}

/// The usage of an answer is what its `usage` object says, count by count.
pub proof fn law_usage(text: &[u8], r: Option<Usage>)
    requires
        call_ensures(crate::usage::read_usage, (text,), r),
    ensures
        json::reading(text@) is Err ==> r is None,
        json::reading(text@) matches Ok(doc) ==> r == as_usage(usage_told(doc)),
{
    if let Ok(doc) = json::reading(text@) {
        lemma_usage(doc);
    }
}

/// An answer is handed on with its status and its type, and its usage is read where it
/// is a success; an answer that never came in full is a bad gateway.
pub proof fn law_relaying(
    status: u16,
    content_type: &Option<String>,
    body: Option<&[u8]>,
    r: Relayed,
)
    requires
        call_ensures(proxy::relay, (status, content_type, body), r),
    ensures
        body is None ==> (r matches Relayed::Lost(e) && e.status == 502 && e.code@
            == "bad_gateway"@ && e.message@ == "upstream response could not be read"@),
        body matches Some(b) ==> {
            &&& r matches Relayed::Passed { status: s, content_type: c, usage, quality }
            &&& 100 <= status <= 999 ==> s == status
            &&& !(100 <= status <= 999) ==> s == 502
            &&& c@ == match *content_type {
                Some(t) => t@,
                None => "application/json"@,
            }
            &&& !(200 <= status <= 299) ==> usage is None
            &&& 200 <= status <= 299 ==> usage == match json::reading(b@) {
                Ok(doc) => as_usage(usage_told(doc)),
                Err(_) => None,
            }
        },
{
    if let Some(b) = body {
        if let Ok(doc) = json::reading(b@) {
            lemma_usage(doc);
        }
    }
}

/// A request goes to the upstream's address with the path that it came with, under the
/// key of its lane.
pub proof fn law_upstream(
    base_url: &str,
    path_query: &str,
    key: &str,
    content_type: &Option<String>,
    accept: &Option<String>,
    body: &[u8],
    r: Upstream,
)
    requires
        call_ensures(
            proxy::upstream_request,
            (base_url, path_query, key, content_type, accept, body),
            r,
        ),
    ensures
        r.url@ == base_url@ + path_query@,
        r.authorization@ == "Bearer "@ + key@,
        r.content_type is Some <==> *content_type is Some,
        r.content_type is Some ==> r.content_type->0@ == (*content_type)->0@,
        r.accept is Some <==> *accept is Some,
        r.accept is Some ==> r.accept->0@ == (*accept)->0@,
        r.has_body <==> body@.len() > 0,
{
    assert(crate::auth::optional_text(r.content_type) == crate::auth::optional_text(*content_type));
    assert(crate::auth::optional_text(r.accept) == crate::auth::optional_text(*accept));
}

/// A request may wait as long as it is told, from when it starts.
pub proof fn law_deadlines(now: Instant, max_wait: Duration, r: Instant)
    requires
        call_ensures(proxy::deadline, (now, max_wait), r),
    ensures
        r@ == now@ + max_wait@,
{
}

/// The catalog is answered from the cache exactly while it is younger than its time to
/// live, with what was fetched.
pub proof fn law_cached(c: &Catalog, ttl: Duration, now: Instant, r: Option<Vec<u8>>)
    requires
        call_ensures(Catalog::cached, (c, ttl, now), r),
    ensures
        c.fetched is None ==> r is None,
        c.fetched matches Some((at, body)) ==> {
            &&& r is Some <==> ttl@ > 0 && now@ < at@ + ttl@
            &&& r is Some ==> r->0@ == body@
        },
{
}

/// What a fetch brings is kept from then on if it is a success, and otherwise what was
/// kept stays; trouble that may pass benches the lane.
pub proof fn law_refreshing(
    c: &mut Catalog,
    attempt: &Attempt,
    body: &[u8],
    now: Instant,
    r: Fetched,
)
    requires
        call_ensures(Catalog::refreshed, (c, attempt, body, now), r),
    ensures
        ({
            let success = *attempt matches Attempt::Answered { status, .. } && 200 <= status <= 299;
            &&& r is Kept <==> success
            &&& success ==> (final(c).fetched matches Some((at, kept)) && at == now && kept@
                == body@)
            &&& !success ==> final(c).fetched == old(c).fetched
        }),
        *attempt matches Attempt::Answered { status, retry_after, .. } ==> !(200 <= status <= 299)
            ==> {
            &&& r matches Fetched::Passed { status: s, penalty }
            &&& 100 <= status <= 999 ==> s == status
            &&& !(100 <= status <= 999) ==> s == 502
            &&& passing(status) ==> benched_for(penalty, status, retry_after)
            &&& !passing(status) ==> penalty is Spared
        },
        !(*attempt is Answered) ==> r is TimedOut,
{
    if let Fetched::Passed { penalty, .. } = r {
        if let Attempt::Answered { status, retry_after, .. } = *attempt {
            lemma_penalties(penalty, status, retry_after);
        }
    }
}

/// Requests in flight never pass the cap, and one that leaves makes room for another.
pub proof fn law_in_flight(i: &mut Inflight, max: usize, r: bool)
    requires
        call_ensures(Inflight::enter, (i, max), r),
    ensures
        r <==> old(i).count < max,
        r ==> final(i).count == old(i).count + 1,
        !r ==> final(i).count == old(i).count,
{
}

pub proof fn law_leaving(i: &mut Inflight)
    requires
        call_ensures(Inflight::leave, (i,), ()),
    ensures
        old(i).count > 0 ==> final(i).count == old(i).count - 1,
        old(i).count == 0 ==> final(i).count == 0,
{
}

/// A call is let in by its client's key first and by the cap then; a poll of the
/// catalog is answered from the cache, and everything else is planned.
pub proof fn law_handling(
    cfg: &Config,
    authorization: &Option<String>,
    inflight: &mut Inflight,
    method: &str,
    path: &str,
    body: Vec<u8>,
    no_inject: &Vec<String>,
    lanes: usize,
    r: Handling,
    client: Option<String>,
    p: Plan,
)
    requires
        call_ensures(
            proxy::handle,
            (cfg, authorization, inflight, method, path, body, no_inject, lanes),
            r,
        ),
        call_ensures(authenticate, (&cfg.clients, authorization), client),
    ensures
        r is Unauthorized <==> client is None,
        r is Shed <==> client is Some && old(inflight).count >= cfg.max_inflight,
        r is Catalog <==> client is Some && old(inflight).count < cfg.max_inflight && method@
            == "GET"@ && path@ == "/v1/models"@,
        final(inflight).count == old(inflight).count + if r is Catalog || r is Serve {
            1int
        } else {
            0
        },
        r matches Handling::Unauthorized(e) ==> e.status == 401 && e.code@ == "unauthorized"@
            && e.challenge,
        r matches Handling::Shed(e) ==> e.status == 503 && e.code@ == "overloaded"@
            && e.retry_after == Some(5u64),
        r matches Handling::Catalog { client: name } ==> client is Some && name@ == client->0@,
        r matches Handling::Serve { client: name, plan } ==> {
            &&& client is Some
            &&& name@ == client->0@
            &&& planned(
                plan,
                match json::reading(body@) {
                    Ok(t) => Some(t),
                    Err(_) => None,
                },
                body@,
                path@,
                cfg.strict_passthrough,
                no_inject@,
                lanes,
            )
        },
{
    assert(crate::auth::optional_text(client) == clients::admitted_as(
        clients::known(cfg.clients),
        crate::auth::optional_text(*authorization),
    ));
    assert(request::MODELS_PATH@ == "/v1/models"@);
    if let Handling::Serve { client: name, plan } = r {
        lemma_planned(plan, json::document(body@), body@, path@, cfg.strict_passthrough, no_inject@, lanes);
    }
}

/// A member of a document that is an object.
pub open spec fn holds(doc: Option<Tree>, key: Seq<char>) -> bool {
    doc is Some && doc->0 is Object && doc->0->Object_0.contains_key(key)
}

pub open spec fn at(doc: Option<Tree>, key: Seq<char>) -> Tree {
    doc->0->Object_0[key]
}

/// The model that a document names.
pub open spec fn model_named(doc: Option<Tree>) -> Seq<char> {
    if holds(doc, "model"@) && at(doc, "model"@) is Str {
        at(doc, "model"@)->Str_0
    } else {
        "none"@
    }
}

/// A list of texts holds one.
pub open spec fn in_list(list: Seq<String>, s: Seq<char>) -> bool {
    exists|i: int| 0 <= i < list.len() && (#[trigger] list[i])@ == s
}

/// A document that asks for a stream.
pub open spec fn asks_for_stream(doc: Option<Tree>) -> bool {
    holds(doc, "stream"@) && at(doc, "stream"@) == Tree::Bool(true)
}

/// What a plan is for a body that holds `doc`. A usage report is asked for on every
/// streamed chat request that leaves its stream options open, whatever else it holds,
/// unless bodies are not to be touched or the model is known to reject it; then the
/// body is what came with that one member more, and what came is kept. Every other
/// body is sent as it came.
pub open spec fn planned(
    p: Plan,
    doc: Option<Tree>,
    body: Seq<u8>,
    path: Seq<char>,
    strict: bool,
    no_inject: Seq<String>,
    lanes: usize,
) -> bool {
    let asked = asks_for_stream(doc) && path == "/v1/chat/completions"@ && !strict && !holds(
        doc,
        "stream_options"@,
    ) && !in_list(no_inject, model_named(doc));
    &&& p.model@ == model_named(doc)
    &&& p.wants_stream == asks_for_stream(doc)
    &&& p.fallback is Some <==> asked
    &&& !asked ==> p.body@ == body
    &&& asked ==> p.fallback->0@ == body && exists|m: Map<Seq<char>, Tree>|
        #![trigger json::rendering(Tree::Object(m))]
        {
            &&& p.body@ == vstd::utf8::encode_utf8(json::rendering(Tree::Object(m)))
            &&& forall|k: Seq<char>|
                k != "stream_options"@ ==> (m.contains_key(k) <==> #[trigger] holds(doc, k)) && (
                m.contains_key(k) ==> m[k] == at(doc, k))
            &&& m.contains_key("stream_options"@)
            &&& m["stream_options"@] is Object
            &&& m["stream_options"@]->Object_0.contains_key("include_usage"@)
            &&& m["stream_options"@]->Object_0["include_usage"@] == Tree::Bool(true)
            &&& forall|k: Seq<char>|
                #[trigger] m["stream_options"@]->Object_0.contains_key(k) ==> k
                    == "include_usage"@
        }
    &&& forall|i: int|
        0 <= i < p.label@.len() ==> {
            let c = #[trigger] p.label@[i];
            'a' <= c <= 'z' || 'A' <= c <= 'Z' || '0' <= c <= '9' || c == '.' || c == '_' || c
                == '/' || c == ':' || c == '-'
        }
    &&& p.label@.len() <= 64
    &&& p.prefer is Some <==> lanes > 0 && holds(doc, "messages"@) && at(doc, "messages"@) is Array
    &&& p.prefer is Some ==> p.prefer->0 < lanes
    &&& p.shape is Some <==> doc is Some
}

pub proof fn lemma_planned(
    p: Plan,
    doc: Option<Tree>,
    body: Seq<u8>,
    path: Seq<char>,
    strict: bool,
    no_inject: Seq<String>,
    lanes: usize,
)
    requires
        p.serves(doc, body, path, strict, crate::text::views(no_inject), lanes as nat),
    ensures
        planned(p, doc, body, path, strict, no_inject, lanes),
{
    assert(request::CHAT_PATH@ == "/v1/chat/completions"@);
    let views = crate::text::views(no_inject);
    assert(request::model_in(doc) == model_named(doc));
    assert(request::stream_in(doc) == asks_for_stream(doc));
    assert(views.contains(model_named(doc)) <==> in_list(no_inject, model_named(doc))) by {
        if views.contains(model_named(doc)) {
            let i = choose|i: int| 0 <= i < views.len() && views[i] == model_named(doc);
            assert(no_inject[i]@ == model_named(doc));
        }
        if in_list(no_inject, model_named(doc)) {
            let i = choose|i: int|
                0 <= i < no_inject.len() && (#[trigger] no_inject[i])@ == model_named(doc);
            assert(views[i] == model_named(doc));
        }
    }
    if request::injects(doc, path, strict, views) {
        let m = request::injected(doc->0)->Object_0;
        assert(request::injected(doc->0) == Tree::Object(m));
    }
    crate::labels::lemma_sanitized_len(p.model@);
}

/// A request is planned by what its body says.
pub proof fn law_planning(
    body: Vec<u8>,
    path: &str,
    strict: bool,
    no_inject: &Vec<String>,
    lanes: usize,
    p: Plan,
)
    requires
        call_ensures(request::plan, (body, path, strict, no_inject, lanes), p),
    ensures
        planned(
            p,
            match json::reading(body@) {
                Ok(t) => Some(t),
                Err(_) => None,
            },
            body@,
            path@,
            strict,
            no_inject@,
            lanes,
        ),
{
    lemma_planned(p, json::document(body@), body@, path@, strict, no_inject@, lanes);
}

/// A message of a role.
pub open spec fn says(message: Tree, role: Seq<char>) -> bool {
    holds(Some(message), "role"@) && at(Some(message), "role"@) == Tree::Str(role)
}

/// The bytes that a text is hashed by.
pub open spec fn hashed(s: Seq<char>) -> Seq<Seq<u8>> {
    seq![vstd::utf8::encode_utf8(s), seq![0xffu8]]
}

/// The standard hash of what was hashed.
pub open spec fn hash_of(heard: Seq<Seq<u8>>) -> u64 {
    DefaultHasher::spec_finish(heard)
}

/// A conversation's lane is the standard hash of its model, of the system prompt that
/// it begins with, if it does, and of the first message of the user, over the lanes.
pub proof fn law_affinity(body: &serde_json::Value, lanes: usize, r: Option<usize>, u: int)
    requires
        call_ensures(request::affinity, (body, lanes), r),
    ensures
        ({
            let doc = Some(json::contents(*body));
            let model = if holds(doc, "model"@) && at(doc, "model"@) is Str {
                at(doc, "model"@)->Str_0
            } else {
                Seq::empty()
            };
            let listed = holds(doc, "messages"@) && at(doc, "messages"@) is Array;
            let all = at(doc, "messages"@)->Array_0;
            &&& r is Some <==> lanes > 0 && listed
            &&& lanes > 0 && listed && 0 <= u < all.len() && says(all[u], "user"@) && (forall|i: int|
                0 <= i < u ==> !says(#[trigger] all[i], "user"@)) ==> r == Some(
                (hash_of(
                    hashed(model) + (if says(all[0], "system"@) {
                        hashed(json::rendering(all[0]))
                    } else {
                        Seq::empty()
                    }) + hashed(json::rendering(all[u])),
                ) as int % lanes as int) as usize,
            )
        }),
{
    let t = json::contents(*body);
    let doc = Some(t);
    let listed = holds(doc, "messages"@) && at(doc, "messages"@) is Array;
    if lanes > 0 && listed {
        let all = at(doc, "messages"@)->Array_0;
        let model = if holds(doc, "model"@) && at(doc, "model"@) is Str {
            at(doc, "model"@)->Str_0
        } else {
            Seq::empty()
        };
        if 0 <= u < all.len() && says(all[u], "user"@) && (forall|i: int|
            0 <= i < u ==> !says(#[trigger] all[i], "user"@)) {
            lemma_first_said(all, "user"@, u);
            let prompt = if says(all[0], "system"@) {
                seq![all[0]]
            } else {
                Seq::empty()
            };
            reveal_with_fuel(request::hashed_messages, 3);
            let open = request::opening(all);
            assert(open == prompt.push(all[u]));
            assert(open.drop_last() =~= prompt);
            assert(prompt.len() > 0 ==> prompt.drop_last() =~= Seq::<Tree>::empty());
            assert(request::hashed_messages(open) =~= (if says(all[0], "system"@) {
                hashed(json::rendering(all[0]))
            } else {
                Seq::empty()
            }) + hashed(json::rendering(all[u])));
            assert(request::identity(t, all) =~= hashed(model) + (if says(all[0], "system"@) {
                hashed(json::rendering(all[0]))
            } else {
                Seq::empty()
            }) + hashed(json::rendering(all[u])));
        }
    }
}

proof fn lemma_first_said(all: Seq<Tree>, role: Seq<char>, u: int)
    requires
        0 <= u < all.len(),
        says(all[u], role),
        forall|i: int| 0 <= i < u ==> !says(#[trigger] all[i], role),
    ensures
        request::first_of(all, role) == Some(all[u]),
    decreases all.len(),
{
    assert(request::has_role(all[0], role) == says(all[0], role));
    if u > 0 {
        let rest = all.drop_first();
        assert(rest[u - 1] == all[u]);
        assert forall|i: int| 0 <= i < u - 1 implies !says(#[trigger] rest[i], role) by {
            assert(rest[i] == all[i + 1]);
        }
        lemma_first_said(rest, role, u - 1);
    }
}

/// Two clients with one key are one client; a request is let in exactly with the key of
/// a client that is known, under that client's name, or as "local" where none is asked.
pub proof fn law_letting_in(c: &Option<Clients>, authorization: &Option<String>, r: Option<String>)
    requires
        call_ensures(authenticate, (c, authorization), r),
    ensures
        *c is None ==> (r matches Some(name) && name@ == "local"@),
        *c matches Some(known) ==> {
            let token = match *authorization {
                Some(a) => if exists|t: Seq<char>| a@ == #[trigger] ("Bearer "@ + t) {
                    a@.skip(7)
                } else {
                    Seq::empty()
                },
                None => Seq::empty(),
            };
            let shown = if known@.digested {
                digits::hex_of(crate::crypto::sha256_digest(vstd::utf8::encode_utf8(token)))
            } else {
                token
            };
            &&& r is None <==> forall|i: int|
                0 <= i < known@.list.len() ==> (#[trigger] known@.list[i]).0 != shown
            &&& r matches Some(name) ==> exists|i: int|
                #![trigger known@.list[i]]
                {
                    &&& 0 <= i < known@.list.len()
                    &&& known@.list[i] == (shown, name@)
                    &&& forall|j: int|
                        i < j < known@.list.len() ==> (#[trigger] known@.list[j]).0 != shown
                }
        },
{
    assert(crate::auth::optional_text(r) == clients::admitted_as(
        clients::known(*c),
        crate::auth::optional_text(*authorization),
    ));
    if let Some(known) = *c {
        let token = clients::bearer(crate::auth::optional_text(*authorization));
        reveal_strlit("Bearer ");
        if let Some(a) = *authorization {
            if exists|t: Seq<char>| a@ == #[trigger] ("Bearer "@ + t) {
                let t = choose|t: Seq<char>| a@ == #[trigger] ("Bearer "@ + t);
                assert(a@.subrange(0, 7) =~= "Bearer "@);
            } else if crate::text::stands_at(a@, "Bearer "@, 0) {
                assert(a@ =~= "Bearer "@ + a@.skip(7));
            }
        }
        lemma_last_named(known@.list, known@.listed(token));
    }
}

pub proof fn lemma_last_named(list: Seq<(Seq<char>, Seq<char>)>, secret: Seq<char>)
    ensures
        clients::name_for(list, secret) is None <==> forall|i: int|
            0 <= i < list.len() ==> (#[trigger] list[i]).0 != secret,
        clients::name_for(list, secret) matches Some(name) ==> exists|i: int|
            #![trigger list[i]]
            {
                &&& 0 <= i < list.len()
                &&& list[i] == (secret, name)
                &&& forall|j: int| i < j < list.len() ==> (#[trigger] list[j]).0 != secret
            },
    decreases list.len(),
{
    if list.len() > 0 {
        let front = list.drop_last();
        let n = list.len() - 1;
        if list[n].0 == secret {
            assert(list[n] == (secret, list[n].1));
        } else {
            lemma_last_named(front, secret);
            if let Some(name) = clients::name_for(front, secret) {
                let i = choose|i: int|
                    #![trigger front[i]]
                    {
                        &&& 0 <= i < front.len()
                        &&& front[i] == (secret, name)
                        &&& forall|j: int| i < j < front.len() ==> (#[trigger] front[j]).0 != secret
                    };
                assert(list[i] == (secret, name));
                assert forall|j: int| i < j < list.len() implies (#[trigger] list[j]).0 != secret by {
                    if j < n {
                        assert(front[j] == list[j]);
                    }
                }
            } else {
                assert forall|i: int| 0 <= i < list.len() implies (#[trigger] list[i]).0 != secret by {
                    if i < n {
                        assert(front[i] == list[i]);
                    }
                }
            }
        }
    }
}

/// What a stream that fails is sent: one error, and the end mark.
pub open spec fn explained(frame: Option<String>, message: Seq<char>) -> bool {
    frame matches Some(f) && f@ == "data: "@ + json::rendering(
        errors::error_tree("upstream_unavailable"@, message),
    ) + "\n\ndata: [DONE]\n\n"@
}

/// An attempt at a stream leads on by these rules and no others. A 400 right after
/// something was added is tried once more with the body as it came, and the model is
/// remembered. Trouble that may pass is waited out until the deadline, with a comment
/// line, the lane benched as the upstream asks unless the model's workers are
/// exhausted. A success is piped. Every other answer is explained to the client, and
/// without a slot in time the stream ends.
pub proof fn law_stream_attempts(s: &mut Stream, attempt: Attempt, now: Instant, a: stream::Action)
    requires
        call_ensures(Stream::on, (s, Event::Attempted(attempt), now), a),
    ensures
        attempt is NoSlot ==> final(s).phase == Phase::Closed && a.next is Record && a.penalty is Spared
            && explained(a.frame, "proxy timed out waiting for an upstream slot"@),
        attempt is Failed ==> final(s).phase == Phase::Trying && a.next is Queue
            && benched_for_connect(a.penalty) && a.frame is None && !a.remember,
        attempt matches Attempt::Answered { status, retry_after, exhausted } ==> {
            let rejected = status == 400 && old(s).fallback is Some;
            &&& rejected ==> {
                &&& final(s).phase == Phase::Trying
                &&& final(s).body@ == old(s).fallback->0@
                &&& final(s).fallback is None
                &&& a.remember
                &&& a.frame is None
                &&& a.next is Queue
                &&& a.penalty is Spared
            }
            &&& !rejected ==> !a.remember && final(s).body == old(s).body && final(s).fallback
                == old(s).fallback
            &&& passing(status) && now@ < old(s).deadline@ ==> {
                &&& final(s).phase == Phase::Trying
                &&& a.next is Queue
                &&& a.frame matches Some(f)
                &&& f@ == ": retrying\n\n"@
                &&& exhausted ==> a.penalty is Spared
                &&& !exhausted ==> benched_for(a.penalty, status, retry_after)
            }
            &&& passing(status) && now@ >= old(s).deadline@ ==> final(s).phase == Phase::Closed
                && a.next is Record && a.penalty is Spared && explained(
                a.frame,
                "upstream unavailable, retries exhausted"@,
            )
            &&& 200 <= status <= 299 ==> final(s).phase == Phase::Piping && a.next is Read
                && a.frame is None && a.penalty is Spared
            &&& !rejected && !passing(status) && !(200 <= status <= 299) ==> final(s).phase
                == Phase::Rejected(status) && a.next is Explain && a.frame is None && a.penalty is Spared
        },
        final(s).deadline == old(s).deadline,
        final(s).scan == old(s).scan,
        a.next matches Next::Record { label, tokens } ==> label@ == "504"@ && tokens is None,
{
    assert(stream::RETRYING@ == ": retrying\n\n"@);
    match attempt {
        Attempt::Answered { status, retry_after, .. } => {
            lemma_penalties(a.penalty, status, retry_after);
        },
        _ => {
            lemma_penalties(a.penalty, 0, None);
        },
    }
}

/// A stream that was piped to its end is recorded with the tokens that its usage
/// reported, whatever the number of its events; only where no completion count was
/// reported do the events stand for it.
pub proof fn law_stream_accounting(s: &mut Stream, now: Instant, a: stream::Action)
    requires
        call_ensures(Stream::on, (s, Event::Ended, now), a),
    ensures
        a.frame is None,
        a.penalty is Spared,
        a.next matches Next::Record { label, tokens } && label@ == "200"@ && (tokens matches Some(t)
            && {
            &&& t.prompt == old(s).scan.prompt
            &&& old(s).scan.completion matches Some(n) ==> t.completion == n && t.source@
                == "usage"@
            &&& old(s).scan.completion is None ==> t.completion == old(s).scan.events
                && t.source@ == "estimate"@
        }),
        final(s).phase == Phase::Closed,
{
}

/// Two streams that reported the same completion count are recorded with it, however
/// many events each of them had.
pub proof fn law_events_do_not_count_beside_usage(
    s: &mut Stream,
    r: &mut Stream,
    now: Instant,
    a: stream::Action,
    b: stream::Action,
    n: u64,
)
    requires
        call_ensures(Stream::on, (s, Event::Ended, now), a),
        call_ensures(Stream::on, (r, Event::Ended, now), b),
        old(s).scan.completion == Some(n),
        old(r).scan.completion == Some(n),
    ensures
        a.next matches Next::Record { tokens: Some(t), .. } && t.completion == n,
        b.next matches Next::Record { tokens: Some(t), .. } && t.completion == n,
{
}

/// How the other ends of a stream are recorded, and that nothing but a chunk changes
/// what was seen of it.
pub proof fn law_stream_ends(s: &mut Stream, e: Event, now: Instant, a: stream::Action)
    requires
        call_ensures(Stream::on, (s, e, now), a),
    ensures
        e is Gone ==> a.frame is None && (a.next matches Next::Record { label, tokens } && label@
            == "disconnect"@ && tokens is None),
        e is Stalled ==> explained(a.frame, "upstream stream stalled"@) && (a.next matches Next::Record { label, tokens } && label@
            == "stall"@ && tokens is None),
        e is Broken ==> explained(a.frame, "upstream stream interrupted"@) && (a.next matches Next::Record { label, tokens } && label@
            == "stream_error"@ && tokens is None),
        e matches Event::Explained { status, detail } ==> explained(
            a.frame,
            "upstream error "@ + status@ + ": "@ + detail@,
        ),
        e is Explained ==> (old(s).phase matches Phase::Rejected(code) && (a.next matches Next::Record { label, tokens } && label@ == digits::numeral(code as nat, 10)
            && tokens is None)),
        e is Chunk ==> a.next is Read && a.frame is None && final(s).phase == Phase::Piping,
        !(e is Chunk) ==> final(s).scan == old(s).scan,
        !(e is Attempted) ==> a.penalty is Spared && !a.remember,
        e is Gone || e is Stalled || e is Broken || e is Explained || e is Ended ==> final(s).phase
            == Phase::Closed,
{
}

/// A stream is opened with what it is to send, and has seen nothing yet.
pub proof fn law_stream_opening(
    deadline: Instant,
    body: Vec<u8>,
    fallback: Option<Vec<u8>>,
    r: Stream,
)
    requires
        call_ensures(Stream::open, (deadline, body, fallback), r),
    ensures
        r.deadline == deadline,
        r.body == body,
        r.fallback == fallback,
        r.phase == Phase::Trying,
        r.scan.events == 0,
        r.scan.prompt is None,
        r.scan.completion is None,
        r.scan.buf@.len() == 0,
{
}

/// What a client is shown while it waits are comment lines.
pub proof fn law_comments()
    ensures
        stream::CONNECTED@ == ": connected\n\n"@,
        stream::HEARTBEAT@ == ": heartbeat\n\n"@,
        stream::RETRYING@ == ": retrying\n\n"@,
{
}

/// Not white space.
pub open spec fn solid(c: char) -> bool {
    !crate::text::is_space(c)
}

/// White space and nothing else.
pub open spec fn hollow(s: Seq<char>) -> bool {
    forall|i: int| 0 <= i < s.len() ==> !solid(#[trigger] s[i])
}

/// A line that carries data: white space aside, the word, a colon, and the data.
pub open spec fn carries_data(line: Seq<char>, data: Seq<char>) -> bool {
    &&& data.len() > 0 ==> solid(data[0]) && solid(data.last())
    &&& exists|lead: Seq<char>, gap: Seq<char>, tail: Seq<char>|
        hollow(lead) && hollow(gap) && hollow(tail) && line == #[trigger] (lead + "data:"@ + gap
            + data + tail)
}

/// A finished line of a stream is an event exactly if it carries data other than the
/// end mark; the usage that an event reports takes the place of what was reported
/// before, count by count, and everything else leaves it.
pub proof fn law_stream_lines(s: &mut SseScan, piece: &str, line: Seq<char>, data: Seq<char>)
    requires
        call_ensures(SseScan::feed_text, (s, piece), ()),
        old(s).buf@.len() == 0,
        !line.contains('\n'),
        piece@ == line + "\n"@,
    ensures
        carries_data(line, data) ==> {
            let doc = json::reading(vstd::utf8::encode_utf8(data));
            let done = data == "[DONE]"@;
            let told = exists|a: Seq<char>, b: Seq<char>| data == #[trigger] (a + "\"usage\""@ + b);
            let usage = if done || !told || doc is Err {
                None
            } else {
                usage_told(doc->Ok_0)
            };
            &&& final(s).events == old(s).events + if done || old(s).events == u64::MAX {
                0int
            } else {
                1
            }
            &&& final(s).prompt == if usage is Some && (usage->0).0 is Some {
                (usage->0).0
            } else {
                old(s).prompt
            }
            &&& final(s).completion == if usage is Some && (usage->0).1 is Some {
                (usage->0).1
            } else {
                old(s).completion
            }
        },
        (forall|d: Seq<char>| !#[trigger] carries_data(line, d)) ==> {
            &&& final(s).events == old(s).events
            &&& final(s).prompt == old(s).prompt
            &&& final(s).completion == old(s).completion
            &&& final(s).quality == old(s).quality
        },
        final(s).buf@.len() == 0,
{
    let c = old(s).counts();
    assert(old(s).pending() + piece@ =~= line + "\n"@);
    lemma_one_line(c, line);
    if carries_data(line, data) {
        lemma_data_line(*old(s), line, data);
        let text = vstd::utf8::encode_utf8(data);
        if let Ok(t) = json::reading(text) {
            lemma_usage(t);
        }
        lemma_told(data);
    }
    if forall|d: Seq<char>| !#[trigger] carries_data(line, d) {
        lemma_no_data(c, line);
        assert(final(s).counts() == old(s).counts());
    }
}

/// A line of data counts as its data does.
pub proof fn lemma_data_line(scan: SseScan, line: Seq<char>, data: Seq<char>)
    requires
        scan.buf@.len() == 0,
        carries_data(line, data),
        !line.contains('\n'),
    ensures
        scan.counts().after_text(scan.pending() + (line + "\n"@)) == scan.counts().after_data(data),
        sse::kept(sse::unfinished(scan.pending() + (line + "\n"@))) == Seq::<char>::empty(),
{
    let c = scan.counts();
    assert(scan.pending() + (line + "\n"@) =~= line + "\n"@);
    reveal_strlit("\n");
    reveal_strlit("data:");
    let word = "data:"@;
    let (lead, gap, tail) = choose|lead: Seq<char>, gap: Seq<char>, tail: Seq<char>|
        hollow(lead) && hollow(gap) && hollow(tail) && line == #[trigger] (lead + "data:"@ + gap
            + data + tail);
    lemma_one_line(c, line);
    assert(!crate::text::is_space('d') && !crate::text::is_space(':'));
    let empty = Seq::<char>::empty();
    let (core, post) = if data.len() > 0 {
        (word + gap + data, tail + "\n"@)
    } else {
        (word, gap + tail + "\n"@)
    };
    assert(line + "\n"@ =~= lead + core + post);
    assert forall|i: int| 0 <= i < lead.len() implies crate::text::is_space(#[trigger] lead[i]) by {
        assert(!solid(lead[i]));
    }
    assert forall|i: int| 0 <= i < post.len() implies crate::text::is_space(#[trigger] post[i]) by {
        if data.len() > 0 {
            if i < tail.len() {
                assert(!solid(tail[i]));
            }
        } else if i < gap.len() {
            assert(!solid(gap[i]));
        } else if i < gap.len() + tail.len() {
            assert(!solid(tail[i - gap.len()]));
        }
    }
    crate::laws::words::lemma_trimmed_core(lead, core, post);
    assert(core.subrange(0, 5) =~= word);
    if data.len() > 0 {
        assert(core.skip(5) =~= gap + data);
        assert forall|i: int| 0 <= i < gap.len() implies crate::text::is_space(#[trigger] gap[i]) by {
            assert(!solid(gap[i]));
        }
        crate::laws::words::lemma_trimmed_core(gap, data, empty);
    } else {
        assert(core.skip(5) =~= empty);
        assert(data =~= empty);
    }
    assert(c.after_line(line + "\n"@) == c.after_data(data));
}

pub proof fn lemma_told(data: Seq<char>)
    ensures
        crate::text::contains_text(data, "\"usage\""@) <==> exists|a: Seq<char>, b: Seq<char>|
            data == #[trigger] (a + "\"usage\""@ + b),
{
    let p = "\"usage\""@;
    if crate::text::contains_text(data, p) {
        let i = choose|i: int| crate::text::stands_at(data, p, i);
        assert(data =~= data.take(i) + p + data.skip(i + p.len()));
    }
    if exists|a: Seq<char>, b: Seq<char>| data == #[trigger] (a + p + b) {
        let (a, b) = choose|a: Seq<char>, b: Seq<char>| data == #[trigger] (a + p + b);
        assert(data.subrange(a.len() as int, (a.len() + p.len()) as int) =~= p);
        assert(crate::text::stands_at(data, p, a.len() as int));
    }
}

proof fn lemma_one_line(c: sse::Counts, head: Seq<char>)
    requires
        !head.contains('\n'),
    ensures
        c.after_text(head + "\n"@) == c.after_line(head + "\n"@),
        sse::unfinished(head + "\n"@) == Seq::<char>::empty(),
        sse::kept(Seq::<char>::empty()) == Seq::<char>::empty(),
{
    reveal_strlit("\n");
    let all = head + "\n"@;
    assert forall|i: int| 0 <= i < head.len() implies #[trigger] all[i] != '\n' by {
        assert(all[i] == head[i]);
        assert(head.contains(head[i]));
    }
    crate::text::lemma_find_is(all, '\n', head.len() as int);
    assert(all.take((head.len() + 1) as int) =~= all);
    assert(all.skip((head.len() + 1) as int) =~= Seq::<char>::empty());
    reveal_with_fuel(sse::Counts::after_text, 2);
    reveal_with_fuel(sse::unfinished, 2);
}

proof fn lemma_no_data(c: sse::Counts, line: Seq<char>)
    requires
        forall|d: Seq<char>| !#[trigger] carries_data(line, d),
    ensures
        c.after_line(line + "\n"@) == c,
{
    reveal_strlit("\n");
    reveal_strlit("data:");
    let word = "data:"@;
    let full = line + "\n"@;
    let t = crate::text::trimmed(full);
    if crate::text::stands_at(t, word, 0) {
        let a = crate::laws::words::lemma_trimmed_start(full);
        let rest = full.skip(a);
        let n = crate::laws::words::lemma_trimmed_end(rest);
        let r = t.skip(5);
        let k = crate::laws::words::lemma_trimmed_start(r);
        let lead = full.take(a);
        let gap = r.take(k);
        let data = r.skip(k);
        assert(t == rest.take(n));
        assert(n >= 5);
        assert(t.subrange(0, 5) =~= word);
        assert(t =~= word + gap + data);
        assert(crate::text::is_space('\n'));
        assert(a + n <= line.len()) by {
            if a + n > line.len() {
                assert(rest[n - 1] == full[line.len() as int]);
            }
        }
        let tail = line.skip(a + n);
        assert(line =~= lead + word + gap + data + tail);
        assert forall|i: int| 0 <= i < lead.len() implies !solid(#[trigger] lead[i]) by {
            assert(lead[i] == full[i]);
        }
        assert forall|i: int| 0 <= i < gap.len() implies !solid(#[trigger] gap[i]) by {
            assert(gap[i] == r[i]);
        }
        assert forall|i: int| 0 <= i < tail.len() implies !solid(#[trigger] tail[i]) by {
            assert(tail[i] == rest[n + i]);
        }
        if data.len() > 0 {
            assert(data[0] == r[k]);
            assert(data.last() == rest[n - 1]);
        }
        assert(hollow(lead) && hollow(gap) && hollow(tail));
        assert(carries_data(line, data));
    }
}

/// An error is told in the shape that clients understand.
pub proof fn law_error_bodies(code: &str, message: &str, r: String)
    requires
        call_ensures(errors::error_body, (code, message), r),
    ensures
        exists|m: Map<Seq<char>, Tree>, inner: Map<Seq<char>, Tree>|
            #![trigger json::rendering(Tree::Object(m)), inner.dom()]
            {
                &&& r@ == json::rendering(Tree::Object(m))
                &&& m.dom() == set!["error"@]
                &&& m["error"@] == Tree::Object(inner)
                &&& inner.dom() == set!["message"@, "type"@, "code"@]
                &&& inner["message"@] == Tree::Str(message@)
                &&& inner["type"@] == Tree::Str("proxy_error"@)
                &&& inner["code"@] == Tree::Str(code@)
            },
{
    reveal_strlit("message");
    reveal_strlit("type");
    reveal_strlit("code");
    assert("message"@.len() == 7 && "type"@.len() == 4 && "code"@.len() == 4);
    assert("type"@[0] != "code"@[0]);
    let t = errors::error_tree(code@, message@);
    let m = t->Object_0;
    let inner = m["error"@]->Object_0;
    assert(m.dom() =~= set!["error"@]);
    assert(inner.dom() =~= set!["message"@, "type"@, "code"@]);
    assert(Tree::Object(m) == t);
    assert(m["error"@] == Tree::Object(inner));
}

/// The errors of the proxy's own.
pub proof fn law_own_errors(
    secs: u64,
    lanes: u64,
    message: &str,
    timeout: ErrorReply,
    lost: ErrorReply,
    shed: ErrorReply,
    stranger: ErrorReply,
    frames: String,
    body: String,
)
    requires
        call_ensures(errors::gateway_timeout, (secs, lanes), timeout),
        call_ensures(errors::bad_gateway, (), lost),
        call_ensures(errors::overloaded, (), shed),
        call_ensures(errors::unauthorized, (), stranger),
        call_ensures(errors::sse_error, (message,), frames),
        call_ensures(errors::error_body, ("upstream_unavailable", message), body),
    ensures
        timeout.status == 504,
        timeout.code@ == "rate_limited"@,
        timeout.message@ == "no upstream slot became available within "@ + digits::numeral(
            secs as nat,
            10,
        ) + "s (all "@ + digits::numeral(lanes as nat, 10) + " keys saturated)"@,
        timeout.retry_after is None && !timeout.challenge,
        lost.status == 502,
        lost.code@ == "bad_gateway"@,
        lost.message@ == "upstream response could not be read"@,
        lost.retry_after is None && !lost.challenge,
        shed.status == 503,
        shed.code@ == "overloaded"@,
        shed.message@ == "too many requests in flight, try again shortly"@,
        shed.retry_after == Some(5u64),
        !shed.challenge,
        stranger.status == 401,
        stranger.code@ == "unauthorized"@,
        stranger.message@ == "missing or invalid proxy API key (Authorization: Bearer ...)"@,
        stranger.challenge,
        stranger.retry_after is None,
        frames@ == "data: "@ + body@ + "\n\ndata: [DONE]\n\n"@,
{
}

/// A lane is benched for a status as long as the upstream asks, and for a connection
/// that failed for five seconds.
pub proof fn law_benches(
    status: u16,
    retry_after: &Option<String>,
    p: Penalty,
    q: Penalty,
)
    requires
        call_ensures(proxy::bench_status, (status, retry_after), p),
        call_ensures(proxy::bench_connect, (), q),
    ensures
        benched_for(p, status, *retry_after),
        benched_for_connect(q),
{
    lemma_penalties(p, status, *retry_after);
    lemma_penalties(q, status, *retry_after);
}

/// A poll of the catalog is a GET of its path.
pub proof fn law_catalog_polls(method: &str, path: &str, r: bool)
    requires
        call_ensures(request::is_catalog_request, (method, path), r),
    ensures
        r <==> method@ == "GET"@ && path@ == "/v1/models"@,
{
    assert(request::MODELS_PATH@ == "/v1/models"@);
}

/// An error says what it is told, and asks for nothing; the one for the dashboard asks
/// for credentials.
pub proof fn law_plain_errors(
    status: u16,
    code: &str,
    message: &str,
    r: ErrorReply,
    admin: ErrorReply,
)
    requires
        call_ensures(errors::json_error, (status, code, message), r),
        call_ensures(errors::unauthorized_json, (), admin),
    ensures
        r.status == status,
        r.code@ == code@,
        r.message@ == message@,
        r.retry_after is None,
        !r.challenge,
        admin.status == 401,
        admin.code@ == "unauthorized"@,
        admin.message@
            == "admin authentication required (session cookie or Authorization: Bearer <password>)"@,
        admin.challenge,
        admin.retry_after is None,
{
}

} // verus!

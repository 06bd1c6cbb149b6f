//! Request handling: strict pass-through to the upstream with three additions
//! that it does not give by itself: per-key rate-limit pacing, retry on 429 and
//! 5xx, and SSE comments that keep a client's connection open meanwhile. Here
//! stand the decisions; whoever runs them sends, receives and waits.

use vstd::prelude::*;

use crate::clients::authenticate;
use crate::digits;
use crate::errors;
use crate::errors::ErrorReply;
use crate::governor;
use crate::json;
use crate::quality::Quality;
use crate::request::{is_catalog_request, plan, Plan};
use crate::startup::Config;
use crate::text;
use crate::time::{Duration, Instant, NANOS_PER_SEC};
use crate::usage::{usage_of, Usage};

verus! {

/// How long a lane is benched when the upstream does not say.
pub const BACKOFF_SECS: u64 = 10;

/// How long a lane is benched after a connection error.
pub const CONNECT_BACKOFF_SECS: u64 = 5;

/// How long a request for the model catalog waits for a slot.
pub const CATALOG_WAIT_SECS: u64 = 30;

/// Statuses worth waiting out: rate limit and transient server-side trouble.
pub open spec fn worth_retrying(status: u16) -> bool {
    status == 429 || status == 500 || status == 502 || status == 503 || status == 504
}

pub fn retryable(status: u16) -> (r: bool)
    ensures
        r == worth_retrying(status),
{
    status == 429 || status == 500 || status == 502 || status == 503 || status == 504
}

/// Success is any status of the two hundreds.
pub open spec fn success(status: u16) -> bool {
    200 <= status < 300
}

/// The seconds that an upstream asks to be left alone.
pub open spec fn backoff_secs(retry_after: Option<Seq<char>>) -> u64 {
    match retry_after {
        Some(s) => match digits::parsed(s, 10) {
            Some(n) => n,
            None => BACKOFF_SECS,
        },
        None => BACKOFF_SECS,
    }
}

/// Backoff for a benched lane: honor Retry-After when present.
pub fn backoff_for(retry_after: &Option<String>) -> (r: Duration)
    ensures
        r@ == backoff_secs(crate::auth::optional_text(*retry_after)) * NANOS_PER_SEC,
        r.in_range(),
{
    match retry_after {
        Some(s) => match digits::parse(s.as_str(), 10) {
            Some(n) => Duration::from_secs(n),
            None => Duration::from_secs(BACKOFF_SECS),
        },
        None => Duration::from_secs(BACKOFF_SECS),
    }
}

/// The upstream rejects a request because the workers of its model are
/// exhausted, which no other key would change.
pub open spec fn workers_exhausted(status: u16, body: Seq<char>) -> bool {
    worth_retrying(status) && text::contains_text(body, governor::SIGNATURE@)
}

/// Tell exhausted workers from other trouble by what the upstream says.
pub fn classify(status: u16, body: &str) -> (r: bool)
    ensures
        r == workers_exhausted(status, body@),
{
    retryable(status) && text::contains(body, governor::SIGNATURE)
}

/// What came of one attempt at a request.
pub enum Attempt {
    /// No slot before the deadline, or nobody left to serve.
    NoSlot,
    /// The upstream could not be reached.
    Failed,
    /// The upstream answered.
    Answered {
        status: u16,
        retry_after: Option<String>,
        /// The workers of the model are exhausted.
        exhausted: bool,
    },
}

/// An attempt that the upstream answered with a body that is no stream.
pub fn answered(status: u16, retry_after: Option<String>, body: &str) -> (r: Attempt)
    ensures
        r == (Attempt::Answered {
            status,
            retry_after,
            exhausted: workers_exhausted(status, body@),
        }),
{
    Attempt::Answered { status, retry_after, exhausted: classify(status, body) }
}

/// What an attempt cost its lane.
pub enum Penalty {
    /// Nothing: the trouble is not the lane's.
    Spared,
    /// The lane is benched, for this reason and this long.
    Benched { reason: String, backoff: Duration },
}

/// The penalty is that of an answer with this status.
pub open spec fn status_penalty(p: Penalty, status: u16, retry_after: Option<String>) -> bool {
    &&& p matches Penalty::Benched { reason, backoff }
    &&& reason@ == digits::numeral(status as nat, 10)
    &&& backoff@ == backoff_secs(crate::auth::optional_text(retry_after)) * NANOS_PER_SEC
    &&& backoff.in_range()
}

/// The penalty is that of a connection that failed.
pub open spec fn connect_penalty(p: Penalty) -> bool {
    &&& p matches Penalty::Benched { reason, backoff }
    &&& reason@ == "connect"@
    &&& backoff@ == CONNECT_BACKOFF_SECS * NANOS_PER_SEC
    &&& backoff.in_range()
}

/// The penalty for an answer that is worth waiting out.
pub fn bench_status(status: u16, retry_after: &Option<String>) -> (p: Penalty)
    ensures
        status_penalty(p, status, *retry_after),
{
    Penalty::Benched { reason: digits::decimal(status as u64), backoff: backoff_for(retry_after) }
}

/// The penalty for a connection that failed.
pub fn bench_connect() -> (p: Penalty)
    ensures
        connect_penalty(p),
{
    Penalty::Benched {
        reason: "connect".to_owned(),
        backoff: Duration::from_secs(CONNECT_BACKOFF_SECS),
    }
}

/// What a request without a stream does after an attempt.
pub enum Buffered {
    /// Queue for a slot again.
    Retry(Penalty),
    /// Give up: no slot in time.
    TimedOut,
    /// Hand the upstream's answer to the client.
    Relay,
}

/// What is done after an attempt that ended at `now`: trouble that may pass is
/// waited out until the deadline, and everything else is handed on.
pub open spec fn buffered_outcome(
    attempt: Attempt,
    now: int,
    deadline: int,
    b: Buffered,
) -> bool {
    match attempt {
        Attempt::NoSlot => b is TimedOut,
        Attempt::Failed => b matches Buffered::Retry(p) && connect_penalty(p),
        Attempt::Answered { status, retry_after, exhausted } => if worth_retrying(status) && now
            < deadline {
            &&& b matches Buffered::Retry(p)
            &&& if exhausted {
                p is Spared
            } else {
                status_penalty(p, status, retry_after)
            }
        } else {
            b is Relay
        },
    }
}

/// Pace, retry, and return the upstream's answer verbatim.
pub fn buffered(attempt: &Attempt, now: Instant, deadline: Instant) -> (b: Buffered)
    ensures
        buffered_outcome(*attempt, now@, deadline@, b),
{
    match attempt {
        Attempt::NoSlot => Buffered::TimedOut,
        Attempt::Failed => Buffered::Retry(bench_connect()),
        Attempt::Answered { status, retry_after, exhausted } => {
            if retryable(*status) && now.nanos < deadline.nanos {
                if *exhausted {
                    Buffered::Retry(Penalty::Spared)
                } else {
                    Buffered::Retry(bench_status(*status, retry_after))
                }
            } else {
                Buffered::Relay
            }
        },
    }
}

/// What a client without a stream is handed.
pub enum Relayed {
    /// The upstream's answer, its body untouched.
    Passed { status: u16, content_type: String, usage: Option<Usage>, quality: Quality },
    /// The upstream's answer never came in full.
    Lost(ErrorReply),
}

/// A status as it can be sent on.
pub open spec fn sendable(status: u16) -> u16 {
    if 100 <= status < 1000 {
        status
    } else {
        502
    }
}

/// What a whole answer that holds `doc` shows of how its generations went.
pub open spec fn assessed(doc: Option<json::Tree>) -> Quality {
    match doc {
        Some(t) => Quality::nothing().with_document(t, "message"@),
        None => Quality::nothing(),
    }
}

/// Hand an upstream answer to the client as it is, harvesting the usage object
/// for token accounting, and how its generations went, on the way past. Where
/// there is no body, it could not be read, or not in time.
pub fn relay(status: u16, content_type: &Option<String>, body: Option<&[u8]>) -> (r: Relayed)
    ensures
        match body {
            Some(b) => {
                &&& r matches Relayed::Passed { status: s, content_type: c, usage, quality }
                &&& s == sendable(status)
                &&& c@ == match *content_type {
                    Some(t) => t@,
                    None => "application/json"@,
                }
                &&& usage == if success(sendable(status)) {
                    crate::usage::usage_reported(b@)
                } else {
                    None
                }
                &&& quality == if success(sendable(status)) {
                    assessed(json::document(b@))
                } else {
                    Quality::nothing()
                }
            },
            None => {
                &&& r matches Relayed::Lost(e)
                &&& e@ == errors::plain_error(
                    502,
                    "bad_gateway"@,
                    "upstream response could not be read"@,
                )
            },
        },
{
    let body = match body {
        Some(b) => b,
        None => return Relayed::Lost(errors::bad_gateway()),
    };
    let status: u16 = if 100 <= status && status < 1000 {
        status
    } else {
        502
    };
    let content_type = match content_type {
        Some(t) => t.clone(),
        None => "application/json".to_owned(),
    };
    let mut usage: Option<Usage> = None;
    let mut quality = Quality::new();
    if 200 <= status && status < 300 {
        if let Some(v) = json::parse(body) {
            usage = usage_of(&v);
            quality.observe(&v, "message");
        }
    }
    Relayed::Passed { status, content_type, usage, quality }
}

/// What is sent to the upstream beside the body.
pub struct Upstream {
    pub url: String,
    pub authorization: String,
    pub content_type: Option<String>,
    pub accept: Option<String>,
    /// There is a body.
    pub has_body: bool,
}

/// Address a request to the upstream. The client's own credentials are never
/// among what is sent: the key of the lane takes their place.
pub fn upstream_request(
    base_url: &str,
    path_query: &str,
    key: &str,
    content_type: &Option<String>,
    accept: &Option<String>,
    body: &[u8],
) -> (r: Upstream)
    ensures
        r.url@ == base_url@ + path_query@,
        r.authorization@ == "Bearer "@ + key@,
        crate::auth::optional_text(r.content_type) == crate::auth::optional_text(*content_type),
        crate::auth::optional_text(r.accept) == crate::auth::optional_text(*accept),
        r.has_body == (body@.len() > 0),
{
    let mut url = base_url.to_owned();
    url.append(path_query);
    let mut authorization = "Bearer ".to_owned();
    authorization.append(key);
    Upstream {
        url,
        authorization,
        content_type: match content_type {
            Some(t) => Some(t.clone()),
            None => None,
        },
        accept: match accept {
            Some(t) => Some(t.clone()),
            None => None,
        },
        has_body: body.len() > 0,
    }
}

/// When a request that starts at `now` has to have its slot.
pub fn deadline(now: Instant, max_wait: Duration) -> (r: Instant)
    requires
        now@ <= crate::time::MAX_SPAN_NANOS,
        max_wait.in_range(),
    ensures
        r@ == now@ + max_wait@,
{
    Instant { nanos: now.nanos + max_wait.nanos }
}

/// The model catalog as it was last fetched.
pub struct Catalog {
    pub fetched: Option<(Instant, Vec<u8>)>,
}

/// The time from one instant to another.
pub open spec fn elapsed(from: int, to: int) -> int {
    if from <= to {
        to - from
    } else {
        0
    }
}

/// The catalog that is fresh enough at `now`.
pub open spec fn fresh(c: Catalog, ttl: int, now: int) -> Option<Seq<u8>> {
    match c.fetched {
        Some((at, body)) if elapsed(at@, now) < ttl => Some(body@),
        _ => None,
    }
}

/// What came of fetching the catalog.
pub enum Fetched {
    /// A fresh catalog, which is kept.
    Kept,
    /// The upstream's error, handed on with this status.
    Passed { status: u16, penalty: Penalty },
    /// No catalog.
    TimedOut,
}

impl Catalog {
    /// The catalog from the cache, if it is fresh enough.
    pub fn cached(&self, ttl: Duration, now: Instant) -> (r: Option<Vec<u8>>)
        ensures
            match r {
                Some(body) => fresh(*self, ttl@, now@) == Some(body@),
                None => fresh(*self, ttl@, now@) is None,
            },
    {
        match &self.fetched {
            Some((at, body)) => {
                let age = if at.nanos <= now.nanos {
                    now.nanos - at.nanos
                } else {
                    0
                };
                if age < ttl.nanos {
                    Some(vstd::slice::slice_to_vec(body.as_slice()))
                } else {
                    None
                }
            },
            None => None,
        }
    }

    /// Decide what becomes of a fetch. A success is kept from `now` on, and
    /// trouble of the lane benches it.
    pub fn refreshed(&mut self, attempt: &Attempt, body: &[u8], now: Instant) -> (r: Fetched)
        ensures
            match *attempt {
                Attempt::Answered { status, retry_after, .. } => if success(status) {
                    &&& r is Kept
                    &&& final(self).fetched matches Some((at, kept))
                    &&& at == now
                    &&& kept@ == body@
                } else {
                    &&& r matches Fetched::Passed { status: s, penalty }
                    &&& s == sendable(status)
                    &&& if worth_retrying(status) {
                        status_penalty(penalty, status, retry_after)
                    } else {
                        penalty is Spared
                    }
                    &&& *final(self) == *old(self)
                },
                _ => r is TimedOut && *final(self) == *old(self),
            },
    {
        match attempt {
            Attempt::Answered { status, retry_after, .. } => {
                if 200 <= *status && *status < 300 {
                    self.fetched = Some((now, vstd::slice::slice_to_vec(body)));
                    return Fetched::Kept;
                }
                let penalty = if retryable(*status) {
                    bench_status(*status, retry_after)
                } else {
                    Penalty::Spared
                };
                let status: u16 = if 100 <= *status && *status < 1000 {
                    *status
                } else {
                    502
                };
                Fetched::Passed { status, penalty }
            },
            _ => Fetched::TimedOut,
        }
    }
}

/// The requests in flight.
pub struct Inflight {
    pub count: usize,
}

impl Inflight {
    /// Let one more in, unless there are `max` already.
    pub fn enter(&mut self, max: usize) -> (r: bool)
        ensures
            r == (old(self).count < max),
            final(self).count == if r {
                old(self).count + 1
            } else {
                old(self).count as int
            },
            old(self).count <= max ==> final(self).count <= max,
    {
        if self.count < max {
            self.count = self.count + 1;
            true
        } else {
            false
        }
    }

    /// One is done.
    pub fn leave(&mut self)
        ensures
            final(self).count == if old(self).count > 0 {
                old(self).count - 1
            } else {
                0
            },
    {
        if self.count > 0 {
            self.count = self.count - 1;
        }
    }
}

/// What becomes of a request to the API.
pub enum Handling {
    /// Its client is not known.
    Unauthorized(ErrorReply),
    /// There are too many requests in flight.
    Shed(ErrorReply),
    /// It asks for the model catalog, which is answered from the cache.
    Catalog { client: String },
    /// It is sent on.
    Serve { client: String, plan: Plan },
}

/// Single entry point for every API call: the client is identified first, then
/// counted in, and then the request is planned. Whoever was counted in is
/// counted out again by [`Inflight::leave`].
pub fn handle(
    cfg: &Config,
    authorization: &Option<String>,
    inflight: &mut Inflight,
    method: &str,
    path: &str,
    body: Vec<u8>,
    no_inject: &Vec<String>,
    lanes: usize,
) -> (r: Handling)
    ensures
        match crate::clients::admitted_as(
            crate::clients::known(cfg.clients),
            crate::auth::optional_text(*authorization),
        ) {
            None => {
                &&& r matches Handling::Unauthorized(e)
                &&& e@ == errors::unauthorized_view()
                &&& *final(inflight) == *old(inflight)
            },
            Some(name) => if old(inflight).count >= cfg.max_inflight {
                &&& r matches Handling::Shed(e)
                &&& e@ == errors::overloaded_view()
                &&& *final(inflight) == *old(inflight)
            } else {
                &&& final(inflight).count == old(inflight).count + 1
                &&& if method@ == "GET"@ && path@ == crate::request::MODELS_PATH@ {
                    r matches Handling::Catalog { client } && client@ == name
                } else {
                    &&& r matches Handling::Serve { client, plan }
                    &&& client@ == name
                    &&& plan.serves(
                        json::document(body@),
                        body@,
                        path@,
                        cfg.strict_passthrough,
                        text::views(no_inject@),
                        lanes as nat,
                    )
                }
            },
        },
{
    let client = match authenticate(&cfg.clients, authorization) {
        Some(name) => name,
        None => {
            return Handling::Unauthorized(errors::unauthorized());
        },
    };
    if !inflight.enter(cfg.max_inflight) {
        return Handling::Shed(errors::overloaded());
    }
    if is_catalog_request(method, path) {
        return Handling::Catalog { client };
    }
    Handling::Serve { client, plan: plan(body, path, cfg.strict_passthrough, no_inject, lanes) }
}

/// Polls of the model catalog cost one fetch for as long as it is fresh: what a
/// fetch at `at` brought is what the cache answers with until then, and not
/// after.
pub proof fn law_catalog_polls_cost_one_fetch(
    kept: Catalog,
    at: Instant,
    body: Vec<u8>,
    ttl: int,
    now: int,
)
    requires
        kept.fetched == Some((at, body)),
        at@ <= now,
    ensures
        now < at@ + ttl ==> fresh(kept, ttl, now) == Some(body@),
        now >= at@ + ttl ==> fresh(kept, ttl, now) is None,
{
}

/// Without a stream, exhausted workers never bench a lane.
pub proof fn law_exhausted_workers_spare_the_lane(
    status: u16,
    retry_after: Option<String>,
    now: int,
    deadline: int,
    b: Buffered,
)
    requires
        buffered_outcome(
            Attempt::Answered { status, retry_after, exhausted: true },
            now,
            deadline,
            b,
        ),
    ensures
        b matches Buffered::Retry(p) ==> p is Spared,
{
}

/// Without a stream, an answer of the upstream is waited out only if it is worth
/// it, and never past the deadline; every other answer goes to the client.
pub proof fn law_only_passing_trouble_is_waited_out(
    status: u16,
    retry_after: Option<String>,
    exhausted: bool,
    now: int,
    deadline: int,
    b: Buffered,
)
    requires
        buffered_outcome(Attempt::Answered { status, retry_after, exhausted }, now, deadline, b),
    ensures
        b is Relay <==> now >= deadline || !worth_retrying(status),
{
}

} // verus!

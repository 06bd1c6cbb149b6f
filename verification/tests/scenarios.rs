//! The library as a whole, run against a scripted upstream on a clock of its
//! own: whole requests from the client's side to the upstream's and back.

use std::collections::VecDeque;

use nim_proxy::auth::{
    login_submit_at, require_admin_at, Admin, Headers, Login, Verdict,
};
use nim_proxy::clients::Clients;
use nim_proxy::dispatch::{Dispatcher, Turn};
use nim_proxy::errors::{error_body, gateway_timeout, ErrorReply};
use nim_proxy::governor::{Governor, Permit};
use nim_proxy::history::{query_answer, History, Write};
use nim_proxy::pages::{login_html, THROTTLED_RETRY_SECS};
use nim_proxy::pool::Pool;
use nim_proxy::proxy::{
    answered, buffered, deadline, handle, relay, Attempt, Buffered, Catalog, Fetched,
    Handling, Inflight, Penalty, Relayed,
};
use nim_proxy::request::Plan;
use nim_proxy::startup::{configure, Config, Refusal};
use nim_proxy::stream::{Event, Next, Stream, CONNECTED};
use nim_proxy::time::{Duration, Instant};

const CHAT: &str = "/v1/chat/completions";

/// One scripted answer of the upstream; normal ones follow when there are none.
enum Behavior {
    RateLimited(u64),
    ServerError(u16),
    BadRequest,
    BadRequestIfInjected,
    WorkerExhausted,
    Hang,
    Unreachable,
}

struct Hit {
    key: String,
    body: serde_json::Value,
    at: Instant,
}

struct Reply {
    status: u16,
    body: String,
    label: String,
}

impl Reply {
    fn json(&self) -> serde_json::Value {
        serde_json::from_str(&self.body).unwrap()
    }
}

struct Sim {
    now: Instant,
    dispatch: Dispatcher<u32>,
    governor: Governor,
    cfg: Config,
    inflight: Inflight,
    no_inject: Vec<String>,
    catalog: Catalog,
    max_wait: Duration,
    script: VecDeque<Behavior>,
    hits: Vec<Hit>,
    catalog_hits: usize,
    benched: Vec<String>,
    /// The model labels that requests were counted under.
    labels: Vec<String>,
}

fn body_of(convo: &str, stream: bool) -> Vec<u8> {
    format!(
        "{{\"model\":\"mock/model-a\",\"stream\":{stream},\"messages\":[{{\"role\":\"system\",\"content\":\"you are a test\"}},{{\"role\":\"user\",\"content\":\"{convo}\"}}]}}"
    )
    .into_bytes()
}

const ANSWER: &str = "{\"id\":\"mock-1\",\"object\":\"chat.completion\",\"choices\":[{\"index\":0,\"message\":{\"role\":\"assistant\",\"content\":\"hello world\"},\"finish_reason\":\"stop\"}],\"usage\":{\"prompt_tokens\":11,\"completion_tokens\":2}}";

const CHUNKS: [&str; 4] = [
    "data: {\"choices\":[{\"index\":0,\"delta\":{\"content\":\"hello\"}}]}\n\n",
    "data: {\"choices\":[{\"index\":0,\"delta\":{\"content\":\" world\"}}]}\n\n",
    "data: {\"choices\":[],\"usage\":{\"prompt_tokens\":11,\"completion_tokens\":2}}\n\n",
    "data: [DONE]\n\n",
];

/// What the upstream says: a status, a retry hint and a body, or nothing at all.
type Said = Option<(u16, Option<String>, Option<String>)>;

impl Sim {
    fn new(keys: &[&str], rpm: usize, max_wait: u64) -> Sim {
        Sim {
            now: Instant { nanos: 0 },
            dispatch: Dispatcher::new(Pool::new(
                keys.iter().map(|k| k.to_string()).collect(),
                rpm,
            )),
            governor: Governor::new(),
            cfg: Config {
                base_url: "http://up".into(),
                max_wait: Duration::from_secs(max_wait),
                heartbeat: Duration::from_secs(10),
                models_ttl: Duration::from_secs(600),
                stream_idle: Duration::from_secs(300),
                request_timeout: Duration::from_secs(300),
                strict_passthrough: false,
                max_inflight: 512,
                clients: None,
            },
            inflight: Inflight { count: 0 },
            no_inject: Vec::new(),
            catalog: Catalog { fetched: None },
            max_wait: Duration::from_secs(max_wait),
            script: VecDeque::new(),
            hits: Vec::new(),
            catalog_hits: 0,
            benched: Vec::new(),
            labels: Vec::new(),
        }
    }

    fn three() -> Sim {
        Sim::new(&["test-key-0", "test-key-1", "test-key-2"], 40, 30)
    }

    fn pass(&mut self, d: Duration) {
        self.now = Instant { nanos: self.now.nanos + d.nanos };
    }

    /// Queue for the model and for a slot.
    fn slot(&mut self, until: Instant, prefer: Option<usize>) -> Option<(usize, String)> {
        loop {
            match self.governor.permit("mock/model-a", self.now) {
                Permit::Granted => break,
                p if p.too_late(self.now, until) => return None,
                Permit::Hold(d) => self.pass(d),
            }
        }
        self.dispatch.acquire(1, until, prefer);
        loop {
            match self.dispatch.turn_at(self.now, self.now, false) {
                Turn::Granted { lane, key, .. } => return Some((lane, key)),
                Turn::Sleep(d) => self.pass(d),
                _ => {
                    self.governor.release("mock/model-a");
                    return None;
                }
            }
        }
    }

    /// Send a request to the upstream.
    fn send(&mut self, key: &str, body: &[u8]) -> Said {
        let parsed: serde_json::Value = serde_json::from_slice(body).unwrap();
        let injected = parsed.get("stream_options").is_some();
        let behavior = self.script.pop_front();
        if let Some(Behavior::Unreachable) = behavior {
            return None;
        }
        self.hits.push(Hit { key: key.to_owned(), body: parsed, at: self.now });
        let bad = || Some((400, None, Some("{\"error\":{\"message\":\"bad stream_options\"}}".to_owned())));
        match behavior {
            Some(Behavior::RateLimited(secs)) => {
                Some((429, Some(secs.to_string()), Some("{\"error\":\"rate limited\"}".into())))
            }
            Some(Behavior::ServerError(code)) => Some((code, None, Some("{\"error\":\"boom\"}".into()))),
            Some(Behavior::BadRequest) => bad(),
            Some(Behavior::BadRequestIfInjected) if injected => bad(),
            Some(Behavior::WorkerExhausted) => Some((
                429,
                None,
                Some("ResourceExhausted: Worker local total request limit reached (32/32)".into()),
            )),
            Some(Behavior::Hang) => Some((200, None, None)),
            _ => Some((200, None, Some(ANSWER.to_owned()))),
        }
    }

    fn attempt(&mut self, said: &Said) -> Attempt {
        match said {
            None => Attempt::Failed,
            Some((status, retry_after, body)) => {
                let a = answered(*status, retry_after.clone(), body.as_deref().unwrap_or(""));
                if matches!(a, Attempt::Answered { exhausted: true, .. }) {
                    self.governor.exhausted("mock/model-a", self.now);
                }
                a
            }
        }
    }

    fn penalize(&mut self, lane: usize, key: String, penalty: Penalty) {
        if let Penalty::Benched { reason, backoff } = penalty {
            self.benched.push(reason);
            self.dispatch.penalize_at(lane, &key, self.now, backoff);
        }
    }

    fn refuse(&self, e: &ErrorReply) -> Reply {
        Reply {
            status: e.status,
            body: error_body(&e.code, &e.message),
            label: e.status.to_string(),
        }
    }

    fn post(&mut self, authorization: Option<&str>, body: Vec<u8>) -> Reply {
        let lanes = self.dispatch.lanes();
        let handling = handle(
            &self.cfg,
            &authorization.map(|t| format!("Bearer {t}")),
            &mut self.inflight,
            "POST",
            CHAT,
            body,
            &self.no_inject,
            lanes,
        );
        let reply = match handling {
            Handling::Unauthorized(e) | Handling::Shed(e) => return self.refuse(&e),
            Handling::Catalog { .. } => panic!("not a catalog request"),
            Handling::Serve { plan, .. } => {
                self.labels.push(plan.label.clone());
                if plan.wants_stream {
                    self.streaming(plan)
                } else {
                    self.buffered(plan)
                }
            }
        };
        self.inflight.leave();
        reply
    }

    fn buffered(&mut self, plan: Plan) -> Reply {
        let until = deadline(self.now, self.max_wait);
        loop {
            let slot = self.slot(until, plan.prefer);
            let (lane, key, said) = match &slot {
                Some((lane, key)) => {
                    let said = self.send(key, &plan.body);
                    (*lane, key.clone(), said)
                }
                None => (0, String::new(), None),
            };
            let attempt = match slot {
                Some(_) => self.attempt(&said),
                None => Attempt::NoSlot,
            };
            if slot.is_some() {
                self.governor.release("mock/model-a");
            }
            match buffered(&attempt, self.now, until) {
                Buffered::TimedOut => {
                    let e = gateway_timeout(self.max_wait.as_secs(), self.dispatch.lanes() as u64);
                    return self.refuse(&e);
                }
                Buffered::Retry(p) => self.penalize(lane, key, p),
                Buffered::Relay => {
                    let (status, _, body) = said.unwrap();
                    return match relay(status, &None, body.as_deref().map(str::as_bytes)) {
                        Relayed::Lost(e) => self.refuse(&e),
                        Relayed::Passed { status, .. } => Reply {
                            status,
                            body: body.unwrap(),
                            label: status.to_string(),
                        },
                    };
                }
            }
        }
    }

    fn streaming(&mut self, plan: Plan) -> Reply {
        let until = deadline(self.now, self.max_wait);
        let mut s = Stream::open(until, plan.body, plan.fallback);
        let mut out = CONNECTED.to_owned();
        let mut lane = 0;
        let mut key = String::new();
        let mut said: Said = None;
        let mut held = false;
        let mut read = 0;
        let mut next = Next::Queue;
        loop {
            let event = match next {
                Next::Queue => {
                    if held {
                        self.governor.release("mock/model-a");
                    }
                    let slot = self.slot(until, plan.prefer);
                    held = slot.is_some();
                    Event::Attempted(match slot {
                        None => Attempt::NoSlot,
                        Some((l, k)) => {
                            lane = l;
                            key = k;
                            said = self.send(&key, &s.body);
                            self.attempt(&said)
                        }
                    })
                }
                Next::Explain => Event::Explained {
                    status: "400 Bad Request",
                    detail: said.as_ref().unwrap().2.as_deref().unwrap(),
                },
                Next::Read => match &said {
                    Some((_, _, None)) => Event::Stalled,
                    _ if read == CHUNKS.len() => Event::Ended,
                    _ => {
                        out.push_str(CHUNKS[read]);
                        read += 1;
                        Event::Chunk(CHUNKS[read - 1].as_bytes())
                    }
                },
                Next::Record { label, .. } => {
                    if held {
                        self.governor.release("mock/model-a");
                    }
                    return Reply { status: 200, body: out, label };
                }
            };
            let a = s.on(event, self.now);
            self.penalize(lane, key.clone(), a.penalty);
            if a.remember {
                self.no_inject.push(plan.model.clone());
            }
            if let Some(frame) = a.frame {
                out.push_str(&frame);
            }
            next = a.next;
        }
    }

    fn models(&mut self, authorization: Option<&str>) -> Reply {
        let lanes = self.dispatch.lanes();
        match handle(
            &self.cfg,
            &authorization.map(|t| format!("Bearer {t}")),
            &mut self.inflight,
            "GET",
            "/v1/models",
            Vec::new(),
            &self.no_inject,
            lanes,
        ) {
            Handling::Unauthorized(e) => return self.refuse(&e),
            Handling::Catalog { .. } => {}
            _ => panic!("expected the catalog"),
        }
        self.inflight.leave();
        let ttl = Duration::from_secs(600);
        if self.catalog.cached(ttl, self.now).is_none() {
            self.catalog_hits += 1;
            let answer = Attempt::Answered { status: 200, retry_after: None, exhausted: false };
            let list = b"{\"object\":\"list\",\"data\":[{\"id\":\"mock/model-a\"}]}";
            assert!(matches!(self.catalog.refreshed(&answer, list, self.now), Fetched::Kept));
        }
        let body = self.catalog.cached(ttl, self.now).unwrap();
        Reply { status: 200, body: String::from_utf8(body).unwrap(), label: "200".into() }
    }

    fn keys(&self) -> Vec<&str> {
        self.hits.iter().map(|h| h.key.as_str()).collect()
    }
}

#[test]
fn local_mode_needs_no_auth() {
    let mut sim = Sim::three();
    let r = sim.post(None, body_of("hi", false));
    assert_eq!(r.status, 200);
    assert_eq!(r.json()["choices"][0]["message"]["content"], "hello world");
}

#[test]
fn auth_mode_rejects_bad_tokens_and_accepts_good_ones() {
    let mut sim = Sim::three();
    sim.cfg.clients = Clients::parse("alice:sekrit");
    let missing = sim.post(None, body_of("hi", false));
    assert_eq!(missing.status, 401);
    assert_eq!(missing.json()["error"]["code"], "unauthorized");
    assert_eq!(sim.post(Some("nope"), body_of("hi", false)).status, 401);
    assert_eq!(sim.post(Some("sekrit"), body_of("hi", false)).status, 200);
    assert_eq!(sim.hits.len(), 1, "only the authorized call reached upstream");
}

#[test]
fn streaming_rides_out_429s_with_lane_failover() {
    let mut sim = Sim::three();
    sim.script.push_back(Behavior::RateLimited(1));
    sim.script.push_back(Behavior::RateLimited(1));
    let r = sim.post(None, body_of("hi", true));
    assert_eq!(r.status, 200, "SSE committed despite upstream 429s");
    assert!(r.body.contains(": retrying"), "client saw retry comments: {}", r.body);
    assert!(r.body.contains("hello"), "stream delivered data: {}", r.body);
    assert!(r.body.contains("data: [DONE]"));
    assert_eq!(r.label, "200");
    let keys = sim.keys();
    assert_eq!(keys.len(), 3, "two 429s then a success");
    assert_ne!(keys[0], keys[1], "429 failed over to a different key");
}

#[test]
fn retry_after_is_honored_when_only_one_lane_exists() {
    let mut sim = Sim::new(&["only-key"], 40, 30);
    sim.script.push_back(Behavior::RateLimited(1));
    assert_eq!(sim.post(None, body_of("hi", false)).status, 200);
    assert_eq!(sim.hits.len(), 2);
    let gap = sim.hits[1].at.nanos - sim.hits[0].at.nanos;
    assert!(gap >= Duration::from_millis(900).nanos, "waited Retry-After, gap {gap:?}");
}

#[test]
fn buffered_retries_5xx_then_returns_verbatim_body() {
    let mut sim = Sim::three();
    sim.script.push_back(Behavior::ServerError(503));
    let r = sim.post(None, body_of("hi", false));
    assert_eq!(r.status, 200);
    assert_eq!(r.json()["usage"]["prompt_tokens"], 11);
    assert_eq!(r.body, ANSWER);
    assert_eq!(sim.hits.len(), 2);
}

#[test]
fn non_retryable_error_is_relayed_buffered_and_surfaced_in_stream() {
    let mut sim = Sim::three();
    sim.cfg.strict_passthrough = true;
    sim.script.push_back(Behavior::BadRequest);
    let r = sim.post(None, body_of("hi", false));
    assert_eq!(r.status, 400, "buffered 400 relayed verbatim");
    assert!(r.body.contains("bad stream_options"));
    sim.script.push_back(Behavior::BadRequest);
    let r = sim.post(None, body_of("hi", true));
    assert_eq!(r.status, 200, "stream already committed to 200");
    assert!(r.body.contains("proxy_error"), "error surfaced in-stream: {}", r.body);
    assert_eq!(r.label, "400");
}

#[test]
fn saturation_fails_fast_with_504() {
    let mut sim = Sim::new(&["only-key"], 2, 2);
    for _ in 0..2 {
        assert_eq!(sim.post(None, body_of("hi", false)).status, 200);
    }
    let third = sim.post(None, body_of("hi", false));
    assert_eq!(third.status, 504, "no slot within MAX_WAIT_SECS");
    assert_eq!(third.json()["error"]["code"], "rate_limited");
    assert_eq!(sim.hits.len(), 2, "pacer let exactly RPM_PER_KEY through");
}

#[test]
fn conversation_affinity_pins_a_conversation_to_one_key() {
    let mut sim = Sim::three();
    for _ in 0..3 {
        assert_eq!(sim.post(None, body_of("same conversation", false)).status, 200);
    }
    let keys = sim.keys();
    assert_eq!(keys[0], keys[1]);
    assert_eq!(keys[1], keys[2], "conversation stayed on one key: {keys:?}");
    for i in 0..12 {
        let r = sim.post(None, body_of(&format!("distinct conversation {i}"), false));
        assert_eq!(r.status, 200);
    }
    let distinct: std::collections::HashSet<&str> = sim.keys().into_iter().collect();
    assert!(distinct.len() >= 2, "distinct conversations spread across keys");
}

#[test]
fn models_catalog_is_cached_and_auth_gated() {
    let mut sim = Sim::three();
    sim.cfg.clients = Clients::parse("alice:sekrit");
    assert_eq!(sim.models(None).status, 401);
    for _ in 0..3 {
        let r = sim.models(Some("sekrit"));
        assert_eq!(r.status, 200);
        assert_eq!(r.json()["data"][0]["id"], "mock/model-a");
    }
    assert_eq!(sim.catalog_hits, 1, "catalog served from cache after first fetch");
}

#[test]
fn usage_injection_asks_for_usage_and_backs_off_on_rejection() {
    // Default: stream_options injected.
    let mut sim = Sim::three();
    sim.post(None, body_of("hi", true));
    assert_eq!(
        sim.hits[0].body["stream_options"]["include_usage"], true,
        "proxy injected stream_options"
    );
    // Model that 400s on stream_options: retried untouched, then remembered.
    let mut sim = Sim::three();
    sim.script.push_back(Behavior::BadRequestIfInjected);
    let r = sim.post(None, body_of("hi", true));
    assert!(r.body.contains("data: [DONE]"), "recovered after 400: {}", r.body);
    assert_eq!(sim.hits.len(), 2);
    assert!(sim.hits[0].body.get("stream_options").is_some());
    assert!(sim.hits[1].body.get("stream_options").is_none());
    // Next request for the same model: no injection attempt at all.
    sim.post(None, body_of("again", true));
    assert!(sim.hits[2].body.get("stream_options").is_none(), "model remembered");
    // STRICT_PASSTHROUGH disables injection entirely.
    let mut sim = Sim::three();
    sim.cfg.strict_passthrough = true;
    sim.post(None, body_of("hi", true));
    assert!(sim.hits[0].body.get("stream_options").is_none());
}

#[test]
fn stalled_upstream_stream_errors_out_within_idle_timeout() {
    let mut sim = Sim::three();
    sim.script.push_back(Behavior::Hang);
    let r = sim.post(None, body_of("hi", true));
    assert!(r.body.contains("stalled"), "stall surfaced: {}", r.body);
    assert_eq!(r.label, "stall");
}

#[test]
fn buffered_request_times_out_on_hung_upstream() {
    let mut sim = Sim::three();
    sim.script.push_back(Behavior::Hang);
    let r = sim.post(None, body_of("hi", false));
    assert_eq!(r.status, 502, "hung body surfaces as bad_gateway");
    assert_eq!(r.json()["error"]["code"], "bad_gateway");
}

#[test]
fn overloaded_requests_are_shed_with_503() {
    let mut sim = Sim::three();
    // The single in-flight slot is occupied.
    sim.cfg.max_inflight = 1;
    sim.inflight = Inflight { count: 1 };
    let r = sim.post(None, body_of("shed-me", false));
    assert_eq!(r.status, 503, "second request shed at the in-flight cap");
    assert_eq!(r.json()["error"]["code"], "overloaded");
    assert!(sim.hits.is_empty());
}

#[test]
fn upstream_connection_error_is_benched() {
    let mut sim = Sim::new(&["a"], 40, 2);
    for _ in 0..10 {
        sim.script.push_back(Behavior::Unreachable);
    }
    let r = sim.post(None, body_of("hi", false));
    assert_eq!(r.status, 504, "connect failures exhaust to a 504");
    assert_eq!(sim.benched, vec!["connect"]);
}

#[test]
fn worker_exhaustion_governs_the_model_and_spares_the_lane() {
    let mut sim = Sim::three();
    sim.script.push_back(Behavior::WorkerExhausted);
    let r = sim.post(None, body_of("hi", false));
    assert_eq!(r.status, 200);
    assert_eq!(r.json()["choices"][0]["message"]["content"], "hello world");
    assert_eq!(sim.hits.len(), 2, "one exhausted try, one success");
    // The retry waited out the drain gap, not a lane bench.
    assert!(sim.now.nanos < Duration::from_secs(8).nanos);
    assert!(sim.now.nanos >= Duration::from_secs(2).nanos);
    assert!(sim.benched.is_empty(), "worker exhaustion must never bench a lane");
    assert_eq!(
        sim.governor.gauges("mock/model-a"),
        (1, 0),
        "governor engaged at max(1, inflight/2) = 1, permit released after completion"
    );
}

#[test]
fn worker_exhaustion_streaming_retries_inside_the_stream() {
    let mut sim = Sim::three();
    sim.script.push_back(Behavior::WorkerExhausted);
    let r = sim.post(None, body_of("hi", true));
    assert_eq!(r.status, 200, "stream commits to 200 before retrying");
    assert!(r.body.contains(": retrying"), "retry notice sent: {}", r.body);
    assert!(r.body.contains("hello"), "content delivered: {}", r.body);
    assert!(r.body.contains("data: [DONE]"), "stream completed: {}", r.body);
    assert!(sim.benched.is_empty(), "worker exhaustion must never bench a lane");
}

#[test]
fn login_handles_malformed_urlencoded_without_panic() {
    let mut a = Admin::with_key(Some("s3cret".into()), false, vec![1; 32], 0);
    assert!(matches!(
        login_submit_at(&mut a, None, "password=%a\u{20ac}", 1),
        Login::Rejected
    ));
    let (status, page) = login_html(true);
    assert_eq!(status, 401);
    assert!(page.contains("Incorrect password"));
}

#[test]
fn login_throttles_after_repeated_failures() {
    let mut a = Admin::with_key(Some("s3cret".into()), false, vec![1; 32], 0);
    // The cap is 10 failures per window; 11 wrong attempts trips it.
    for _ in 0..11 {
        assert!(matches!(login_submit_at(&mut a, None, "password=wrong", 1), Login::Rejected));
    }
    // Now throttled: even the correct password is refused.
    assert!(matches!(login_submit_at(&mut a, None, "password=s3cret", 1), Login::Throttled));
    assert_eq!(THROTTLED_RETRY_SECS, 60);
}

#[test]
fn secure_mode_gates_dashboard_metrics_and_history() {
    let mut a = Admin::with_key(Some("s3cret".into()), false, vec![1; 32], 0);
    // Scrapers need credentials; Bearer <password> works.
    let mut h = Headers::none();
    assert_eq!(require_admin_at(&a, &h, 1), Verdict::Unauthorized);
    h.authorization = Some("Bearer s3cret".into());
    assert_eq!(require_admin_at(&a, &h, 1), Verdict::Pass);
    // A browser without a session is redirected to /login.
    let mut h = Headers::none();
    h.accept = Some("text/html".into());
    assert_eq!(require_admin_at(&a, &h, 1), Verdict::Login);
    // Wrong password is rejected; correct password sets a session cookie.
    assert!(matches!(login_submit_at(&mut a, None, "password=wrong", 1), Login::Rejected));
    let Login::Granted(cookie) = login_submit_at(&mut a, None, "password=s3cret", 1) else {
        panic!("expected a session");
    };
    assert!(cookie.contains("nimproxy_session="));
    assert!(cookie.contains("HttpOnly"));
    assert!(cookie.contains("SameSite=Strict"));
    // The session cookie then opens the dashboard.
    h.cookie = Some(cookie.split(';').next().unwrap().to_owned());
    assert_eq!(require_admin_at(&a, &h, 1), Verdict::Pass);
    // API still requires a valid key.
    let mut sim = Sim::three();
    sim.cfg.clients = Clients::parse("api-key-1");
    assert_eq!(sim.post(None, body_of("hi", false)).status, 401);
    assert_eq!(sim.post(Some("api-key-1"), body_of("hi", false)).status, 200);
}

#[test]
fn refuses_to_start_without_auth() {
    let refused = |more: &[(&str, &str)]| {
        let mut v = vec![("NIM_API_KEYS".to_owned(), "k".to_owned())];
        v.extend(more.iter().map(|(k, x)| (k.to_string(), x.to_string())));
        matches!(configure(&v), Err(Refusal::NoAuth { .. }))
    };
    // Nothing set: no INSECURE flag, no admin password, no API keys.
    assert!(refused(&[]));
    // Partial config is still refused (only a password, no API key).
    assert!(refused(&[("ADMIN_PASSWORD", "pw")]));
    // Only API keys, no admin password: still refused.
    assert!(refused(&[("PROXY_API_KEYS", "k")]));
}

#[test]
fn model_label_is_sanitized_in_metrics() {
    // A malicious model id carrying Prometheus/HTML/log injection payloads.
    let evil = "<img src=x onerror=alert(1)>\"} pwn 1\nmeta";
    let body = serde_json::Value::Object(serde_json::Map::from_iter([
        ("model".to_owned(), serde_json::Value::from(evil)),
        (
            "messages".to_owned(),
            serde_json::from_str("[{\"role\":\"user\",\"content\":\"hi\"}]").unwrap(),
        ),
    ]));
    let mut sim = Sim::three();
    assert_eq!(sim.post(None, body.to_string().into_bytes()).status, 200);
    // What goes upstream is what the client asked for.
    assert_eq!(sim.hits[0].body["model"], evil);
    assert_eq!(sim.labels, ["imgsrcxonerroralert1pwn1meta"]);
    let value = &sim.labels[0];
    assert!(
        value
            .chars()
            .all(|c| c.is_ascii_alphanumeric() || matches!(c, '.' | '_' | '-' | '/' | ':')),
        "unsafe chars in model label: {value:?}"
    );
}

#[test]
fn history_records_snapshots_and_survives_restart() {
    let mut h = History::load(b"", true, 30);
    let mut file = String::new();
    for t in 0..3 {
        match h.append(1_000 + t, format!("nimproxy_requests_total {t}")) {
            Write::Append(line) => file.push_str(&line),
            _ => panic!("expected an append"),
        }
    }
    let points: Vec<serde_json::Value> =
        serde_json::from_str(&query_answer(&h.range(0, 2_000, 288))).unwrap();
    assert!(points.len() >= 2, "sampler ran: {} points", points.len());
    let last = points.last().unwrap()["m"].as_str().unwrap();
    assert!(last.contains("nimproxy"), "snapshots carry metrics: {last}");
    // Restart on the same file: history is reloaded from disk.
    let again = History::load(file.as_bytes(), true, 30);
    assert_eq!(again.range(0, 2_000, 288).len(), points.len());
}

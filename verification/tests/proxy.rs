use std::hash::{DefaultHasher, Hash, Hasher};

use nim_proxy::clients::Clients;
use nim_proxy::errors::{bad_gateway, error_body, gateway_timeout, unauthorized_json};
use nim_proxy::proxy::{
    backoff_for, buffered, classify, deadline, handle, relay, retryable, upstream_request, Attempt,
    Buffered, Catalog, Fetched, Handling, Inflight, Penalty, Relayed,
};
use nim_proxy::quality::ToolChoice;
use nim_proxy::request::{is_catalog_request, plan, plan_parsed};
use nim_proxy::startup::Config;
use nim_proxy::time::{Duration, Instant};

fn running() -> Config {
    Config {
        base_url: "http://up".into(),
        max_wait: Duration::from_secs(900),
        heartbeat: Duration::from_secs(10),
        models_ttl: Duration::from_secs(600),
        stream_idle: Duration::from_secs(300),
        request_timeout: Duration::from_secs(300),
        strict_passthrough: false,
        max_inflight: 512,
        clients: None,
    }
}

fn secs(n: u64) -> Instant {
    Instant { nanos: n as u128 * 1_000_000_000 }
}

fn answered(status: u16, retry_after: Option<&str>) -> Attempt {
    Attempt::Answered {
        status,
        retry_after: retry_after.map(str::to_owned),
        exhausted: false,
    }
}

fn exhausted(status: u16) -> Attempt {
    Attempt::Answered { status, retry_after: None, exhausted: true }
}

fn chat(convo: &str, stream: bool) -> Vec<u8> {
    format!(
        "{{\"model\":\"mock/model-a\",\"stream\":{stream},\"messages\":[{{\"role\":\"system\",\"content\":\"you are a test\"}},{{\"role\":\"user\",\"content\":\"{convo}\"}}]}}"
    )
    .into_bytes()
}

const CHAT: &str = "/v1/chat/completions";

#[test]
fn transient_statuses_are_retryable() {
    for status in [429, 500, 502, 503, 504] {
        assert!(retryable(status));
    }
    for status in [200, 400, 401, 404, 501, 505] {
        assert!(!retryable(status));
    }
}

#[test]
fn retry_after_is_honored() {
    assert_eq!(backoff_for(&Some("3".into())), Duration::from_secs(3));
    assert_eq!(backoff_for(&Some("soon".into())), Duration::from_secs(10));
    assert_eq!(backoff_for(&None), Duration::from_secs(10));
}

#[test]
fn buffered_requests_ride_out_trouble() {
    match buffered(&answered(429, Some("2")), secs(1), secs(30)) {
        Buffered::Retry(Penalty::Benched { reason, backoff }) => {
            assert_eq!(reason, "429");
            assert_eq!(backoff, Duration::from_secs(2));
        }
        _ => panic!("expected a bench"),
    }
    match buffered(&Attempt::Failed, secs(99), secs(30)) {
        Buffered::Retry(Penalty::Benched { reason, backoff }) => {
            assert_eq!(reason, "connect");
            assert_eq!(backoff, Duration::from_secs(5));
        }
        _ => panic!("expected a bench"),
    }
    assert!(matches!(buffered(&Attempt::NoSlot, secs(1), secs(30)), Buffered::TimedOut));
    assert!(matches!(buffered(&answered(200, None), secs(1), secs(30)), Buffered::Relay));
    assert!(matches!(buffered(&answered(400, None), secs(1), secs(30)), Buffered::Relay));
    // At the deadline trouble is handed on.
    assert!(matches!(buffered(&answered(503, None), secs(30), secs(30)), Buffered::Relay));
}

#[test]
fn worker_exhaustion_spares_the_lane() {
    let body = "ResourceExhausted: Worker local total request limit reached (32/32)";
    assert!(classify(429, body));
    assert!(classify(503, body));
    assert!(!classify(400, body));
    assert!(!classify(429, "rate limited"));
    assert!(matches!(
        buffered(&exhausted(429), secs(1), secs(30)),
        Buffered::Retry(Penalty::Spared)
    ));
}

#[test]
fn answers_are_relayed_with_their_usage() {
    let body = b"{\"choices\":[{\"message\":{\"tool_calls\":[{\"id\":\"c1\"}]},\"finish_reason\":\"tool_calls\"},{\"finish_reason\":\"banana\"}],\"usage\":{\"prompt_tokens\":11,\"completion_tokens\":2,\"completion_tokens_details\":{\"reasoning_tokens\":7}}}";
    match relay(200, &None, Some(body)) {
        Relayed::Passed { status, content_type, usage, quality } => {
            assert_eq!(status, 200);
            assert_eq!(content_type, "application/json");
            let usage = usage.unwrap();
            assert_eq!((usage.prompt, usage.completion), (Some(11), Some(2)));
            assert_eq!(quality.tool_calls_ended, 1);
            assert_eq!(quality.other, 1);
            assert_eq!(quality.calls, 1);
            assert_eq!(quality.reasoning, Some(7));
            assert_eq!(quality.stop + quality.length + quality.content_filter, 0);
        }
        _ => panic!("expected the answer"),
    }
    // Only successes are accounted for.
    match relay(404, &Some("text/plain".into()), Some(body)) {
        Relayed::Passed { status, content_type, usage, quality } => {
            assert_eq!((status, content_type.as_str()), (404, "text/plain"));
            assert!(usage.is_none());
            assert_eq!(quality.calls, 0);
        }
        _ => panic!("expected the answer"),
    }
    match relay(200, &None, None) {
        Relayed::Lost(e) => assert_eq!((e.status, e.code.as_str()), (502, "bad_gateway")),
        _ => panic!("expected an error"),
    }
    match relay(42, &None, Some(b"")) {
        Relayed::Passed { status, .. } => assert_eq!(status, 502),
        _ => panic!("expected the answer"),
    }
}

#[test]
fn requests_are_addressed_with_the_key_of_the_lane() {
    let r = upstream_request(
        "https://up.example",
        "/v1/chat/completions?x=1",
        "nvapi-1",
        &Some("application/json".into()),
        &None,
        b"{}",
    );
    assert_eq!(r.url, "https://up.example/v1/chat/completions?x=1");
    assert_eq!(r.authorization, "Bearer nvapi-1");
    assert_eq!(r.content_type.as_deref(), Some("application/json"));
    assert_eq!(r.accept, None);
    assert!(r.has_body);
    assert!(!upstream_request("u", "/", "k", &None, &Some("a".into()), b"").has_body);
    assert_eq!(deadline(secs(5), Duration::from_secs(30)), secs(35));
}

#[test]
fn catalog_is_cached() {
    let mut c = Catalog { fetched: None };
    let ttl = Duration::from_secs(600);
    assert_eq!(c.cached(ttl, secs(0)), None);
    assert!(matches!(c.refreshed(&answered(200, None), b"[1]", secs(10)), Fetched::Kept));
    assert_eq!(c.cached(ttl, secs(609)), Some(b"[1]".to_vec()));
    assert_eq!(c.cached(ttl, secs(610)), None);
    assert_eq!(c.cached(Duration::from_secs(0), secs(10)), None);
    // Errors are handed on and leave the cache alone.
    match c.refreshed(&answered(429, Some("1")), b"no", secs(700)) {
        Fetched::Passed { status, penalty: Penalty::Benched { reason, backoff } } => {
            assert_eq!((status, reason.as_str()), (429, "429"));
            assert_eq!(backoff, Duration::from_secs(1));
        }
        _ => panic!("expected an error"),
    }
    assert!(matches!(
        c.refreshed(&answered(404, None), b"no", secs(700)),
        Fetched::Passed { status: 404, penalty: Penalty::Spared }
    ));
    assert!(matches!(c.refreshed(&Attempt::NoSlot, b"", secs(700)), Fetched::TimedOut));
    assert!(matches!(c.refreshed(&Attempt::Failed, b"", secs(700)), Fetched::TimedOut));
    assert_eq!(c.cached(ttl, secs(100)), Some(b"[1]".to_vec()));
}

#[test]
fn in_flight_requests_are_capped() {
    let mut i = Inflight { count: 0 };
    assert!(i.enter(1));
    assert!(!i.enter(1));
    assert!(i.enter(2));
    i.leave();
    i.leave();
    assert!(i.enter(1));
    i.leave();
    i.leave();
    assert_eq!(i.count, 0);
}

#[test]
fn requests_are_planned() {
    let p = plan(chat("hi", false), CHAT, false, &Vec::new(), 3);
    assert_eq!(p.model, "mock/model-a");
    assert!(!p.wants_stream);
    assert_eq!(p.body, chat("hi", false));
    assert!(p.fallback.is_none());
    assert!(p.prefer.unwrap() < 3);
    assert_eq!(p.shape.unwrap().messages, Some(2));
    // What is not JSON is passed through all the same.
    let p = plan(b"nope".to_vec(), CHAT, false, &Vec::new(), 3);
    assert_eq!((p.model.as_str(), p.wants_stream, p.prefer), ("none", false, None));
    assert_eq!(p.body, b"nope");
    assert!(p.shape.is_none());
    let p = plan_parsed(None, b"{}".to_vec(), CHAT, false, &Vec::new(), 1);
    assert_eq!(p.body, b"{}");
}

#[test]
fn usage_is_asked_for_on_the_clients_behalf() {
    let p = plan(chat("hi", true), CHAT, false, &Vec::new(), 3);
    assert!(p.wants_stream);
    let sent: serde_json::Value = serde_json::from_slice(&p.body).unwrap();
    assert_eq!(sent["stream_options"]["include_usage"], true);
    assert_eq!(sent["model"], "mock/model-a");
    assert_eq!(sent["messages"][1]["content"], "hi");
    assert_eq!(p.fallback, Some(chat("hi", true)));
    // Not where bodies must not be touched, the model rejects it, the path is
    // another, or the client decided.
    assert!(plan(chat("hi", true), CHAT, true, &Vec::new(), 3).fallback.is_none());
    assert!(plan(chat("hi", true), CHAT, false, &vec!["mock/model-a".into()], 3)
        .fallback
        .is_none());
    assert!(plan(chat("hi", true), "/v1/completions", false, &Vec::new(), 3)
        .fallback
        .is_none());
    let own = b"{\"stream\":true,\"stream_options\":null}".to_vec();
    let p = plan(own.clone(), CHAT, false, &Vec::new(), 3);
    assert!(p.fallback.is_none());
    assert_eq!(p.body, own);
}

#[test]
fn conversations_keep_their_lane() {
    let lanes = 1_000_003;
    let first = plan(chat("same", false), CHAT, false, &Vec::new(), lanes).prefer.unwrap();
    let later = b"{\"messages\":[{\"content\":\"you are a test\",\"role\":\"system\"},{\"role\":\"user\",\"content\":\"same\"},{\"role\":\"assistant\",\"content\":\"x\"}],\"model\":\"mock/model-a\",\"stream\":true}".to_vec();
    assert_eq!(plan(later, CHAT, true, &Vec::new(), lanes).prefer, Some(first));
    let distinct: std::collections::HashSet<usize> = (0..12)
        .map(|i| plan(chat(&format!("distinct conversation {i}"), false), CHAT, false, &Vec::new(), 3).prefer.unwrap())
        .collect();
    assert!(distinct.len() >= 2);
    assert_eq!(plan(b"{\"messages\":5}".to_vec(), CHAT, false, &Vec::new(), 3).prefer, None);
    assert!(plan(b"{\"messages\":[]}".to_vec(), CHAT, false, &Vec::new(), 3).prefer.is_some());
}

#[test]
fn conversations_without_a_system_prompt_keep_their_lane_too() {
    let lanes = 1_000_003;
    let prefer = |messages: &str| {
        let body = format!("{{\"model\":\"m\",\"messages\":{messages}}}");
        plan(body.into_bytes(), CHAT, false, &Vec::new(), lanes).prefer.unwrap()
    };
    let u1 = "{\"role\":\"user\",\"content\":\"hi\"}";
    let a1 = "{\"role\":\"assistant\",\"content\":\"hello\"}";
    let u2 = "{\"role\":\"user\",\"content\":\"more\"}";
    let sys = "{\"role\":\"system\",\"content\":\"be brief\"}";
    let first = prefer(&format!("[{u1}]"));
    assert_eq!(prefer(&format!("[{u1},{a1},{u2}]")), first);
    assert_eq!(prefer(&format!("[{u1},{a1},{u2},{a1},{u1}]")), first);
    assert_ne!(prefer(&format!("[{u2}]")), first);
    // Another system prompt is another conversation; one in the middle is not.
    assert_ne!(prefer(&format!("[{sys},{u1}]")), first);
    assert_eq!(prefer(&format!("[{u1},{sys}]")), first);
    assert_eq!(prefer(&format!("[{sys},{a1},{u1}]")), prefer(&format!("[{sys},{u1},{a1},{u2}]")));
}

#[test]
fn requests_are_planned_without_lanes_too() {
    let p = plan(chat("hi", false), CHAT, false, &Vec::new(), 0);
    assert_eq!((p.prefer, p.body), (None, chat("hi", false)));
    assert_eq!(plan(b"{\"input\":\"x\"}".to_vec(), "/v1/embeddings", false, &Vec::new(), 0).prefer, None);
    let mut inflight = Inflight { count: 0 };
    let none = Vec::new();
    assert!(matches!(
        handle(&running(), &None, &mut inflight, "POST", CHAT, chat("hi", true), &none, 0),
        Handling::Serve { plan, .. } if plan.prefer.is_none()
    ));
}

#[test]
fn plans_carry_a_label_that_is_safe() {
    let p = plan(b"{\"model\":\"a b\\n<c>\"}".to_vec(), CHAT, false, &Vec::new(), 1);
    assert_eq!((p.model.as_str(), p.label.as_str()), ("a b\n<c>", "abc"));
    assert_eq!(plan(b"nope".to_vec(), CHAT, false, &Vec::new(), 1).label, "none");
}

#[test]
fn affinity_is_the_standard_hash_of_model_and_opening() {
    let mut h = DefaultHasher::new();
    "mock/model-a".hash(&mut h);
    "{\"content\":\"you are a test\",\"role\":\"system\"}".to_owned().hash(&mut h);
    "{\"content\":\"hi\",\"role\":\"user\"}".to_owned().hash(&mut h);
    assert_eq!(
        plan(chat("hi", false), CHAT, false, &Vec::new(), 7).prefer,
        Some((h.finish() % 7) as usize)
    );
}

#[test]
fn request_shape_is_counted() {
    let body = b"{\"model\":\"m\",\"max_tokens\":4096,\"tools\":[{},{}],\"tool_choice\":\"required\",\"response_format\":{\"type\":\"json_object\"},\"messages\":[1]}".to_vec();
    let s = plan(body, CHAT, false, &Vec::new(), 1).shape.unwrap();
    assert_eq!(s.messages, Some(1));
    assert_eq!(s.tools, 2);
    assert_eq!(s.max_tokens, Some(4096));
    assert_eq!(s.tool_choice, Some(ToolChoice::Required));
    assert!(s.json_mode);
    let choice = |c: &str| {
        plan(format!("{{\"tool_choice\":{c}}}").into_bytes(), CHAT, false, &Vec::new(), 1)
            .shape
            .unwrap()
            .tool_choice
            .map(|t| t.label())
    };
    assert_eq!(choice("\"auto\""), Some("auto"));
    assert_eq!(choice("\"none\""), Some("none"));
    assert_eq!(choice("{\"type\":\"function\"}"), Some("named"));
    assert_eq!(choice("\"banana\""), None);
    assert_eq!(choice("3"), None);
}

#[test]
fn api_calls_are_let_in_one_by_one() {
    let known = Clients::parse("alice:sekrit");
    let mut cfg = running();
    cfg.clients = known;
    cfg.max_inflight = 2;
    let mut inflight = Inflight { count: 0 };
    let none = Vec::new();
    let mut call = |auth: Option<&str>, method: &str, path: &str, inflight: &mut Inflight| {
        handle(
            &cfg,
            &auth.map(str::to_owned),
            inflight,
            method,
            path,
            chat("hi", false),
            &none,
            3,
        )
    };
    match call(None, "GET", "/v1/models", &mut inflight) {
        Handling::Unauthorized(e) => {
            assert_eq!((e.status, e.code.as_str(), e.challenge), (401, "unauthorized", true))
        }
        _ => panic!("expected a refusal"),
    }
    assert_eq!(inflight.count, 0);
    assert!(matches!(
        call(Some("Bearer sekrit"), "GET", "/v1/models", &mut inflight),
        Handling::Catalog { client } if client == "alice"
    ));
    match call(Some("Bearer sekrit"), "POST", CHAT, &mut inflight) {
        Handling::Serve { client, plan } => {
            assert_eq!(client, "alice");
            assert_eq!(plan.body, chat("hi", false));
        }
        _ => panic!("expected a plan"),
    }
    match call(Some("Bearer sekrit"), "POST", CHAT, &mut inflight) {
        Handling::Shed(e) => {
            assert_eq!((e.status, e.code.as_str(), e.retry_after), (503, "overloaded", Some(5)))
        }
        _ => panic!("expected to be shed"),
    }
    assert!(is_catalog_request("GET", "/v1/models"));
    assert!(!is_catalog_request("POST", "/v1/models"));
}

#[test]
fn errors_say_what_is_wrong() {
    let e = gateway_timeout(900, 3);
    assert_eq!((e.status, e.code.as_str()), (504, "rate_limited"));
    assert_eq!(
        e.message,
        "no upstream slot became available within 900s (all 3 keys saturated)"
    );
    assert_eq!(
        error_body(&e.code, "a \"b\""),
        "{\"error\":{\"code\":\"rate_limited\",\"message\":\"a \\\"b\\\"\",\"type\":\"proxy_error\"}}"
    );
    assert_eq!(bad_gateway().status, 502);
    assert!(unauthorized_json().challenge);
}

use nim_proxy::proxy::{Attempt, Penalty};
use nim_proxy::stream::{Action, Event, Next, Phase, Stream, RETRYING};
use nim_proxy::time::{Duration, Instant};

fn secs(n: u64) -> Instant {
    Instant { nanos: n as u128 * 1_000_000_000 }
}

fn open(fallback: Option<&[u8]>) -> Stream {
    Stream::open(secs(30), b"sent".to_vec(), fallback.map(<[u8]>::to_vec))
}

fn answer(status: u16, exhausted: bool) -> Event<'static> {
    Event::Attempted(Attempt::Answered { status, retry_after: None, exhausted })
}

fn label(a: &Action) -> &str {
    match &a.next {
        Next::Record { label, .. } => label,
        _ => panic!("expected a record"),
    }
}

fn told(a: &Action) -> &str {
    a.frame.as_deref().unwrap()
}

#[test]
fn a_stream_rides_out_429s_and_is_piped_through() {
    let mut s = open(None);
    let a = s.on(answer(429, false), secs(1));
    assert!(matches!(&a.penalty, Penalty::Benched { reason, backoff }
        if reason == "429" && *backoff == Duration::from_secs(10)));
    assert_eq!(told(&a), RETRYING);
    assert!(matches!(a.next, Next::Queue));
    let a = s.on(Event::Attempted(Attempt::Failed), secs(2));
    assert!(matches!(&a.penalty, Penalty::Benched { reason, .. } if reason == "connect"));
    assert!(a.frame.is_none());
    let a = s.on(answer(200, false), secs(3));
    assert!(matches!(a.next, Next::Read));
    assert_eq!(s.phase, Phase::Piping);
    s.on(Event::Chunk(b"data: {\"choices\":[{\"delta\":{\"tool_calls\":[{\"id\":\"c\"}]},\"finish_reason\":null}]}\n"), secs(4));
    s.on(Event::Chunk(b"data: {\"choices\":[{\"delta\":{\"tool_calls\":[{\"index\":0}]},\"finish_reason\":\"tool_calls\"}],\"usage\":{\"prompt_tokens\":11,\"completion_tokens\":2}}\n\ndata: [DONE]\n\n"), secs(4));
    let a = s.on(Event::Ended, secs(5));
    assert_eq!(label(&a), "200");
    assert!(a.frame.is_none());
    match a.next {
        Next::Record { tokens: Some(t), .. } => {
            assert_eq!((t.prompt, t.completion, t.source), (Some(11), 2, "usage"));
        }
        _ => panic!("expected tokens"),
    }
    assert_eq!(s.scan.quality.calls, 1);
    assert_eq!(s.scan.quality.tool_calls_ended, 1);
    assert_eq!(s.phase, Phase::Closed);
}

#[test]
fn tokens_are_estimated_without_usage() {
    let mut s = open(None);
    s.on(answer(200, false), secs(1));
    s.on(Event::Chunk(b"data: {}\n\ndata: {}\n\n"), secs(1));
    match s.on(Event::Ended, secs(1)).next {
        Next::Record { tokens: Some(t), .. } => {
            assert_eq!((t.prompt, t.completion, t.source), (None, 2, "estimate"));
        }
        _ => panic!("expected tokens"),
    }
}

#[test]
fn an_addition_that_is_rejected_is_taken_back_once() {
    let mut s = open(Some(b"untouched"));
    let a = s.on(answer(400, false), secs(1));
    assert!(a.remember);
    assert!(matches!(a.next, Next::Queue));
    assert!(matches!(a.penalty, Penalty::Spared));
    assert_eq!(s.body, b"untouched");
    let a = s.on(answer(400, false), secs(1));
    assert!(!a.remember);
    assert!(matches!(a.next, Next::Explain));
    let a = s.on(
        Event::Explained { status: "400 Bad Request", detail: "bad" },
        secs(1),
    );
    assert_eq!(label(&a), "400");
    assert_eq!(
        told(&a),
        "data: {\"error\":{\"code\":\"upstream_unavailable\",\"message\":\"upstream error 400 Bad Request: bad\",\"type\":\"proxy_error\"}}\n\ndata: [DONE]\n\n"
    );
}

#[test]
fn retries_end_at_the_deadline() {
    let mut s = open(None);
    let a = s.on(answer(503, false), secs(30));
    assert_eq!(label(&a), "504");
    assert!(told(&a).contains("upstream unavailable, retries exhausted"));
    let mut s = open(None);
    let a = s.on(Event::Attempted(Attempt::NoSlot), secs(1));
    assert_eq!(label(&a), "504");
    assert!(told(&a).contains("proxy timed out waiting for an upstream slot"));
}

#[test]
fn exhausted_workers_are_waited_out_in_the_stream() {
    let mut s = open(None);
    let a = s.on(answer(429, true), secs(1));
    assert!(matches!(a.penalty, Penalty::Spared));
    assert_eq!(told(&a), ": retrying\n\n");
    assert!(matches!(a.next, Next::Queue));
}

#[test]
fn broken_streams_are_told_and_recorded() {
    let pipe = || {
        let mut s = open(None);
        s.on(answer(200, false), secs(1));
        s
    };
    let a = pipe().on(Event::Stalled, secs(2));
    assert_eq!(label(&a), "stall");
    assert!(told(&a).contains("upstream stream stalled"));
    assert!(told(&a).ends_with("data: [DONE]\n\n"));
    let a = pipe().on(Event::Broken, secs(2));
    assert_eq!(label(&a), "stream_error");
    assert!(told(&a).contains("upstream stream interrupted"));
    let a = pipe().on(Event::Gone, secs(2));
    assert_eq!(label(&a), "disconnect");
    assert!(a.frame.is_none());
}

use nim_proxy::errors::sse_error;
use nim_proxy::sse::SseScan;
use nim_proxy::usage::read_usage;

#[test]
fn scan_counts_events_and_finds_usage() {
    let mut scan = SseScan::default();
    // Feed in awkwardly split chunks to exercise line reassembly.
    scan.feed(b": heartbeat\n\ndata: {\"choices\":[{\"delta\":{\"content\":\"hi\"}}]}\n\ndata: {\"cho");
    scan.feed(b"ices\":[],\"usage\":{\"prompt_tokens\":120,\"completion_tokens\":45}}\n\ndata: [DONE]\n\n");
    assert_eq!(scan.events, 2);
    assert_eq!(scan.prompt, Some(120));
    assert_eq!(scan.completion, Some(45));
}

#[test]
fn scan_without_usage_estimates_by_events() {
    let mut scan = SseScan::default();
    scan.feed(b"data: {\"a\":1}\n\ndata: {\"b\":2}\n\ndata: {\"c\":3}\n\ndata: [DONE]\n\n");
    assert_eq!(scan.events, 3);
    assert_eq!(scan.completion, None);
}

#[test]
fn scan_does_not_mind_how_a_stream_is_cut() {
    let whole = "data: {\"usage\":{\"prompt_tokens\":3}}\r\n\ndata: {\"usage\":null}\n: \u{20ac}\ndata:{\"usage\":{\"completion_tokens\":4}}\n";
    let mut one = SseScan::default();
    one.feed(whole.as_bytes());
    let mut many = SseScan::default();
    for c in whole.chars() {
        many.feed(c.to_string().as_bytes());
    }
    assert_eq!((one.events, one.prompt, one.completion), (3, Some(3), Some(4)));
    assert_eq!(
        (many.events, many.prompt, many.completion),
        (one.events, one.prompt, one.completion)
    );
}

#[test]
fn scan_gives_up_on_a_line_without_end() {
    let mut scan = SseScan::default();
    scan.feed(&vec![b'x'; 1_048_576]);
    assert_eq!(scan.buf.len(), 1_048_576);
    scan.feed(b"x");
    assert_eq!(scan.buf.len(), 0);
}

#[test]
fn usage_is_read_from_a_document() {
    let u = read_usage(b"{\"usage\":{\"prompt_tokens\":11,\"completion_tokens\":2}}").unwrap();
    assert_eq!((u.prompt, u.completion), (Some(11), Some(2)));
    let u = read_usage(b"{\"usage\":{\"prompt_tokens\":\"many\"}}").unwrap();
    assert_eq!((u.prompt, u.completion), (None, None));
    assert!(read_usage(b"{\"usage\":null}").is_none());
    assert!(read_usage(b"nope").is_none());
}

#[test]
fn error_frames_end_the_stream() {
    assert_eq!(
        sse_error("upstream \"broke\"\n"),
        "data: {\"error\":{\"code\":\"upstream_unavailable\",\"message\":\"upstream \\\"broke\\\"\\n\",\"type\":\"proxy_error\"}}\n\ndata: [DONE]\n\n"
    );
}

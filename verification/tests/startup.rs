use nim_proxy::clients::{authenticate, parse_list, Clients};
use nim_proxy::labels::{bounded_label, label_path, sanitize_label, MAX_LABELS};
use nim_proxy::pages::login_html;
use nim_proxy::startup::{configure, Refusal, Setting, Startup};
use nim_proxy::time::Duration;

fn vars(list: &[(&str, &str)]) -> Vec<(String, String)> {
    list.iter().map(|(k, v)| (k.to_string(), v.to_string())).collect()
}

fn open_mode(more: &[(&str, &str)]) -> Result<Startup, Refusal> {
    let mut v = vars(&[("NIM_API_KEYS", "k"), ("INSECURE_NO_AUTH", "true")]);
    v.extend(vars(more));
    configure(&v)
}

#[test]
fn defaults_are_used() {
    let s = open_mode(&[]).ok().unwrap();
    assert_eq!(s.keys, vec!["k"]);
    assert!(s.config.clients.is_none());
    assert_eq!(s.admin_password, None);
    assert!(s.insecure && !s.trust_proxy);
    assert_eq!((s.rpm, s.port, s.config.max_inflight, s.history_days, s.sample_secs), (40, 8000, 512, 30, 300));
    assert_eq!(s.config.base_url, "https://integrate.api.nvidia.com");
    assert_eq!(s.config.max_wait, Duration::from_secs(900));
    assert_eq!(s.config.heartbeat, Duration::from_secs(10));
    assert_eq!(s.config.models_ttl, Duration::from_secs(600));
    assert_eq!(s.config.stream_idle, Duration::from_secs(300));
    assert_eq!(s.config.request_timeout, Duration::from_secs(300));
    assert!(!s.config.strict_passthrough);
    assert_eq!(s.data_dir.as_deref(), Some("data"));
    assert_eq!(s.host, "0.0.0.0");
}

#[test]
fn settings_are_read() {
    let s = open_mode(&[
        ("RPM_PER_KEY", "2"),
        ("NIM_BASE_URL", "http://up//"),
        ("MAX_WAIT_SECS", "5"),
        ("STRICT_PASSTHROUGH", "true"),
        ("DATA_DIR", ""),
        ("HISTORY_SAMPLE_SECS", "0"),
        ("TRUST_PROXY", "true"),
        ("PORT", "65535"),
    ])
    .ok()
    .unwrap();
    assert_eq!(s.rpm, 2);
    assert_eq!(s.config.base_url, "http://up");
    assert_eq!(s.config.max_wait, Duration::from_secs(5));
    assert!(s.config.strict_passthrough && s.trust_proxy);
    assert_eq!((s.data_dir, s.sample_secs, s.port), (None, 1, 65535));
}

#[test]
fn it_fails_closed() {
    let refused = |list: &[(&str, &str)]| configure(&vars(list)).err();
    assert_eq!(refused(&[]), Some(Refusal::NoKeys));
    assert_eq!(refused(&[("NIM_API_KEYS", " , ")]), Some(Refusal::NoKeys));
    assert_eq!(
        refused(&[("NIM_API_KEYS", "k")]),
        Some(Refusal::NoAuth { clients: false, password: false })
    );
    assert_eq!(
        refused(&[("NIM_API_KEYS", "k"), ("PROXY_API_KEYS", "a:b"), ("INSECURE_NO_AUTH", "yes")]),
        Some(Refusal::NoAuth { clients: true, password: false })
    );
    assert_eq!(
        refused(&[("NIM_API_KEYS", "k"), ("ADMIN_PASSWORD", "p")]),
        Some(Refusal::NoAuth { clients: false, password: true })
    );
    let s = configure(&vars(&[
        ("NIM_API_KEYS", "k"),
        ("PROXY_API_KEYS", "a:b"),
        ("ADMIN_PASSWORD", "p"),
    ]))
    .ok()
    .unwrap();
    assert!(s.config.clients.is_some() && s.admin_password.is_some() && !s.insecure);
}

#[test]
fn unreadable_settings_are_named() {
    assert_eq!(open_mode(&[("RPM_PER_KEY", "0")]).err(), Some(Refusal::ZeroRate));
    for (name, setting) in [
        ("RPM_PER_KEY", Setting::RpmPerKey),
        ("MAX_WAIT_SECS", Setting::MaxWaitSecs),
        ("HEARTBEAT_SECS", Setting::HeartbeatSecs),
        ("MODELS_TTL_SECS", Setting::ModelsTtlSecs),
        ("STREAM_IDLE_SECS", Setting::StreamIdleSecs),
        ("REQUEST_TIMEOUT_SECS", Setting::RequestTimeoutSecs),
        ("STRICT_PASSTHROUGH", Setting::StrictPassthrough),
        ("PORT", Setting::Port),
        ("MAX_INFLIGHT", Setting::MaxInflight),
        ("HISTORY_DAYS", Setting::HistoryDays),
        ("HISTORY_SAMPLE_SECS", Setting::HistorySampleSecs),
    ] {
        assert_eq!(setting.name(), name);
        assert_eq!(open_mode(&[(name, "many")]).err(), Some(Refusal::Unreadable(setting)));
    }
    assert_eq!(open_mode(&[("PORT", "65536")]).err(), Some(Refusal::Unreadable(Setting::Port)));
    assert_eq!(
        open_mode(&[("STRICT_PASSTHROUGH", "True")]).err(),
        Some(Refusal::Unreadable(Setting::StrictPassthrough))
    );
}

#[test]
fn lists_are_trimmed() {
    assert_eq!(parse_list(" a ,, b,"), vec!["a", "b"]);
    assert!(parse_list("").is_empty());
}

#[test]
fn clients_are_known_by_their_secret() {
    let c = Clients::parse("alice: s1 , bare, bob:s1,x:y:z").unwrap();
    // The last entry of a secret wins.
    assert_eq!(c.identify("s1").as_deref(), Some("bob"));
    assert_eq!(c.identify("bare").as_deref(), Some("client1"));
    assert_eq!(c.identify("y:z").as_deref(), Some("x"));
    assert_eq!(c.identify("nope"), None);
    assert!(Clients::parse(" , ").is_none());
    let known = Some(c);
    assert_eq!(authenticate(&known, &Some("Bearer bare".into())).as_deref(), Some("client1"));
    assert_eq!(authenticate(&known, &Some("bearer bare".into())), None);
    assert_eq!(authenticate(&known, &None), None);
    assert_eq!(authenticate(&None, &None).as_deref(), Some("local"));
}

#[test]
fn labels_are_sanitized() {
    let evil = "<img src=x onerror=alert(1)>\"} pwn 1\nmeta";
    assert_eq!(sanitize_label(evil), "imgsrcxonerroralert1pwn1meta");
    assert_eq!(sanitize_label("meta/llama-3.1:70b_x"), "meta/llama-3.1:70b_x");
    assert_eq!(sanitize_label(&"a".repeat(100)).len(), 64);
    assert_eq!(sanitize_label("\u{e9}"), "");
}

#[test]
fn labels_are_bounded() {
    let mut seen = Vec::new();
    for i in 0..MAX_LABELS {
        let l = format!("m{i}");
        assert_eq!(bounded_label(&mut seen, &l), l);
    }
    assert_eq!(bounded_label(&mut seen, "one-more"), "other");
    assert_eq!(bounded_label(&mut seen, "m7"), "m7");
    assert_eq!(seen.len(), MAX_LABELS);
}

#[test]
fn paths_are_labelled() {
    assert_eq!(label_path("/v1/chat/completions"), "/v1/chat/completions");
    assert_eq!(label_path("/v1/models"), "/v1/models");
    assert_eq!(label_path("/v1/models/x"), "other");
}

#[test]
fn login_page_tells_of_a_wrong_password() {
    let (status, page) = login_html(true);
    assert_eq!(status, 401);
    assert!(page.contains("Incorrect password"));
    let (status, page) = login_html(false);
    assert_eq!(status, 200);
    assert!(!page.contains("Incorrect password"));
    assert!(page.contains("name=\"password\""));
}

#[test]
fn minted_clients_are_known_by_the_digest_of_their_secret() {
    // SHA-256 of "abc".
    let digest = "ba7816bf8f01cfea414140de5dae2223b00361a396177a9cb410ff61f20015ad";
    let c = Clients::minted(vec![(digest.to_owned(), "alice".to_owned())]);
    assert_eq!(c.identify("abc").as_deref(), Some("alice"));
    assert_eq!(c.identify(digest), None);
    let known = Some(c);
    assert_eq!(authenticate(&known, &Some("Bearer abc".into())).as_deref(), Some("alice"));
    assert_eq!(authenticate(&known, &None), None);
    // Keyed without keys lets nobody in.
    let nobody = Some(Clients::minted(Vec::new()));
    assert_eq!(authenticate(&nobody, &Some("Bearer abc".into())), None);
}

use nim_proxy::auth::{Admin, Headers, Verdict};
use nim_proxy::clients::authenticate;
use nim_proxy::config::{
    validate, ClientAuth, ClientKey, Invalid, Limits, Mode, NimKey, Retention, Role, StoredConfig, Upstream,
    User,
};
use nim_proxy::crypto::NoRandomness;
use nim_proxy::dispatch::Dispatcher;
use nim_proxy::history::History;
use nim_proxy::password::{hash_password, hash_with, hash_with_draw, pbkdf2, verify_password, ROUNDS};
use nim_proxy::pool::Pool;
use nim_proxy::sessions::{mint_session_cookie, require_session, require_session_at, session_user_at};
use nim_proxy::settings::{
    check, commit, count_models, probe_answer, probe_key, setup_claim, setup_finish, setup_precheck,
    setup_submit, setup_validate_key, CommitError, KeyCheck, Probed, SetupAnswer, SetupKey,
    SetupRefusal, SetupReq, ValidateKeyReq,
};
use nim_proxy::startup::Config;
use nim_proxy::time::Duration;

fn hex(b: &[u8]) -> String {
    b.iter().map(|x| format!("{x:02x}")).collect()
}

fn nim_key(key: &str, owner: &str, enabled: bool, rpm: usize) -> NimKey {
    NimKey { key: key.into(), owner: owner.into(), enabled, rpm }
}

fn store() -> StoredConfig {
    StoredConfig {
        users: Vec::new(),
        upstream: Upstream {
            base_url: "https://up".into(),
            nim_keys: vec![nim_key("old", "ghost", false, 7)],
        },
        client_auth: ClientAuth {
            mode: Mode::Keyed,
            keys: vec![ClientKey {
                name: "n8n".into(),
                secret_sha256: "00".into(),
                owner: "ghost".into(),
            }],
        },
        limits: Limits {
            max_wait_secs: 60,
            heartbeat_secs: 5,
            models_ttl_secs: 7,
            stream_idle_secs: 8,
            request_timeout_secs: 9,
            max_inflight: 10,
            strict_passthrough: true,
        },
        history: Retention { days: 9 },
    }
}

fn request() -> SetupReq {
    SetupReq {
        username: "ann".into(),
        password: "0123456789".into(),
        base_url: Some(" http://other// ".into()),
        nim_keys: vec![
            SetupKey { key: " k1 ".into(), rpm: None },
            SetupKey { key: "k2".into(), rpm: Some(3) },
        ],
    }
}

fn running() -> Config {
    Config {
        base_url: "https://before".into(),
        max_wait: Duration::from_secs(1),
        heartbeat: Duration::from_secs(1),
        models_ttl: Duration::from_secs(1),
        stream_idle: Duration::from_secs(1),
        request_timeout: Duration::from_secs(1),
        strict_passthrough: false,
        max_inflight: 1,
        clients: None,
    }
}

fn runtime() -> (Config, Dispatcher<u32>, History) {
    (
        running(),
        Dispatcher::new(Pool::new(vec!["k1".into()], 1)),
        History::load(b"", false, 30),
    )
}

#[test]
fn setup_builds_the_store() {
    let c = setup_submit(true, &store(), &request(), "hash").ok().unwrap();
    assert_eq!(c.users.len(), 1);
    assert_eq!(c.users[0].username, "ann");
    assert_eq!(c.users[0].password_hash, "hash");
    assert_eq!(c.users[0].role, Role::Superuser);
    assert_eq!(c.superuser().unwrap().username, "ann");
    assert_eq!(c.upstream.base_url, "http://other");
    // Orphans are adopted.
    assert!(c.upstream.nim_keys.iter().all(|k| k.owner == "ann"));
    assert!(c.client_auth.keys.iter().all(|k| k.owner == "ann"));
    assert_eq!(c.client_auth.keys[0].name, "n8n");
    assert_eq!(
        c.pool_keys(),
        vec![("k1".to_owned(), 40), ("k2".to_owned(), 3)]
    );
    assert!(validate(&c).is_ok());
    let mut req = request();
    req.base_url = None;
    let c = setup_submit(true, &store(), &req, "hash").ok().unwrap();
    assert_eq!(c.upstream.base_url, "https://up");
}

#[test]
fn setup_is_refused() {
    assert_eq!(setup_submit(false, &store(), &request(), "").err(), Some(SetupRefusal::NotFound));
    let mut weak = request();
    weak.password = "012345678".into();
    assert_eq!(setup_precheck(true, &weak), Err(SetupRefusal::WeakPassword));
    assert_eq!(setup_submit(true, &store(), &weak, "").err(), Some(SetupRefusal::WeakPassword));
    // Characters count, not bytes.
    weak.password = "\u{e9}\u{e9}\u{e9}\u{e9}\u{e9}".into();
    assert_eq!(setup_precheck(true, &weak), Err(SetupRefusal::WeakPassword));
    assert_eq!(setup_submit(true, &store(), &weak, "").err(), Some(SetupRefusal::WeakPassword));
    weak.password = "\u{e9}".repeat(10);
    assert_eq!(setup_precheck(true, &weak), Ok(()));
    let mut done = store();
    done.users.push(User {
        username: "bob".into(),
        password_hash: "h".into(),
        role: Role::Superuser,
    });
    assert_eq!(
        setup_submit(true, &done, &request(), "").err(),
        Some(SetupRefusal::AlreadyConfigured)
    );
    assert!(SetupRefusal::NotFound.answer().is_none());
    let e = SetupRefusal::WeakPassword.answer().unwrap();
    assert_eq!((e.status, e.code.as_str()), (400, "weak_password"));
    let e = SetupRefusal::AlreadyConfigured.answer().unwrap();
    assert_eq!((e.status, e.code.as_str()), (409, "already_configured"));
}

#[test]
fn configs_are_validated() {
    let good = || setup_submit(true, &store(), &request(), "hash").ok().unwrap();
    let mut c = good();
    c.upstream.base_url = "ftp://x".into();
    assert_eq!(validate(&c), Err(Invalid::BaseUrl));
    let mut c = good();
    c.upstream.nim_keys[1].rpm = 0;
    assert_eq!(validate(&c), Err(Invalid::Rate));
    c.upstream.nim_keys[1].rpm = 10_001;
    assert_eq!(validate(&c), Err(Invalid::Rate));
    let mut c = good();
    c.client_auth.keys[0].name = "a b".into();
    assert_eq!(validate(&c), Err(Invalid::ClientName));
    c.client_auth.keys[0].name = "".into();
    assert_eq!(validate(&c), Err(Invalid::ClientName));
    let mut c = good();
    c.client_auth.keys.push(ClientKey {
        name: "n8n".into(),
        secret_sha256: "11".into(),
        owner: "ann".into(),
    });
    assert_eq!(validate(&c), Err(Invalid::DuplicateClient));
    let mut c = good();
    c.limits.heartbeat_secs = 60;
    assert_eq!(validate(&c), Err(Invalid::Heartbeat));
    let mut c = good();
    for k in &mut c.upstream.nim_keys {
        k.enabled = false;
    }
    assert_eq!(validate(&c), Err(Invalid::NoSuperuserKey));
    let mut c = good();
    c.users[0].role = Role::Admin;
    assert_eq!(validate(&c), Err(Invalid::NoSuperuserKey));
    assert!(Invalid::Rate.message().contains("10000"));
}

#[test]
fn a_commit_applies_everything() {
    let (mut cfg, mut d, mut h) = runtime();
    let mut s = store();
    let cand = check(setup_submit(true, &s, &request(), "hash").ok().unwrap()).ok().unwrap();
    assert_eq!(cand.config().users.len(), 1);
    assert!(commit(&mut s, &mut cfg, &mut d, &mut h, cand, Ok(())).is_ok());
    assert_eq!(s.users.len(), 1);
    assert_eq!(d.lanes(), 2);
    assert_eq!(h.days, 9);
    assert_eq!(cfg.base_url, "http://other");
    assert_eq!(cfg.max_wait, Duration::from_secs(60));
    assert_eq!(cfg.heartbeat, Duration::from_secs(5));
    assert_eq!(cfg.models_ttl, Duration::from_secs(7));
    assert_eq!(cfg.stream_idle, Duration::from_secs(8));
    assert_eq!(cfg.request_timeout, Duration::from_secs(9));
    assert!(cfg.strict_passthrough);
    assert_eq!(cfg.max_inflight, 10);
    // Keyed: whoever has no minted key is turned away.
    assert_eq!(authenticate(&cfg.clients, &Some("Bearer abc".into())), None);
    let mut c = store();
    c.client_auth.keys[0].secret_sha256 =
        "ba7816bf8f01cfea414140de5dae2223b00361a396177a9cb410ff61f20015ad".into();
    let cfg = c.runtime();
    assert_eq!(authenticate(&cfg.clients, &Some("Bearer abc".into())).as_deref(), Some("n8n"));
    c.client_auth.mode = Mode::Open;
    assert!(c.runtime().clients.is_none());
}

#[test]
fn a_failed_commit_applies_nothing() {
    let (mut cfg, mut d, mut h) = runtime();
    let mut s = store();
    let cand = check(setup_submit(true, &s, &request(), "hash").ok().unwrap()).ok().unwrap();
    match commit(&mut s, &mut cfg, &mut d, &mut h, cand, Err("disk full".into())) {
        Err(e) => assert_eq!(e.message(), "cannot write the config store: disk full"),
        Ok(()) => panic!("expected an error"),
    }
    assert!(s.users.is_empty());
    assert_eq!((d.lanes(), h.days), (1, 30));
    assert_eq!(cfg.base_url, "https://before");
}

#[test]
fn an_invalid_store_never_gets_as_far_as_the_disk() {
    let mut req = request();
    req.nim_keys.clear();
    let cand = setup_submit(true, &store(), &req, "hash").ok().unwrap();
    match check(cand) {
        Err(e) => {
            assert!(matches!(e, CommitError::Invalid(Invalid::NoSuperuserKey)));
            let reply = e.answer();
            assert_eq!((reply.status, reply.code.as_str()), (400, "invalid_config"));
            assert_eq!(reply.message, "the superuser must have at least one enabled NIM key");
        }
        Ok(_) => panic!("expected an error"),
    }
    let a = setup_claim(true, &store(), &req, "hash").err().unwrap();
    assert_eq!((a.status, a.cookie), (400, None));
    assert!(a.body.unwrap().contains("\"code\":\"invalid_config\""));
}

#[test]
fn a_finished_setup_starts_a_session_and_ends_the_phase() {
    let (mut cfg, mut d, mut h) = runtime();
    let mut s = store();
    let admin = Admin::with_key(None, true, vec![1; 32], 0);
    let mut required = true;
    let mut finish = |required: &mut bool, written: Result<(), String>, s: &mut StoredConfig| {
        let cand = setup_claim(*required, s, &request(), "hash").ok().unwrap();
        setup_finish(
            required,
            s,
            &mut cfg,
            &mut d,
            &mut h,
            cand,
            written,
            &admin,
            Some("https"),
            1_000,
        )
    };
    let a = finish(&mut required, Err("disk full".into()), &mut s);
    assert_eq!((a.status, a.cookie, required), (400, None, true));
    assert!(a.body.unwrap().contains("cannot write the config store: disk full"));
    assert!(s.users.is_empty());
    let a = finish(&mut required, Ok(()), &mut s);
    assert_eq!((a.status, required), (200, false));
    assert_eq!(a.body.as_deref(), Some("{\"ok\":true}"));
    assert_eq!(s.users[0].username, "ann");
    let cookie = a.cookie.unwrap();
    assert_eq!(cookie, mint_session_cookie(&admin, Some("https"), &s.users[0], 1_000));
    assert!(cookie.ends_with("; Secure"));
    // The session is the superuser's, and opens the dashboard.
    let guarded = Admin::with_key(Some("other".into()), true, vec![1; 32], 0);
    let mut headers = Headers::none();
    headers.cookie = Some(cookie.split("; ").next().unwrap().to_owned());
    assert_eq!(require_session_at(&guarded, &s, &headers, 1_000), Verdict::Pass);
    assert_eq!(require_session_at(&guarded, &s, &headers, 44_200), Verdict::Pass);
    assert_eq!(require_session_at(&guarded, &s, &headers, 44_201), Verdict::Unauthorized);
    assert_eq!(cfg.base_url, "http://other");
    // Nobody else gets to do it again.
    let a = setup_claim(required, &s, &request(), "hash").err().unwrap();
    assert_eq!((a.status, a.cookie, a.body), (404, None, None));
    let a = setup_claim(true, &s, &request(), "hash").err().unwrap();
    assert_eq!((a.status, a.cookie), (409, None));
    let a = SetupAnswer::refuse(&SetupRefusal::WeakPassword);
    assert_eq!(a.status, 400);
    assert!(a.body.unwrap().contains("\"code\":\"weak_password\""));
}

#[test]
fn key_checks_burn_the_login_budget() {
    let mut a = Admin::with_key(None, false, vec![1], 100);
    let req = ValidateKeyReq { key: " k ".into(), base_url: None };
    assert!(matches!(
        setup_validate_key(false, &mut a, 100, &req, &store()),
        KeyCheck::NotFound
    ));
    for _ in 0..11 {
        match setup_validate_key(true, &mut a, 100, &req, &store()) {
            KeyCheck::Probe { base_url, key } => {
                assert_eq!((base_url.as_str(), key.as_str()), ("https://up", "k"))
            }
            _ => panic!("expected a probe"),
        }
    }
    match setup_validate_key(true, &mut a, 100, &req, &store()) {
        KeyCheck::Throttled(e) => assert_eq!((e.status, e.code.as_str()), (429, "throttled")),
        _ => panic!("expected to be throttled"),
    }
    let req = ValidateKeyReq { key: "k".into(), base_url: Some(" http://x/ ".into()) };
    assert!(matches!(
        setup_validate_key(true, &mut a, 161, &req, &store()),
        KeyCheck::Probe { base_url, .. } if base_url == "http://x"
    ));
}

#[test]
fn keys_are_judged_by_their_catalog() {
    let answer = |status: u16, body: &[u8]| {
        probe_key(&Probed::Answered {
            status,
            status_text: "401 Unauthorized".into(),
            body: Ok(body.to_vec()),
        })
    };
    assert_eq!(answer(200, b"{\"data\":[1,2,3]}"), Ok(3));
    assert_eq!(answer(200, b"{\"data\":5}"), Ok(0));
    assert_eq!(answer(200, b"[]"), Ok(0));
    assert_eq!(
        answer(401, b""),
        Err("upstream rejected the key (401 Unauthorized)".to_owned())
    );
    let e = answer(200, b"nope").unwrap_err();
    assert!(e.starts_with("upstream sent an unreadable model list: expected ident"), "{e}");
    assert_eq!(
        probe_key(&Probed::Unreachable("refused".into())),
        Err("cannot reach upstream: refused".to_owned())
    );
    assert_eq!(
        probe_key(&Probed::Answered {
            status: 200,
            status_text: "200 OK".into(),
            body: Err("cut".into())
        }),
        Err("upstream sent an unreadable model list: cut".to_owned())
    );
    assert_eq!(count_models(&serde_json::from_str("{\"data\":[1]}").unwrap()), 1);
    assert_eq!(probe_answer(&Ok(3)), "{\"models\":3,\"ok\":true}");
    assert_eq!(probe_answer(&Err("no".into())), "{\"error\":\"no\",\"ok\":false}");
}

#[test]
fn password_hashes_match_the_published_vectors() {
    assert_eq!(
        hex(&pbkdf2(b"passwd", b"salt", 1)),
        "55ac046e56e3089fec1691c22544b605f94185216dde0465e68b9d57c20dacbc"
    );
    assert_eq!(
        hex(&pbkdf2(b"Password", b"NaCl", 80_000)),
        "4ddcd8f60b98be21830cee5ef22701f9641a4418d04c0414aeff08876b34ab56"
    );
}

#[test]
fn passwords_go_with_their_hash() {
    let kept = hash_with("hunter2hunter2", &[0, 255, 16], 5);
    assert!(kept.starts_with("pbkdf2-sha256$5$00ff10$"));
    assert!(verify_password("hunter2hunter2", &kept));
    assert!(!verify_password("hunter2hunter3", &kept));
    assert!(!verify_password("hunter2hunter2", &kept.replace("$5$", "$6$")));
    for bad in ["", "pbkdf2-sha256$5$00", "md5$5$00$00", "pbkdf2-sha256$x$00$00", "pbkdf2-sha256$5$0$00", "pbkdf2-sha256$5$0g$00"] {
        assert!(!verify_password("hunter2hunter2", bad));
    }
}

#[test]
fn new_hashes_are_salted() {
    let a = hash_password("hunter2hunter2").ok().unwrap();
    assert!(a.starts_with("pbkdf2-sha256$600000$"));
    assert_eq!(a.split('$').nth(2).unwrap().len(), 32);
    assert!(verify_password("hunter2hunter2", &a));
}

#[test]
fn a_hash_holds_the_salt_that_was_drawn() {
    let salt = vec![3u8; 16];
    assert_eq!(
        hash_with_draw("hunter2hunter2", Ok(salt.clone())),
        Ok(hash_with("hunter2hunter2", &salt, ROUNDS))
    );
    assert_eq!(hash_with_draw("hunter2hunter2", Err(NoRandomness)), Err(NoRandomness));
}

#[test]
fn user_sessions_go_with_the_user_and_the_password() {
    let admin = Admin::with_key(Some("other".into()), false, vec![1; 32], 0);
    let mut s = store();
    for (name, hash) in [("ann", "h1"), ("bob", "h2")] {
        s.users.push(User {
            username: name.into(),
            password_hash: hash.into(),
            role: Role::User,
        });
    }
    let cookie = mint_session_cookie(&admin, None, &s.users[1], 0);
    let token = cookie.strip_prefix("nimproxy_session=").unwrap().split(';').next().unwrap().to_owned();
    // Expiry, name, and the first digits of the digest of the hash.
    assert!(token.starts_with("a8c0.626f62."), "{token}");
    assert_eq!(token.split('.').nth(2).unwrap().len(), 8);
    assert_eq!(session_user_at(&admin, &s, &token, 5).unwrap().username, "bob");
    let stranger = Admin::with_key(Some("other".into()), false, vec![2; 32], 0);
    assert!(session_user_at(&stranger, &s, &token, 5).is_none());
    assert!(session_user_at(&admin, &s, &token.replace("626f62", "616e6e"), 5).is_none());
    assert!(session_user_at(&admin, &s, "nope", 5).is_none());
    assert!(session_user_at(&admin, &s, &token, 43_201).is_none());
    // A new password ends it, and so does the end of the user.
    s.users[1].password_hash = "h3".into();
    assert!(session_user_at(&admin, &s, &token, 5).is_none());
    s.users[1].password_hash = "h2".into();
    s.users.remove(1);
    assert!(session_user_at(&admin, &s, &token, 5).is_none());
    assert_eq!(require_session(&admin, &s, &Headers::none()), Verdict::Unauthorized);
}

//! Authentication: a shared-password guard for the dashboard and the
//! observability endpoints, with signed session cookies and a failed-attempt
//! throttle. The API keeps its own key check in [`crate::clients`]; this module
//! is about protecting the operator surface.

use vstd::prelude::*;

use crate::base64::base64_decode;
use crate::crypto::{hmac_sha256, random_bytes, slices_ct_eq, NoRandomness};
use crate::digits;
use crate::form::form_field;
use crate::text;
use crate::time::system_secs;
use crate::utf8;

verus! {

pub const COOKIE: &'static str = "nimproxy_session";

pub const SESSION_TTL_SECS: u64 = 43_200;

pub const THROTTLE_WINDOW_SECS: u64 = 60;

pub const THROTTLE_MAX_FAILURES: u32 = 10;

/// Two texts are the same if their bytes are.
pub proof fn lemma_same_bytes(a: Seq<char>, b: Seq<char>)
    ensures
        vstd::utf8::encode_utf8(a) == vstd::utf8::encode_utf8(b) <==> a == b,
{
    vstd::utf8::encode_utf8_decode_utf8(a);
    vstd::utf8::encode_utf8_decode_utf8(b);
}

/// Constant-time equality of secrets. Only a mismatch in length shortens it;
/// the bytes themselves are always compared in full.
pub fn ct_eq(a: &str, b: &str) -> (r: bool)
    ensures
        r == (a@ == b@),
{
    proof {
        lemma_same_bytes(a@, b@);
    }
    slices_ct_eq(a.as_bytes(), b.as_bytes())
}

/// Unix time in seconds, as the system clock has it.
pub fn now() -> (r: u64) {
    system_secs()
}

/// The admin guard: the shared password, a random signing key, and a
/// fixed-window limiter of failed logins. Without a password the guard is open.
pub struct Admin {
    password: Option<String>,
    signing_key: Vec<u8>,
    trust_proxy: bool,
    window_start: u64,
    failures: u32,
}

/// What an admin guard is, apart from how it is stored.
pub struct AdminView {
    pub password: Option<Seq<char>>,
    pub signing_key: Seq<u8>,
    pub trust_proxy: bool,
    pub window_start: u64,
    pub failures: u32,
}

/// The text inside an optional text.
pub open spec fn optional_text(s: Option<String>) -> Option<Seq<char>> {
    match s {
        Some(t) => Some(t@),
        None => None,
    }
}

impl View for Admin {
    type V = AdminView;

    closed spec fn view(&self) -> AdminView {
        AdminView {
            password: optional_text(self.password),
            signing_key: self.signing_key@,
            trust_proxy: self.trust_proxy,
            window_start: self.window_start,
            failures: self.failures,
        }
    }
}

/// The bytes of a 64-bit number, highest first.
pub open spec fn be_bytes(n: u64) -> Seq<u8> {
    seq![
        (n / 0x100_0000_0000_0000 % 256) as u8,
        (n / 0x1_0000_0000_0000 % 256) as u8,
        (n / 0x100_0000_0000 % 256) as u8,
        (n / 0x1_0000_0000 % 256) as u8,
        (n / 0x100_0000 % 256) as u8,
        (n / 0x1_0000 % 256) as u8,
        (n / 0x100 % 256) as u8,
        (n % 256) as u8,
    ]
}

fn to_be_bytes(n: u64) -> (r: Vec<u8>)
    ensures
        r@ == be_bytes(n),
{
    let v: Vec<u8> = vec![
        (n / 0x100_0000_0000_0000 % 256) as u8,
        (n / 0x1_0000_0000_0000 % 256) as u8,
        (n / 0x100_0000_0000 % 256) as u8,
        (n / 0x1_0000_0000 % 256) as u8,
        (n / 0x100_0000 % 256) as u8,
        (n / 0x1_0000 % 256) as u8,
        (n / 0x100 % 256) as u8,
        (n % 256) as u8,
    ];
    assert(v@ =~= be_bytes(n));
    v
}

/// The hexadecimal tag that vouches for an expiry under a key.
pub open spec fn session_tag(key: Seq<u8>, expiry: u64) -> Seq<char> {
    digits::hex_of(crate::crypto::hmac_sha256_tag(key, be_bytes(expiry)))
}

/// The hexadecimal tag that vouches for a text under a key.
pub open spec fn seal_of(key: Seq<u8>, text: Seq<char>) -> Seq<char> {
    digits::hex_of(crate::crypto::hmac_sha256_tag(key, vstd::utf8::encode_utf8(text)))
}

/// The session token for an expiry: the expiry and its tag, both hexadecimal,
/// with a dot between.
pub open spec fn session_token(key: Seq<u8>, expiry: u64) -> Seq<char> {
    digits::numeral(expiry as nat, 16) + seq!['.'] + session_tag(key, expiry)
}

/// A token that carries an expiry not yet past and the tag of that expiry.
pub open spec fn token_valid(key: Seq<u8>, token: Seq<char>, now: u64) -> bool {
    match text::split_once_at(token, '.') {
        Some((expiry, tag)) => match digits::parsed(expiry, 16) {
            Some(at) => at >= now && tag == session_tag(key, at),
            None => false,
        },
        None => false,
    }
}

impl AdminView {
    /// Too many failures in the window that `now` falls into.
    pub open spec fn throttled(self, now: u64) -> bool {
        now - self.window_start < THROTTLE_WINDOW_SECS && self.failures > THROTTLE_MAX_FAILURES
    }

    /// The guard after one more failure at `now`: a window that is over starts
    /// afresh, and the count stops at its largest value.
    pub open spec fn failed(self, now: u64) -> AdminView {
        let fresh = now - self.window_start >= THROTTLE_WINDOW_SECS;
        let count: int = if fresh {
            0
        } else {
            self.failures as int
        };
        AdminView {
            window_start: if fresh {
                now
            } else {
                self.window_start
            },
            failures: if count == u32::MAX {
                u32::MAX
            } else {
                (count + 1) as u32
            },
            ..self
        }
    }
}

impl Admin {
    /// A guard with a given signing key, whose failure window starts at `now`.
    pub fn with_key(
        password: Option<String>,
        trust_proxy: bool,
        signing_key: Vec<u8>,
        now: u64,
    ) -> (r: Self)
        ensures
            r@ == (AdminView {
                password: optional_text(password),
                signing_key: signing_key@,
                trust_proxy,
                window_start: now,
                failures: 0,
            }),
    {
        Admin { password, signing_key, trust_proxy, window_start: now, failures: 0 }
    }

    /// A guard with a fresh random signing key of 32 bytes. It is made whenever
    /// the system has randomness to give.
    pub fn new(password: Option<String>, trust_proxy: bool) -> (r: Result<Self, NoRandomness>)
        ensures
            r matches Ok(a) ==> {
                &&& a@.password == optional_text(password)
                &&& a@.trust_proxy == trust_proxy
                &&& a@.signing_key.len() == 32
                &&& a@.failures == 0
            },
    {
        Admin::with_draw(password, trust_proxy, random_bytes(32), now())
    }

    /// A guard whose signing key is what was drawn for it. There is none where
    /// the draw failed.
    pub fn with_draw(
        password: Option<String>,
        trust_proxy: bool,
        drawn: Result<Vec<u8>, NoRandomness>,
        now: u64,
    ) -> (r: Result<Self, NoRandomness>)
        ensures
            match r {
                Ok(a) => drawn matches Ok(key) && a@ == (AdminView {
                    password: optional_text(password),
                    signing_key: key@,
                    trust_proxy,
                    window_start: now,
                    failures: 0,
                }),
                Err(_) => drawn is Err,
            },
    {
        match drawn {
            Ok(key) => Ok(Admin::with_key(password, trust_proxy, key, now)),
            Err(e) => Err(e),
        }
    }

    /// Whether there is a password to ask for.
    pub fn enabled(&self) -> (r: bool)
        ensures
            r == (self@.password is Some),
    {
        self.password.is_some()
    }

    fn tag(&self, expiry: u64) -> (r: String)
        ensures
            r@ == session_tag(self@.signing_key, expiry),
    {
        let bytes = to_be_bytes(expiry);
        let tag = hmac_sha256(&self.signing_key, &bytes);
        digits::hex(&tag)
    }

    /// Vouch for a text.
    pub(crate) fn seal(&self, text: &str) -> (r: String)
        ensures
            r@ == seal_of(self@.signing_key, text@),
    {
        let tag = hmac_sha256(&self.signing_key, text.as_bytes());
        digits::hex(&tag)
    }

    /// Sign an expiry into a session token.
    pub fn sign(&self, expiry: u64) -> (r: String)
        ensures
            r@ == session_token(self@.signing_key, expiry),
    {
        let mut out = String::new();
        digits::push_numeral(&mut out, expiry, 16);
        out.push('.');
        let tag = self.tag(expiry);
        out.append(tag.as_str());
        assert(out@ =~= session_token(self@.signing_key, expiry));
        out
    }

    /// Whether a session token is signed with this guard's key and not expired
    /// at `now`.
    pub fn verify_at(&self, token: &str, now: u64) -> (r: bool)
        ensures
            r == token_valid(self@.signing_key, token@, now),
    {
        match text::split_once(token, '.') {
            Some((expiry, tag)) => match digits::parse(expiry.as_str(), 16) {
                Some(at) => {
                    if at < now {
                        return false;
                    }
                    let expected = self.tag(at);
                    ct_eq(tag.as_str(), expected.as_str())
                },
                None => false,
            },
            None => false,
        }
    }

    /// Whether a session token is valid at the present time.
    pub fn verify(&self, token: &str) -> (r: bool)
        ensures
            exists|now: u64| r == #[trigger] token_valid(self@.signing_key, token@, now),
    {
        let t = now();
        self.verify_at(token, t)
    }

    /// Whether there is a password and `candidate` is it.
    pub fn password_matches(&self, candidate: &str) -> (r: bool)
        ensures
            r == (self@.password == Some(candidate@)),
    {
        match &self.password {
            Some(p) => ct_eq(candidate, p.as_str()),
            None => false,
        }
    }

    /// Record a failed attempt at `now`; returns true if the caller is now
    /// throttled.
    pub fn note_failure_at(&mut self, now: u64) -> (r: bool)
        ensures
            final(self)@ == old(self)@.failed(now),
            r == (final(self)@.failures > THROTTLE_MAX_FAILURES),
    {
        if now >= self.window_start && now - self.window_start >= THROTTLE_WINDOW_SECS {
            self.window_start = now;
            self.failures = 0;
        }
        if self.failures < u32::MAX {
            self.failures = self.failures + 1;
        }
        self.failures > THROTTLE_MAX_FAILURES
    }

    /// Record a failed attempt at the present time.
    pub fn note_failure(&mut self) -> (r: bool)
        ensures
            exists|now: u64| final(self)@ == #[trigger] old(self)@.failed(now),
            r == (final(self)@.failures > THROTTLE_MAX_FAILURES),
    {
        let t = now();
        self.note_failure_at(t)
    }

    /// Whether attempts are refused at `now`.
    pub fn is_throttled_at(&self, now: u64) -> (r: bool)
        ensures
            r == self@.throttled(now),
    {
        (now < self.window_start || now - self.window_start < THROTTLE_WINDOW_SECS)
            && self.failures > THROTTLE_MAX_FAILURES
    }

    /// Whether attempts are refused at the present time.
    pub fn is_throttled(&self) -> (r: bool)
        ensures
            exists|now: u64| r == #[trigger] self@.throttled(now),
    {
        let t = now();
        self.is_throttled_at(t)
    }

    /// The `Set-Cookie` value that hands out `token`. Behind a proxy that is
    /// trusted to say so, a request that came in over HTTPS gets a cookie for
    /// HTTPS only.
    pub fn cookie(&self, forwarded_proto: Option<&str>, token: &str, max_age: u64) -> (r: String)
        ensures
            r@ == cookie_text(
                token@,
                max_age,
                self@.trust_proxy && came_over_https(forwarded_proto),
            ),
    {
        let secure = self.trust_proxy && match forwarded_proto {
            Some(p) => text::eq_ignore_ascii_case(p, "https"),
            None => false,
        };
        let mut out = String::new();
        out.append(COOKIE);
        out.append("=");
        out.append(token);
        out.append("; HttpOnly; SameSite=Strict; Path=/; Max-Age=");
        digits::push_numeral(&mut out, max_age, 10);
        out.append(if secure { "; Secure" } else { "" });
        out
    }

    /// The cookie of a session that starts at `now`.
    pub fn session_cookie_at(&self, forwarded_proto: Option<&str>, now: u64) -> (r: String)
        ensures
            r@ == session_cookie(self@, came_over_https(forwarded_proto), now),
    {
        let expiry = now.saturating_add(SESSION_TTL_SECS);
        let token = self.sign(expiry);
        self.cookie(forwarded_proto, token.as_str(), SESSION_TTL_SECS)
    }
}

/// A forwarded protocol that says HTTPS, in whatever case.
pub open spec fn came_over_https(forwarded_proto: Option<&str>) -> bool {
    forwarded_proto matches Some(p) && text::same_ignoring_case(p@, "https"@)
}

/// The text of a cookie.
pub open spec fn cookie_text(token: Seq<char>, max_age: u64, secure: bool) -> Seq<char> {
    COOKIE@ + "="@ + token + "; HttpOnly; SameSite=Strict; Path=/; Max-Age="@ + digits::numeral(
        max_age as nat,
        10,
    ) + if secure {
        "; Secure"@
    } else {
        ""@
    }
}

/// When a session that starts at `now` ends.
pub open spec fn session_end(now: u64) -> u64 {
    if now + SESSION_TTL_SECS <= u64::MAX {
        (now + SESSION_TTL_SECS) as u64
    } else {
        u64::MAX
    }
}

/// The cookie of a session that starts at `now`.
pub open spec fn session_cookie(admin: AdminView, https: bool, now: u64) -> Seq<char> {
    cookie_text(
        session_token(admin.signing_key, session_end(now)),
        SESSION_TTL_SECS,
        admin.trust_proxy && https,
    )
}

/// The password in a login form, empty if there is none.
pub open spec fn submitted_password(body: Seq<char>) -> Seq<char> {
    match crate::form::first_value(text::split_at_each(body, '&'), "password"@) {
        Some(p) => p,
        None => Seq::empty(),
    }
}

/// The answer to a login attempt.
pub enum Login {
    /// Too many failures of late.
    Throttled,
    /// The right password; the cookie to set.
    Granted(String),
    /// A wrong password.
    Rejected,
}

impl Login {
    /// The cookie that is handed out.
    pub open spec fn grants(self) -> Option<Seq<char>> {
        match self {
            Login::Granted(cookie) => Some(cookie@),
            _ => None,
        }
    }
}

/// The cookie that a login attempt is owed: one for the right password, unless
/// attempts are throttled.
pub open spec fn login_grant(
    admin: AdminView,
    https: bool,
    password: Seq<char>,
    now: u64,
) -> Option<Seq<char>> {
    if !admin.throttled(now) && admin.password == Some(password) {
        Some(session_cookie(admin, https, now))
    } else {
        None
    }
}

/// Answer a login attempt at `now`: refused while throttled, granted for
/// the right password, and otherwise counted as a failure.
pub fn login_submit_at(
    admin: &mut Admin,
    forwarded_proto: Option<&str>,
    body: &str,
    now: u64,
) -> (r: Login)
    ensures
        r.grants() == login_grant(
            old(admin)@,
            came_over_https(forwarded_proto),
            submitted_password(body@),
            now,
        ),
        r is Throttled <==> old(admin)@.throttled(now),
        final(admin)@ == if r is Rejected {
            old(admin)@.failed(now)
        } else {
            old(admin)@
        },
{
    if admin.is_throttled_at(now) {
        return Login::Throttled;
    }
    let password = match form_field(body, "password") {
        Some(p) => p,
        None => String::new(),
    };
    if admin.password_matches(password.as_str()) {
        return Login::Granted(admin.session_cookie_at(forwarded_proto, now));
    }
    admin.note_failure_at(now);
    Login::Rejected
}

/// Answer a login attempt at the present time.
pub fn login_submit(admin: &mut Admin, forwarded_proto: Option<&str>, body: &str) -> (r: Login)
    ensures
        exists|now: u64|
            {
                &&& r.grants() == login_grant(
                    old(admin)@,
                    came_over_https(forwarded_proto),
                    submitted_password(body@),
                    now,
                )
                &&& r is Throttled <==> #[trigger] old(admin)@.throttled(now)
                &&& final(admin)@ == if r is Rejected {
                    old(admin)@.failed(now)
                } else {
                    old(admin)@
                }
            },
{
    let t = now();
    login_submit_at(admin, forwarded_proto, body, t)
}

/// The cookie that ends a session.
pub fn logout(admin: &Admin, forwarded_proto: Option<&str>) -> (r: String)
    ensures
        r@ == cookie_text(
            Seq::empty(),
            0,
            admin@.trust_proxy && came_over_https(forwarded_proto),
        ),
{
    let r = admin.cookie(forwarded_proto, "", 0);
    proof {
        reveal_strlit("");
        assert(""@ =~= Seq::empty());
    }
    r
}

/// The session token in one part of a cookie header.
pub open spec fn token_in(part: Seq<char>) -> Option<Seq<char>> {
    text::after_prefix(text::trimmed(part), COOKIE@ + "="@)
}

/// The session token in the first of the parts that has one.
pub open spec fn first_token(parts: Seq<Seq<char>>) -> Option<Seq<char>>
    decreases parts.len(),
{
    if parts.len() == 0 {
        None
    } else if token_in(parts[0]) is Some {
        token_in(parts[0])
    } else {
        first_token(parts.drop_first())
    }
}

/// The session token in a cookie header.
pub fn cookie_token(cookie: &str) -> (r: Option<String>)
    ensures
        optional_text(r) == first_token(text::split_at_each(cookie@, ';')),
{
    let parts = text::split(cookie, ';');
    let mut prefix = String::new();
    prefix.append(COOKIE);
    prefix.append("=");
    assert(prefix@ =~= COOKIE@ + "="@);
    let ghost all = text::views(parts@);
    let mut i: usize = 0;
    assert(all.skip(0) =~= all);
    while i < parts.len()
        invariant
            prefix@ == COOKIE@ + "="@,
            all == text::views(parts@),
            all == text::split_at_each(cookie@, ';'),
            i <= parts@.len(),
            first_token(all.skip(i as int)) == first_token(all),
        decreases parts.len() - i,
    {
        let ghost rest = all.skip(i as int);
        assert(rest[0] == parts@[i as int]@);
        assert(rest.drop_first() =~= all.skip(i as int + 1));
        let part = text::trim(parts[i].as_str());
        let found = text::strip_prefix(part.as_str(), prefix.as_str());
        if found.is_some() {
            return found;
        }
        i += 1;
    }
    None
}

/// The password half of HTTP Basic credentials: what follows the first colon,
/// or everything if there is none.
pub open spec fn basic_password(b64: Seq<char>) -> Option<Seq<char>> {
    match crate::base64::base64_decoded(b64) {
        Some(bytes) if vstd::utf8::valid_utf8(bytes) => {
            let s = vstd::utf8::decode_utf8(bytes);
            match text::split_once_at(s, ':') {
                Some((_, password)) => Some(password),
                None => Some(s),
            }
        },
        _ => None,
    }
}

pub fn decode_basic_password(b64: &str) -> (r: Option<String>)
    ensures
        optional_text(r) == basic_password(b64@),
{
    let decoded = match base64_decode(b64) {
        Some(bytes) => bytes,
        None => {
            return None;
        },
    };
    let s = match utf8::from_utf8(decoded) {
        Some(s) => s,
        None => {
            return None;
        },
    };
    match text::split_once(s.as_str(), ':') {
        Some((_, password)) => Some(password),
        None => Some(s),
    }
}

/// The headers of a request that the guard reads, each as text if it is there
/// and is text.
pub struct Headers {
    pub cookie: Option<String>,
    pub authorization: Option<String>,
    pub accept: Option<String>,
    pub forwarded_proto: Option<String>,
}

impl Headers {
    /// A request without any of them.
    pub fn none() -> (r: Headers)
        ensures
            r.cookie is None && r.authorization is None && r.accept is None
                && r.forwarded_proto is None,
    {
        Headers { cookie: None, authorization: None, accept: None, forwarded_proto: None }
    }
}

/// A cookie header with a session that is valid at `now`.
pub open spec fn session_opens(admin: AdminView, cookie: Option<Seq<char>>, now: u64) -> bool {
    cookie matches Some(c) && first_token(text::split_at_each(c, ';')) matches Some(token)
        && token_valid(admin.signing_key, token, now)
}

/// An authorization header that carries the password, as Bearer or Basic.
pub open spec fn password_opens(admin: AdminView, authorization: Option<Seq<char>>) -> bool {
    authorization matches Some(h) && {
        ||| text::after_prefix(h, "Bearer "@) matches Some(b) && admin.password == Some(
            text::trimmed(b),
        )
        ||| text::after_prefix(h, "Basic "@) matches Some(b) && basic_password(
            text::trimmed(b),
        ) matches Some(p) && admin.password == Some(p)
    }
}

/// The guard lets a request through: it is open, or the request carries a valid
/// session or the password.
pub open spec fn admitted(admin: AdminView, headers: Headers, now: u64) -> bool {
    ||| admin.password is None
    ||| session_opens(admin, optional_text(headers.cookie), now)
    ||| password_opens(admin, optional_text(headers.authorization))
}

/// Whether the request carries valid credentials at `now`: a valid session
/// cookie, `Authorization: Bearer <password>`, or HTTP Basic with the password.
/// All secret comparisons are constant-time.
pub fn authorized_at(admin: &Admin, headers: &Headers, now: u64) -> (r: bool)
    ensures
        r == admitted(admin@, *headers, now),
{
    if !admin.enabled() {
        return true;
    }
    if let Some(cookie) = &headers.cookie {
        if let Some(token) = cookie_token(cookie.as_str()) {
            if admin.verify_at(token.as_str(), now) {
                return true;
            }
        }
    }
    if let Some(authorization) = &headers.authorization {
        if let Some(bearer) = text::strip_prefix(authorization.as_str(), "Bearer ") {
            let candidate = text::trim(bearer.as_str());
            if admin.password_matches(candidate.as_str()) {
                return true;
            }
        }
        if let Some(basic) = text::strip_prefix(authorization.as_str(), "Basic ") {
            let credentials = text::trim(basic.as_str());
            if let Some(password) = decode_basic_password(credentials.as_str()) {
                if admin.password_matches(password.as_str()) {
                    return true;
                }
            }
        }
    }
    false
}

/// Whether the request carries valid credentials at the present time.
pub fn authorized(admin: &Admin, headers: &Headers) -> (r: bool)
    ensures
        exists|now: u64| r == #[trigger] admitted(admin@, *headers, now),
{
    let t = now();
    authorized_at(admin, headers, t)
}

/// What becomes of a request to the admin surface.
#[derive(Clone, Copy, PartialEq, Eq, Debug)]
pub enum Verdict {
    /// Let through.
    Pass,
    /// A browser: sent to the login page.
    Login,
    /// Any other client: told that it is unauthorized.
    Unauthorized,
}

/// An accept header that asks for a page.
pub open spec fn wants_html(accept: Option<Seq<char>>) -> bool {
    accept matches Some(a) && text::contains_text(a, "text/html"@)
}

/// What becomes of a request to the admin surface at `now`.
pub open spec fn verdict(admin: AdminView, headers: Headers, now: u64) -> Verdict {
    if admitted(admin, headers, now) {
        Verdict::Pass
    } else if wants_html(optional_text(headers.accept)) {
        Verdict::Login
    } else {
        Verdict::Unauthorized
    }
}

/// Guard the admin surface: browsers are sent to the login page, other clients
/// are refused.
pub fn require_admin_at(admin: &Admin, headers: &Headers, now: u64) -> (r: Verdict)
    ensures
        r == verdict(admin@, *headers, now),
{
    if authorized_at(admin, headers, now) {
        return Verdict::Pass;
    }
    let html = match &headers.accept {
        Some(a) => text::contains(a.as_str(), "text/html"),
        None => false,
    };
    if html {
        Verdict::Login
    } else {
        Verdict::Unauthorized
    }
}

/// Guard the admin surface at the present time.
pub fn require_admin(admin: &Admin, headers: &Headers) -> (r: Verdict)
    ensures
        exists|now: u64| r == #[trigger] verdict(admin@, *headers, now),
{
    let t = now();
    require_admin_at(admin, headers, t)
}

/// A number's numeral has no dot in it.
proof fn lemma_numeral_has_no_dot(n: u64)
    ensures
        !digits::numeral(n as nat, 16).contains('.'),
{
    digits::lemma_numeral_value(n as nat, 16);
}

/// A session that this guard signed opens it until it expires, and not after.
pub proof fn law_sessions_last_until_they_expire(key: Seq<u8>, expiry: u64, now: u64)
    ensures
        token_valid(key, session_token(key, expiry), now) <==> expiry >= now,
{
    let head = digits::numeral(expiry as nat, 16);
    let token = session_token(key, expiry);
    lemma_numeral_has_no_dot(expiry);
    assert forall|i: int| 0 <= i < head.len() implies #[trigger] token[i] != '.' by {
        assert(token[i] == head[i]);
        assert(head.contains(head[i]));
    }
    assert(token[head.len() as int] == '.');
    text::lemma_find_is(token, '.', head.len() as int);
    assert(token.take(head.len() as int) =~= head);
    assert(token.skip(head.len() as int + 1) =~= session_tag(key, expiry));
    digits::law_numerals_read_back(expiry, 16);
}

/// A token that is accepted carries the tag of the very expiry it names: to
/// change either without the other is to be refused.
pub proof fn law_tampered_sessions_are_refused(
    key: Seq<u8>,
    expiry: Seq<char>,
    tag: Seq<char>,
    now: u64,
)
    requires
        !expiry.contains('.'),
        digits::parsed(expiry, 16) matches Some(at) ==> tag != session_tag(key, at),
    ensures
        !token_valid(key, expiry + seq!['.'] + tag, now),
{
    let token = expiry + seq!['.'] + tag;
    assert forall|i: int| 0 <= i < expiry.len() implies #[trigger] token[i] != '.' by {
        assert(token[i] == expiry[i]);
        assert(expiry.contains(expiry[i]));
    }
    assert(token[expiry.len() as int] == '.');
    text::lemma_find_is(token, '.', expiry.len() as int);
    assert(token.take(expiry.len() as int) =~= expiry);
    assert(token.skip(expiry.len() as int + 1) =~= tag);
}

/// A hexadecimal digit or a dot.
pub open spec fn plain(c: char) -> bool {
    '0' <= c <= '9' || 'a' <= c <= 'f' || c == '.'
}

proof fn lemma_token_plain(key: Seq<u8>, expiry: u64)
    ensures
        session_token(key, expiry).len() > 0,
        forall|i: int|
            0 <= i < session_token(key, expiry).len() ==> plain(
                #[trigger] session_token(key, expiry)[i],
            ),
{
    let head = digits::numeral(expiry as nat, 16);
    let tag = session_tag(key, expiry);
    let token = session_token(key, expiry);
    digits::lemma_numeral_value(expiry as nat, 16);
    assert forall|i: int| 0 <= i < token.len() implies plain(#[trigger] token[i]) by {
        if i < head.len() {
            assert(token[i] == head[i]);
        } else if i > head.len() {
            assert(token[i] == tag[i - head.len() - 1]);
        }
    }
}

/// A token that a cookie carries is found in it.
pub proof fn lemma_cookie_carries(token: Seq<char>)
    requires
        token.len() > 0,
        forall|i: int| 0 <= i < token.len() ==> plain(#[trigger] token[i]),
    ensures
        first_token(text::split_at_each(COOKIE@ + "="@ + token, ';')) == Some(token),
{
    let prefix = COOKIE@ + "="@;
    let header = prefix + token;
    reveal_strlit("nimproxy_session");
    reveal_strlit("=");
    assert(prefix.len() == 17);
    assert forall|i: int| 0 <= i < header.len() implies #[trigger] header[i] != ';'
        && !text::is_space(header[i]) by {
        if i >= 17 {
            assert(header[i] == token[i - 17]);
        } else {
            assert(header[i] == prefix[i]);
        }
    }
    text::lemma_find_is(header, ';', header.len() as int);
    assert(text::split_at_each(header, ';') =~= seq![header]);
    assert(text::trimmed(header) == header);
    assert(header.subrange(0, 17) =~= prefix);
    assert(header.skip(17) =~= token);
}

/// The cookie that a login sets opens the guard when it comes back, until the
/// session expires.
pub proof fn law_session_cookie_opens_the_dashboard(admin: AdminView, expiry: u64, now: u64)
    requires
        expiry >= now,
    ensures
        session_opens(
            admin,
            Some(COOKIE@ + "="@ + session_token(admin.signing_key, expiry)),
            now,
        ),
{
    lemma_token_plain(admin.signing_key, expiry);
    lemma_cookie_carries(session_token(admin.signing_key, expiry));
    law_sessions_last_until_they_expire(admin.signing_key, expiry, now);
}

/// The password that a form carries in escapes is read as it was typed.
proof fn lemma_submitted(password: Seq<char>)
    ensures
        submitted_password("password="@ + crate::form::url_encoded(password)) == password,
{
    let value = crate::form::url_encoded(password);
    let bytes = crate::form::percent_encoded(vstd::utf8::encode_utf8(password));
    let body = "password="@ + value;
    crate::form::lemma_escapes_are_plain(vstd::utf8::encode_utf8(password));
    reveal_strlit("password=");
    reveal_strlit("password");
    assert forall|i: int| 0 <= i < body.len() implies #[trigger] body[i] != '&' by {
        if i >= 9 {
            assert(body[i] == value[i - 9]);
            assert(bytes[i - 9] != 0x26 && bytes[i - 9] < 0x80);
        } else {
            assert(body[i] == "password="@[i]);
        }
    }
    text::lemma_split_single(body, '&');
    assert forall|i: int| 0 <= i < 8 implies #[trigger] body[i] != '=' by {
        assert(body[i] == "password="@[i]);
    }
    assert(body[8] == '=');
    text::lemma_find_is(body, '=', 8);
    assert(body.take(8) =~= "password"@);
    assert(body.skip(9) =~= value);
    crate::form::law_form_values_read_back(password);
}

/// Whoever types the right password into the form, whatever it is, is let in:
/// the login hands out a session that opens the dashboard until it expires, and
/// a wrong password, or too many failures, get none.
pub proof fn law_the_right_password_logs_in(
    admin: AdminView,
    https: bool,
    typed: Seq<char>,
    now: u64,
    later: u64,
)
    requires
        now <= later <= session_end(now),
    ensures
        ({
            let body = "password="@ + crate::form::url_encoded(typed);
            let grant = login_grant(admin, https, submitted_password(body), now);
            &&& grant is Some <==> !admin.throttled(now) && admin.password == Some(typed)
            &&& grant is Some ==> grant == Some(session_cookie(admin, https, now))
        }),
        session_opens(
            admin,
            Some(COOKIE@ + "="@ + session_token(admin.signing_key, session_end(now))),
            later,
        ),
{
    lemma_submitted(typed);
    law_session_cookie_opens_the_dashboard(admin, session_end(now), later);
}

/// A throttled login stays refused, even with the right password, until the
/// window is over, and every failure counts towards it.
pub proof fn law_failures_are_throttled(admin: AdminView, now: u64, later: u64)
    requires
        admin.window_start <= now <= later,
        later - admin.window_start < THROTTLE_WINDOW_SECS,
    ensures
        admin.throttled(now) ==> admin.throttled(later),
        admin.failures >= THROTTLE_MAX_FAILURES ==> admin.failed(now).throttled(later),
        admin.failed(now).failures >= admin.failures,
{
}

} // verus!

//! Sessions of the users in the config store. A token names its user and carries a
//! fragment of the digest of their password hash, and the guard's key vouches for
//! both: once the user is gone, or the fragment is that of another password, the
//! session is over.

use vstd::prelude::*;
use vstd::slice::slice_subrange;

use crate::auth;
use crate::auth::{ct_eq, Admin, AdminView, Headers, Verdict, SESSION_TTL_SECS};
use crate::config::{StoredConfig, User, UserView};
use crate::crypto::sha256;
use crate::digits;
use crate::labels;
use crate::text;

verus! {

/// The digits of a password hash's digest that a session carries.
pub const FRAGMENT_LEN: usize = 8;

/// The fragment of a password hash that a session carries.
pub open spec fn fragment(hash: Seq<char>) -> Seq<char> {
    labels::at_most(
        digits::hex_of(crate::crypto::sha256_digest(vstd::utf8::encode_utf8(hash))),
        FRAGMENT_LEN as int,
    )
}

/// What a session says: when it ends, whose it is, and with which password it was
/// opened.
pub open spec fn claim(expiry: u64, u: UserView) -> Seq<char> {
    digits::numeral(expiry as nat, 16) + seq!['.'] + (digits::hex_of(
        vstd::utf8::encode_utf8(u.username),
    ) + seq!['.'] + fragment(u.password_hash))
}

/// The token of a user's session.
pub open spec fn user_token(key: Seq<u8>, expiry: u64, u: UserView) -> Seq<char> {
    claim(expiry, u) + seq!['.'] + auth::seal_of(key, claim(expiry, u))
}

/// A token of a session of this user that is not over at `now`.
pub open spec fn opens_for(key: Seq<u8>, token: Seq<char>, now: u64, u: UserView) -> bool {
    exists|expiry: u64| expiry >= now && token == #[trigger] user_token(key, expiry, u)
}

/// The cookie of a user's session that starts at `now`.
pub open spec fn user_cookie(admin: AdminView, https: bool, u: UserView, now: u64) -> Seq<char> {
    auth::cookie_text(
        user_token(admin.signing_key, auth::session_end(now), u),
        SESSION_TTL_SECS,
        admin.trust_proxy && https,
    )
}

fn fragment_of(hash: &str) -> (r: String)
    ensures
        r@ == fragment(hash@),
{
    let digest = sha256(hash.as_bytes());
    let hex = digits::hex(digest.as_slice());
    let cs = text::chars(hex.as_str());
    let r = text::text(slice_subrange(&cs, 0, FRAGMENT_LEN));
    assert(r@ =~= cs@.take(FRAGMENT_LEN as int));
    r
}

fn token_of(admin: &Admin, expiry: u64, u: &User) -> (r: String)
    ensures
        r@ == user_token(admin@.signing_key, expiry, u@),
{
    let mut out = String::new();
    digits::push_numeral(&mut out, expiry, 16);
    out.push('.');
    let name = digits::hex(u.username.as_str().as_bytes());
    out.append(name.as_str());
    out.push('.');
    let part = fragment_of(u.password_hash.as_str());
    out.append(part.as_str());
    assert(out@ =~= claim(expiry, u@));
    let seal = admin.seal(out.as_str());
    out.push('.');
    out.append(seal.as_str());
    assert(out@ =~= user_token(admin@.signing_key, expiry, u@));
    out
}

/// The cookie that starts a user's session at `now`.
pub fn mint_session_cookie(
    admin: &Admin,
    forwarded_proto: Option<&str>,
    u: &User,
    now: u64,
) -> (r: String)
    ensures
        r@ == user_cookie(admin@, auth::came_over_https(forwarded_proto), u@, now),
{
    let expiry = now.saturating_add(SESSION_TTL_SECS);
    let token = token_of(admin, expiry, u);
    admin.cookie(forwarded_proto, token.as_str(), SESSION_TTL_SECS)
}

/// The user whose session a token is at `now`, if it is one.
pub fn session_user_at<'a>(admin: &Admin, store: &'a StoredConfig, token: &str, now: u64) -> (r:
    Option<&'a User>)
    ensures
        match r {
            Some(u) => exists|i: int|
                {
                    &&& 0 <= i < store@.users.len()
                    &&& u@ == #[trigger] store@.users[i]
                    &&& opens_for(admin@.signing_key, token@, now, u@)
                },
            None => forall|i: int|
                0 <= i < store@.users.len() ==> !opens_for(
                    admin@.signing_key,
                    token@,
                    now,
                    #[trigger] store@.users[i],
                ),
        },
{
    let ghost key = admin@.signing_key;
    let ghost all = store@.users;
    proof {
        assert forall|expiry: u64, u: UserView|
            token@ == #[trigger] user_token(key, expiry, u) implies text::split_once_at(
            token@,
            '.',
        ) matches Some((head, _)) && digits::parsed(head, 16) == Some(expiry) by {
            lemma_token_head(key, expiry, u);
        }
    }
    let expiry = match text::split_once(token, '.') {
        Some((head, _)) => match digits::parse(head.as_str(), 16) {
            Some(at) => at,
            None => {
                return None;
            },
        },
        None => {
            return None;
        },
    };
    if expiry < now {
        return None;
    }
    let mut i: usize = 0;
    while i < store.users.len()
        invariant
            key == admin@.signing_key,
            all == store@.users,
            expiry >= now,
            i <= store.users@.len(),
            forall|at: u64, u: UserView|
                token@ == #[trigger] user_token(key, at, u) ==> at == expiry,
            forall|k: int| 0 <= k < i ==> !opens_for(key, token@, now, #[trigger] all[k]),
        decreases store.users.len() - i,
    {
        assert(all[i as int] == store.users@[i as int]@);
        let expected = token_of(admin, expiry, &store.users[i]);
        if ct_eq(token, expected.as_str()) {
            assert(opens_for(key, token@, now, all[i as int]));
            return Some(&store.users[i]);
        }
        i += 1;
    }
    None
}

/// A cookie header with a session of one of the store's users.
pub open spec fn user_session_opens(
    admin: AdminView,
    users: Seq<UserView>,
    cookie: Option<Seq<char>>,
    now: u64,
) -> bool {
    &&& cookie matches Some(c)
    &&& auth::first_token(text::split_at_each(c, ';')) matches Some(token)
    &&& exists|i: int|
        0 <= i < users.len() && opens_for(admin.signing_key, token, now, #[trigger] users[i])
}

/// What becomes of a request to the admin surface at `now`: the session of a user
/// of the store lets it through too.
pub open spec fn session_verdict(
    admin: AdminView,
    users: Seq<UserView>,
    headers: Headers,
    now: u64,
) -> Verdict {
    if user_session_opens(admin, users, auth::optional_text(headers.cookie), now) {
        Verdict::Pass
    } else {
        auth::verdict(admin, headers, now)
    }
}

/// Guard the admin surface at `now`.
pub fn require_session_at(admin: &Admin, store: &StoredConfig, headers: &Headers, now: u64) -> (r:
    Verdict)
    ensures
        r == session_verdict(admin@, store@.users, *headers, now),
{
    if let Some(cookie) = &headers.cookie {
        if let Some(token) = auth::cookie_token(cookie.as_str()) {
            if session_user_at(admin, store, token.as_str(), now).is_some() {
                return Verdict::Pass;
            }
        }
    }
    auth::require_admin_at(admin, headers, now)
}

/// Guard the admin surface at the present time.
pub fn require_session(admin: &Admin, store: &StoredConfig, headers: &Headers) -> (r: Verdict)
    ensures
        exists|now: u64| r == #[trigger] session_verdict(admin@, store@.users, *headers, now),
{
    let t = auth::now();
    require_session_at(admin, store, headers, t)
}

/// None of the parts of a claim has a dot in it.
proof fn lemma_no_dots(expiry: u64, u: UserView)
    ensures
        !digits::numeral(expiry as nat, 16).contains('.'),
        !digits::hex_of(vstd::utf8::encode_utf8(u.username)).contains('.'),
        !fragment(u.password_hash).contains('.'),
{
    let digest = crate::crypto::sha256_digest(vstd::utf8::encode_utf8(u.password_hash));
    let name = vstd::utf8::encode_utf8(u.username);
    digits::lemma_numeral_value(expiry as nat, 16);
    digits::lemma_hex_of(name, name);
    digits::lemma_hex_of(digest, digest);
    assert forall|i: int| 0 <= i < fragment(u.password_hash).len() implies #[trigger] fragment(
        u.password_hash,
    )[i] != '.' by {
        assert(fragment(u.password_hash)[i] == digits::hex_of(digest)[i]);
    }
}

proof fn lemma_token_head(key: Seq<u8>, expiry: u64, u: UserView)
    ensures
        text::split_once_at(user_token(key, expiry, u), '.') matches Some((head, _))
            && digits::parsed(head, 16) == Some(expiry),
{
    let head = digits::numeral(expiry as nat, 16);
    let name = digits::hex_of(vstd::utf8::encode_utf8(u.username));
    let rest = name + seq!['.'] + fragment(u.password_hash) + seq!['.'] + auth::seal_of(
        key,
        claim(expiry, u),
    );
    lemma_no_dots(expiry, u);
    assert(user_token(key, expiry, u) =~= head + seq!['.'] + rest);
    text::lemma_split_joined(head, '.', rest);
    digits::law_numerals_read_back(expiry, 16);
}

/// The first three parts of a token.
proof fn lemma_token_parts(key: Seq<u8>, expiry: u64, u: UserView)
    ensures
        ({
            let parts = text::split_at_each(user_token(key, expiry, u), '.');
            &&& parts.len() >= 3
            &&& parts[0] == digits::numeral(expiry as nat, 16)
            &&& parts[1] == digits::hex_of(vstd::utf8::encode_utf8(u.username))
            &&& parts[2] == fragment(u.password_hash)
        }),
{
    let head = digits::numeral(expiry as nat, 16);
    let name = digits::hex_of(vstd::utf8::encode_utf8(u.username));
    let part = fragment(u.password_hash);
    let seal = auth::seal_of(key, claim(expiry, u));
    let last = part + seq!['.'] + seal;
    let rest = name + seq!['.'] + last;
    lemma_no_dots(expiry, u);
    assert(user_token(key, expiry, u) =~= head + seq!['.'] + rest);
    text::lemma_split_joined(head, '.', rest);
    text::lemma_split_joined(name, '.', last);
    text::lemma_split_joined(part, '.', seal);
}

/// A user's session lasts until it expires, and not after.
pub proof fn law_user_sessions_last_until_they_expire(
    key: Seq<u8>,
    expiry: u64,
    u: UserView,
    now: u64,
)
    ensures
        opens_for(key, user_token(key, expiry, u), now, u) <==> expiry >= now,
{
    let token = user_token(key, expiry, u);
    if opens_for(key, token, now, u) {
        let at = choose|at: u64| at >= now && token == #[trigger] user_token(key, at, u);
        lemma_token_head(key, expiry, u);
        lemma_token_head(key, at, u);
    }
}

/// A session goes with its user and their password: it opens for no user of
/// another name, nor after a change to a password whose fragment is another.
pub proof fn law_user_sessions_belong_to_their_user(
    key: Seq<u8>,
    expiry: u64,
    u: UserView,
    v: UserView,
    now: u64,
)
    requires
        u.username != v.username || fragment(u.password_hash) != fragment(v.password_hash),
    ensures
        !opens_for(key, user_token(key, expiry, u), now, v),
{
    let token = user_token(key, expiry, u);
    if opens_for(key, token, now, v) {
        let at = choose|at: u64| at >= now && token == #[trigger] user_token(key, at, v);
        lemma_token_parts(key, expiry, u);
        lemma_token_parts(key, at, v);
        let a = vstd::utf8::encode_utf8(u.username);
        let b = vstd::utf8::encode_utf8(v.username);
        digits::lemma_hex_of(a, b);
        auth::lemma_same_bytes(u.username, v.username);
    }
}

/// The cookie of a user's session opens the dashboard when it comes back, until
/// the session expires.
pub proof fn law_user_cookie_opens_the_dashboard(
    admin: AdminView,
    users: Seq<UserView>,
    i: int,
    expiry: u64,
    now: u64,
)
    requires
        0 <= i < users.len(),
        expiry >= now,
    ensures
        user_session_opens(
            admin,
            users,
            Some(auth::COOKIE@ + "="@ + user_token(admin.signing_key, expiry, users[i])),
            now,
        ),
{
    let u = users[i];
    let key = admin.signing_key;
    let token = user_token(key, expiry, u);
    let head = digits::numeral(expiry as nat, 16);
    let name = vstd::utf8::encode_utf8(u.username);
    let digest = crate::crypto::sha256_digest(vstd::utf8::encode_utf8(u.password_hash));
    let tag = crate::crypto::hmac_sha256_tag(key, vstd::utf8::encode_utf8(claim(expiry, u)));
    digits::lemma_numeral_value(expiry as nat, 16);
    digits::lemma_hex_of(name, name);
    digits::lemma_hex_of(digest, digest);
    digits::lemma_hex_of(tag, tag);
    assert forall|k: int| 0 <= k < token.len() implies auth::plain(#[trigger] token[k]) by {
        let a = head.len();
        let b = a + 1 + digits::hex_of(name).len();
        let c = b + 1 + fragment(u.password_hash).len();
        if k < a {
            assert(token[k] == head[k]);
        } else if a < k < b {
            assert(token[k] == digits::hex_of(name)[k - a - 1]);
        } else if b < k < c {
            assert(token[k] == fragment(u.password_hash)[k - b - 1]);
            assert(token[k] == digits::hex_of(digest)[k - b - 1]);
        } else if c < k {
            assert(token[k] == digits::hex_of(tag)[k - c - 1]);
        }
    }
    auth::lemma_cookie_carries(token);
    assert(opens_for(key, token, now, users[i]));
}

} // verus!

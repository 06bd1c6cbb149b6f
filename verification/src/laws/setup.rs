//! Promises about setting the proxy up: what a configuration has to be, how it comes
//! into use, and what the environment says.

use vstd::prelude::*;

use crate::auth;
use crate::auth::Admin;
use crate::clients;
use crate::clients::Clients;
use crate::config;
use crate::config::{Invalid, NimKey, StoredConfig, User};
use crate::digits;
use crate::dispatch::Dispatcher;
use crate::errors;
use crate::history::History;
use crate::json;
use crate::json::Tree;
use crate::labels;
use crate::sessions;
use crate::settings;
use crate::settings::{
    Checked, CommitError, KeyCheck, Probed, SetupAnswer, SetupRefusal, SetupReq, ValidateKeyReq,
};
use crate::startup;
use crate::startup::{Config, Refusal, Setting, Startup, Vars};
use crate::text;

verus! {

/// A character that a label may hold.
pub open spec fn for_labels(c: char) -> bool {
    'a' <= c <= 'z' || 'A' <= c <= 'Z' || '0' <= c <= '9' || c == '.' || c == '_' || c == '/' || c
        == ':' || c == '-'
}

/// A text that can be a label as it is.
pub open spec fn a_label(s: Seq<char>) -> bool {
    1 <= s.len() <= 64 && forall|i: int| 0 <= i < s.len() ==> for_labels(#[trigger] s[i])
}

proof fn lemma_label(s: Seq<char>)
    ensures
        config::label_name(s) <==> a_label(s),
{
    lemma_only_labels(s);
    if a_label(s) {
        lemma_all_labels(s);
    }
    if config::label_name(s) {
        labels::lemma_sanitized_safe(s);
        labels::lemma_sanitized_len(s);
        assert forall|i: int| 0 <= i < s.len() implies for_labels(#[trigger] s[i]) by {
            assert(labels::safe(labels::sanitized(s)[i]));
        }
    }
}

proof fn lemma_all_labels(s: Seq<char>)
    requires
        forall|i: int| 0 <= i < s.len() ==> for_labels(#[trigger] s[i]),
    ensures
        only_labels(s) == s,
    decreases s.len(),
{
    if s.len() > 0 {
        let rest = s.drop_last();
        assert forall|i: int| 0 <= i < rest.len() implies for_labels(#[trigger] rest[i]) by {
            assert(rest[i] == s[i]);
        }
        lemma_all_labels(rest);
        assert(for_labels(s[s.len() - 1]));
        assert(only_labels(s) =~= s);
    }
}

/// A label is what a text holds of these characters, up to the first sixty-four.
pub proof fn law_labels(s: &str, r: String)
    requires
        call_ensures(labels::sanitize_label, (s,), r),
    ensures
        a_label(s@) ==> r@ == s@,
        r@.len() <= 64,
        forall|i: int| 0 <= i < r@.len() ==> for_labels(#[trigger] r@[i]),
        r@.len() < 64 ==> r@ == only_labels(s@),
        r@ == only_labels(s@).take(r@.len() as int),
        r@.len() == 64 || r@.len() == only_labels(s@).len(),
{
    lemma_only_labels(s@);
    labels::lemma_sanitized_safe(s@);
    if a_label(s@) {
        lemma_all_labels(s@);
    }
    assert(only_labels(s@).take(only_labels(s@).len() as int) =~= only_labels(s@));
}

/// What a text holds of these characters, in their order.
pub open spec fn only_labels(s: Seq<char>) -> Seq<char>
    decreases s.len(),
{
    if s.len() == 0 {
        s
    } else if for_labels(s.last()) {
        only_labels(s.drop_last()).push(s.last())
    } else {
        only_labels(s.drop_last())
    }
}

proof fn lemma_only_labels(s: Seq<char>)
    ensures
        labels::sanitized(s) == labels::at_most(only_labels(s), 64),
{
    lemma_filtered(s, |c: char| labels::safe(c));
}

proof fn lemma_filtered(s: Seq<char>, f: spec_fn(char) -> bool)
    requires
        forall|c: char| #[trigger] f(c) == for_labels(c),
    ensures
        s.filter(f) == only_labels(s),
    decreases s.len(),
{
    reveal(Seq::filter);
    if s.len() > 0 {
        lemma_filtered(s.drop_last(), f);
        assert(f(s.last()) == for_labels(s.last()));
    }
    assert(s.filter(f) =~= only_labels(s));
}

/// No more than two hundred and fifty-six labels are ever told apart: a new one is
/// remembered while there are fewer, and is called "other" from then on.
pub proof fn law_bounded_labels(seen: &mut Vec<String>, label: &str, r: String)
    requires
        call_ensures(labels::bounded_label, (seen, label), r),
    ensures
        ({
            let known = exists|i: int| 0 <= i < old(seen)@.len() && (#[trigger] old(seen)@[i])@ == label@;
            let room = old(seen)@.len() < 256;
            &&& known || room ==> r@ == label@
            &&& !known && !room ==> r@ == "other"@
            &&& !known && room ==> text::views(final(seen)@) == text::views(old(seen)@).push(label@)
            &&& known || !room ==> text::views(final(seen)@) == text::views(old(seen)@)
        }),
{
    lemma_listed(old(seen)@, label@);
    assert(text::views(old(seen)@).len() == old(seen)@.len());
}

proof fn lemma_listed(v: Seq<String>, s: Seq<char>)
    ensures
        text::views(v).contains(s) <==> exists|i: int| 0 <= i < v.len() && (#[trigger] v[i])@ == s,
{
    if text::views(v).contains(s) {
        let i = choose|i: int| 0 <= i < text::views(v).len() && text::views(v)[i] == s;
        assert(v[i]@ == s);
    }
    if exists|i: int| 0 <= i < v.len() && (#[trigger] v[i])@ == s {
        let i = choose|i: int| 0 <= i < v.len() && (#[trigger] v[i])@ == s;
        assert(text::views(v)[i] == s);
    }
}

/// Two paths have labels of their own.
pub proof fn law_path_labels(path: &str, r: &'static str)
    requires
        call_ensures(labels::label_path, (path,), r),
    ensures
        path@ == "/v1/chat/completions"@ || path@ == "/v1/models"@ ==> r@ == path@,
        path@ != "/v1/chat/completions"@ && path@ != "/v1/models"@ ==> r@ == "other"@,
{
}

/// The first user that is a superuser.
pub open spec fn first_super(users: Seq<User>, i: int) -> bool {
    0 <= i < users.len() && users[i].role is Superuser && forall|j: int|
        0 <= j < i ==> !((#[trigger] users[j]).role is Superuser)
}

proof fn lemma_first_super(c: StoredConfig)
    ensures
        0 <= c@.superuser_at() <= c.users@.len(),
        c@.superuser_at() < c.users@.len() ==> first_super(c.users@, c@.superuser_at()),
        forall|i: int| #[trigger] first_super(c.users@, i) ==> i == c@.superuser_at(),
        c@.superuser_at() == c.users@.len() ==> forall|i: int|
            0 <= i < c.users@.len() ==> !((#[trigger] c.users@[i]).role is Superuser),
{
    let k = c@.superuser_at();
    config::lemma_first_superuser(c@.users);
    assert forall|i: int| 0 <= i < k implies !((#[trigger] c.users@[i]).role is Superuser) by {
        assert(c@.users[i].role == c.users@[i].role);
    }
    if k < c.users@.len() {
        assert(c@.users[k].role == c.users@[k].role);
    }
}

/// The superuser is the first user of that role.
pub proof fn law_superusers(c: &StoredConfig, r: Option<&User>)
    requires
        call_ensures(StoredConfig::superuser, (c,), r),
    ensures
        r is None <==> forall|i: int|
            0 <= i < c.users@.len() ==> !((#[trigger] c.users@[i]).role is Superuser),
        r matches Some(u) ==> exists|i: int|
            #[trigger] first_super(c.users@, i) && c.users@[i]@ == u@,
{
    lemma_first_super(*c);
    let k = c@.superuser_at();
    if let Some(u) = r {
        assert(first_super(c.users@, k));
        assert(c.users@[k]@ == u@);
    }
}

/// A text begins with another.
pub open spec fn begins(s: Seq<char>, p: Seq<char>) -> bool {
    exists|rest: Seq<char>| s == #[trigger] (p + rest)
}

proof fn lemma_begins(s: Seq<char>, p: Seq<char>)
    ensures
        text::stands_at(s, p, 0) <==> begins(s, p),
{
    if text::stands_at(s, p, 0) {
        assert(s =~= p + s.skip(p.len() as int));
    }
    if begins(s, p) {
        let rest = choose|rest: Seq<char>| s == #[trigger] (p + rest);
        assert(s.subrange(0, p.len() as int) =~= p);
    }
}

/// The rules that a configuration keeps, one by one.
pub open spec fn address_fits(c: StoredConfig) -> bool {
    begins(c.upstream.base_url@, "http://"@) || begins(c.upstream.base_url@, "https://"@)
}

pub open spec fn rates_fit(c: StoredConfig) -> bool {
    forall|i: int|
        0 <= i < c.upstream.nim_keys@.len() ==> 1 <= (#[trigger] c.upstream.nim_keys@[i]).rpm
            <= 10_000
}

pub open spec fn names_fit(c: StoredConfig) -> bool {
    forall|i: int|
        0 <= i < c.client_auth.keys@.len() ==> a_label((#[trigger] c.client_auth.keys@[i]).name@)
}

pub open spec fn names_differ(c: StoredConfig) -> bool {
    forall|i: int, j: int|
        0 <= i < j < c.client_auth.keys@.len() ==> (#[trigger] c.client_auth.keys@[i]).name@ != (
        #[trigger] c.client_auth.keys@[j]).name@
}

pub open spec fn heartbeat_fits(c: StoredConfig) -> bool {
    c.limits.heartbeat_secs < c.limits.max_wait_secs
}

pub open spec fn superuser_serves(c: StoredConfig) -> bool {
    exists|s: int, i: int|
        #[trigger] first_super(c.users@, s) && 0 <= i < c.upstream.nim_keys@.len() && (
        #[trigger] c.upstream.nim_keys@[i]).enabled && c.upstream.nim_keys@[i].owner@
            == c.users@[s].username@
}

proof fn lemma_fault(c: StoredConfig)
    ensures
        c@.url_ok() <==> address_fits(c),
        c@.rates_ok() <==> rates_fit(c),
        c@.names_ok() <==> names_fit(c),
        c@.names_unique() <==> names_differ(c),
        c@.pool_has_a_floor() <==> superuser_serves(c),
{
    lemma_begins(c.upstream.base_url@, "http://"@);
    lemma_begins(c.upstream.base_url@, "https://"@);
    let n = c.upstream.nim_keys@;
    let k = c.client_auth.keys@;
    assert forall|i: int| 0 <= i < n.len() implies #[trigger] c@.nim_keys[i] == n[i]@ by {}
    assert forall|i: int| 0 <= i < k.len() implies #[trigger] c@.client_keys[i] == k[i]@ by {}
    if c@.rates_ok() {
        assert forall|i: int| 0 <= i < n.len() implies 1 <= (#[trigger] n[i]).rpm <= 10_000 by {
            assert(c@.nim_keys[i].rpm == n[i].rpm);
        }
    }
    if c@.names_ok() {
        assert forall|i: int| 0 <= i < k.len() implies a_label((#[trigger] k[i]).name@) by {
            assert(c@.client_keys[i].name == k[i].name@);
            lemma_label(k[i].name@);
        }
    }
    if names_fit(c) {
        assert forall|i: int| 0 <= i < c@.client_keys.len() implies config::label_name(
            (#[trigger] c@.client_keys[i]).name,
        ) by {
            lemma_label(k[i].name@);
        }
    }
    if c@.names_unique() {
        assert forall|i: int, j: int| 0 <= i < j < k.len() implies (#[trigger] k[i]).name@ != (
        #[trigger] k[j]).name@ by {
            assert(c@.client_keys[i].name != c@.client_keys[j].name);
        }
    }
    lemma_first_super(c);
    let s = c@.superuser_at();
    if c@.pool_has_a_floor() {
        let i = choose|i: int|
            0 <= i < c@.nim_keys.len() && (#[trigger] c@.nim_keys[i]).enabled
                && c@.nim_keys[i].owner == c@.users[s].username;
        assert(first_super(c.users@, s));
        assert(n[i].enabled && n[i].owner@ == c.users@[s].username@);
    }
    if superuser_serves(c) {
        let (t, i) = choose|t: int, i: int|
            #[trigger] first_super(c.users@, t) && 0 <= i < c.upstream.nim_keys@.len() && (
            #[trigger] c.upstream.nim_keys@[i]).enabled && c.upstream.nim_keys@[i].owner@
                == c.users@[t].username@;
        assert(t == s);
        assert(c@.nim_keys[i].enabled && c@.nim_keys[i].owner == c@.users[s].username);
    }
}

/// A configuration is valid exactly if it keeps every rule, and the first that it
/// breaks is named.
pub proof fn law_validating(c: &StoredConfig, r: Result<(), Invalid>)
    requires
        call_ensures(config::validate, (c,), r),
    ensures
        r is Ok <==> address_fits(*c) && rates_fit(*c) && names_fit(*c) && names_differ(*c)
            && heartbeat_fits(*c) && superuser_serves(*c),
        r matches Err(e) ==> match e {
            Invalid::BaseUrl => !address_fits(*c),
            Invalid::Rate => address_fits(*c) && !rates_fit(*c),
            Invalid::ClientName => address_fits(*c) && rates_fit(*c) && !names_fit(*c),
            Invalid::DuplicateClient => address_fits(*c) && rates_fit(*c) && names_fit(*c)
                && !names_differ(*c),
            Invalid::Heartbeat => address_fits(*c) && rates_fit(*c) && names_fit(*c)
                && names_differ(*c) && !heartbeat_fits(*c),
            Invalid::NoSuperuserKey => address_fits(*c) && rates_fit(*c) && names_fit(*c)
                && names_differ(*c) && heartbeat_fits(*c) && !superuser_serves(*c),
        },
{
    lemma_fault(*c);
}

/// What runs is what the configuration says: its address, its limits, and the clients
/// that it lets in.
pub proof fn law_running(c: &StoredConfig, r: Config)
    requires
        call_ensures(StoredConfig::runtime, (c,), r),
    ensures
        runs(*c, r),
{
    lemma_runs(*c, r);
}

pub open spec fn runs(c: StoredConfig, r: Config) -> bool {
    &&& r.base_url@ == c.upstream.base_url@
    &&& r.max_wait@ == c.limits.max_wait_secs * 1_000_000_000
    &&& r.heartbeat@ == c.limits.heartbeat_secs * 1_000_000_000
    &&& r.models_ttl@ == c.limits.models_ttl_secs * 1_000_000_000
    &&& r.stream_idle@ == c.limits.stream_idle_secs * 1_000_000_000
    &&& r.request_timeout@ == c.limits.request_timeout_secs * 1_000_000_000
    &&& r.strict_passthrough == c.limits.strict_passthrough
    &&& r.max_inflight == c.limits.max_inflight
    &&& r.clients is None <==> c.client_auth.mode is Open
    &&& r.clients matches Some(known) ==> {
        &&& known@.digested
        &&& known@.list.len() == c.client_auth.keys@.len()
        &&& forall|i: int|
            0 <= i < known@.list.len() ==> #[trigger] known@.list[i] == (
                c.client_auth.keys@[i].secret_sha256@,
                c.client_auth.keys@[i].name@,
            )
    }
}

proof fn lemma_runs(c: StoredConfig, r: Config)
    requires
        c@.runs(r),
    ensures
        runs(c, r),
{
    assert(crate::time::NANOS_PER_SEC == 1_000_000_000);
    assert(clients::known(r.clients) == c@.clients());
    if let Some(known) = r.clients {
        assert(c@.clients() == Some(known@));
        assert forall|i: int| 0 <= i < known@.list.len() implies #[trigger] known@.list[i] == (
            c.client_auth.keys@[i].secret_sha256@,
            c.client_auth.keys@[i].name@,
        ) by {
            assert(c@.client_keys[i] == c.client_auth.keys@[i]@);
        }
    }
}

/// The keys that are enabled, in their order, each with its rate.
pub open spec fn enabled_keys(keys: Seq<NimKey>) -> Seq<(Seq<char>, usize)>
    decreases keys.len(),
{
    if keys.len() == 0 {
        Seq::empty()
    } else if keys.last().enabled {
        enabled_keys(keys.drop_last()).push((keys.last().key@, keys.last().rpm))
    } else {
        enabled_keys(keys.drop_last())
    }
}

proof fn lemma_enabled(c: StoredConfig)
    ensures
        c@.lanes() == enabled_keys(c.upstream.nim_keys@),
{
    lemma_enabled_views(
        c.upstream.nim_keys@,
        c@.nim_keys,
        |k: config::KeyView| k.enabled,
        |k: config::KeyView| (k.key, k.rpm),
    );
}

proof fn lemma_enabled_views(
    keys: Seq<NimKey>,
    views: Seq<config::KeyView>,
    f: spec_fn(config::KeyView) -> bool,
    g: spec_fn(config::KeyView) -> (Seq<char>, usize),
)
    requires
        keys.len() == views.len(),
        forall|i: int| 0 <= i < keys.len() ==> views[i] == (#[trigger] keys[i])@,
        forall|k: config::KeyView| #[trigger] f(k) == k.enabled,
        forall|k: config::KeyView| #[trigger] g(k) == (k.key, k.rpm),
    ensures
        views.filter(f).map_values(g) == enabled_keys(keys),
    decreases keys.len(),
{
    reveal(Seq::filter);
    if keys.len() > 0 {
        let k = keys.drop_last();
        let v = views.drop_last();
        assert forall|i: int| 0 <= i < k.len() implies v[i] == (#[trigger] k[i])@ by {
            assert(k[i] == keys[i]);
        }
        lemma_enabled_views(k, v, f, g);
        let last = keys.last();
        assert(views.last() == last@);
        if f(last@) {
            assert(views.filter(f) == v.filter(f).push(last@));
            assert(v.filter(f).push(last@).map_values(g) =~= v.filter(f).map_values(g).push(
                g(last@),
            ));
        }
    }
    assert(views.filter(f).map_values(g) =~= enabled_keys(keys));
}

/// The pool has a lane for each key that is enabled, at the key's rate.
pub proof fn law_pool_keys(c: &StoredConfig, r: Vec<(String, usize)>)
    requires
        call_ensures(StoredConfig::pool_keys, (c,), r),
    ensures
        r@.len() == enabled_keys(c.upstream.nim_keys@).len(),
        forall|i: int|
            0 <= i < r@.len() ==> (r@[i].0@, r@[i].1) == #[trigger] enabled_keys(
                c.upstream.nim_keys@,
            )[i],
{
    lemma_enabled(*c);
    let v = r@.map_values(|p: (String, usize)| (p.0@, p.1));
    assert(v == c@.lanes());
    assert forall|i: int| 0 <= i < r@.len() implies (r@[i].0@, r@[i].1)
        == #[trigger] enabled_keys(c.upstream.nim_keys@)[i] by {
        assert(v[i] == (r@[i].0@, r@[i].1));
    }
}

/// A setup is looked at first: there has to be one to do, and its password has ten
/// characters at least.
pub proof fn law_setup_checks(required: bool, req: &SetupReq, r: Result<(), SetupRefusal>)
    requires
        call_ensures(settings::setup_precheck, (required, req), r),
    ensures
        r is Ok <==> required && req.password@.len() >= 10,
        r matches Err(e) ==> (e is NotFound <==> !required) && (e is WeakPassword <==> required),
{
}

/// A user is a superuser.
pub open spec fn someone_rules(users: Seq<User>) -> bool {
    exists|i: int| 0 <= i < users.len() && (#[trigger] users[i]).role is Superuser
}

proof fn lemma_someone_rules(c: StoredConfig)
    ensures
        c@.has_superuser() <==> someone_rules(c.users@),
{
    if c@.has_superuser() {
        let i = choose|i: int| c@.is_superuser(i);
        assert(c.users@[i].role is Superuser);
    }
    if someone_rules(c.users@) {
        let i = choose|i: int| 0 <= i < c.users@.len() && (#[trigger] c.users@[i]).role is Superuser;
        assert(c@.is_superuser(i));
    }
}

/// What a setup makes of a configuration: its one user is the superuser, who owns the
/// keys and clients there were and the keys that they brought; everything else stays.
pub open spec fn claimed(
    c: config::ConfigView,
    req: SetupReq,
    hash: Seq<char>,
    after: config::ConfigView,
) -> bool {
    let old_keys = c.nim_keys.len();
    &&& after.users.len() == 1
    &&& after.users[0].username == req.username@
    &&& after.users[0].password_hash == hash
    &&& after.users[0].role is Superuser
    &&& req.base_url is None ==> after.base_url == c.base_url
    &&& req.base_url matches Some(b) ==> {
        let plain = text::trimmed(b@);
        &&& after.base_url.len() <= plain.len()
        &&& after.base_url == plain.take(after.base_url.len() as int)
        &&& after.base_url.len() > 0 ==> after.base_url.last() != '/'
        &&& forall|i: int| after.base_url.len() <= i < plain.len() ==> #[trigger] plain[i] == '/'
    }
    &&& after.nim_keys.len() == old_keys + req.nim_keys@.len()
    &&& forall|i: int|
        0 <= i < old_keys ==> {
            &&& (#[trigger] after.nim_keys[i]).key == c.nim_keys[i].key
            &&& after.nim_keys[i].enabled == c.nim_keys[i].enabled
            &&& after.nim_keys[i].rpm == c.nim_keys[i].rpm
            &&& after.nim_keys[i].owner == req.username@
        }
    &&& forall|i: int|
        old_keys <= i < after.nim_keys.len() ==> {
            let brought = req.nim_keys@[i - old_keys];
            &&& (#[trigger] after.nim_keys[i]).key == text::trimmed(brought.key@)
            &&& after.nim_keys[i].enabled
            &&& after.nim_keys[i].owner == req.username@
            &&& brought.rpm is None ==> after.nim_keys[i].rpm == 40
            &&& brought.rpm is Some ==> after.nim_keys[i].rpm == brought.rpm->0
        }
    &&& after.mode == c.mode
    &&& after.client_keys.len() == c.client_keys.len()
    &&& forall|i: int|
        0 <= i < after.client_keys.len() ==> {
            &&& (#[trigger] after.client_keys[i]).name == c.client_keys[i].name
            &&& after.client_keys[i].secret_sha256 == c.client_keys[i].secret_sha256
            &&& after.client_keys[i].owner == req.username@
        }
    &&& after.limits == c.limits
    &&& after.days == c.days
}

proof fn lemma_claimed(c: config::ConfigView, req: SetupReq, hash: Seq<char>)
    ensures
        claimed(c, req, hash, settings::after_setup(c, req, hash)),
{
    let after = settings::after_setup(c, req, hash);
    if let Some(b) = req.base_url {
        crate::laws::words::lemma_without_trailing(text::trimmed(b@), '/');
    }
}

/// A setup is accepted once, while nobody rules.
pub proof fn law_setups(
    required: bool,
    c: &StoredConfig,
    req: &SetupReq,
    hash: &str,
    r: Result<StoredConfig, SetupRefusal>,
)
    requires
        call_ensures(settings::setup_submit, (required, c, req, hash), r),
    ensures
        r is Ok <==> required && req.password@.len() >= 10 && !someone_rules(c.users@),
        r matches Ok(after) ==> claimed(c@, *req, hash@, after@),
        r matches Err(e) ==> match e {
            SetupRefusal::NotFound => !required,
            SetupRefusal::WeakPassword => required && req.password@.len() < 10,
            SetupRefusal::AlreadyConfigured => required && req.password@.len() >= 10
                && someone_rules(c.users@),
        },
{
    lemma_someone_rules(*c);
    lemma_claimed(c@, *req, hash@);
}

/// A body that tells an error.
pub open spec fn says_error(body: Option<String>, code: Seq<char>, message: Seq<char>) -> bool {
    body matches Some(b) && b@ == json::rendering(errors::error_tree(code, message))
}

/// What is refused is answered with its reason.
pub proof fn law_setup_answers(why: &SetupRefusal, r: Option<errors::ErrorReply>, a: SetupAnswer)
    requires
        call_ensures(SetupRefusal::answer, (why,), r),
        call_ensures(SetupAnswer::refuse, (why,), a),
    ensures
        a.cookie is None,
        *why is NotFound ==> r is None && a.status == 404 && a.body is None,
        *why is WeakPassword ==> (r matches Some(e) && e.status == 400 && e.code@
            == "weak_password"@ && e.message@ == "password must be at least 10 characters"@),
        *why is WeakPassword ==> a.status == 400 && says_error(
            a.body,
            "weak_password"@,
            "password must be at least 10 characters"@,
        ),
        *why is AlreadyConfigured ==> (r matches Some(e) && e.status == 409 && e.code@
            == "already_configured"@ && e.message@ == "setup was just completed by someone else"@),
        *why is AlreadyConfigured ==> a.status == 409 && says_error(
            a.body,
            "already_configured"@,
            "setup was just completed by someone else"@,
        ),
{
    assert(a@.cookie == auth::optional_text(a.cookie));
    assert(a@.body == auth::optional_text(a.body));
}

/// A candidate is checked by the rules of a configuration, and stays what it is.
pub proof fn law_checking(
    candidate: StoredConfig,
    same: &StoredConfig,
    r: Result<Checked, CommitError>,
    v: Result<(), Invalid>,
)
    requires
        call_ensures(settings::check, (candidate,), r),
        *same == candidate,
        call_ensures(config::validate, (same,), v),
    ensures
        r is Ok <==> v is Ok,
        r matches Ok(k) ==> k@ == candidate,
        r matches Err(e) ==> (v matches Err(i) && e == CommitError::Invalid(i)),
{
}

/// A configuration comes into use as a whole once it was written, and not at all if it
/// was not. The lanes of keys that stay keep what they sent and their benches, and
/// those who wait keep their places.
pub proof fn law_committing<R>(
    store: &mut StoredConfig,
    cfg: &mut Config,
    dispatch: &mut Dispatcher<R>,
    history: &mut History,
    candidate: Checked,
    written: Result<(), String>,
    r: Result<(), CommitError>,
    k: int,
)
    requires
        call_ensures(
            settings::commit::<R>,
            (store, cfg, dispatch, history, candidate, written),
            r,
        ),
        0 <= k < enabled_keys(candidate@.upstream.nim_keys@).len(),
    ensures
        r is Ok <==> written is Ok,
        r is Err ==> (written matches Err(why) && r == Err::<(), CommitError>(
            CommitError::Unwritten(why),
        )),
        r is Err ==> *final(store) == *old(store) && *final(cfg) == *old(cfg) && final(dispatch)@
            == old(dispatch)@ && *final(history) == *old(history),
        r is Ok ==> {
            let keys = enabled_keys(candidate@.upstream.nim_keys@);
            let before = old(dispatch)@.pool.lanes;
            let after = final(dispatch)@.pool.lanes;
            &&& *final(store) == candidate@
            &&& runs(candidate@, *final(cfg))
            &&& final(history).days == candidate@.history.days
            &&& final(history)@.points == old(history)@.points
            &&& final(dispatch)@.waiting == old(dispatch)@.waiting
            &&& after.len() == keys.len()
            &&& after[k].key == keys[k].0
            &&& after[k].rpm == keys[k].1
            &&& (forall|i: int| 0 <= i < before.len() ==> (#[trigger] before[i]).key != keys[k].0)
                ==> after[k].log.len() == 0 && after[k].cooldown_until == 0
            &&& forall|i: int|
                #![trigger before[i]]
                0 <= i < before.len() && before[i].key == keys[k].0 && (forall|j: int|
                    0 <= j < i ==> (#[trigger] before[j]).key != keys[k].0) ==> {
                    &&& after[k].log == before[i].log
                    &&& after[k].cooldown_until == before[i].cooldown_until
                }
        },
{
    let c = candidate@;
    lemma_enabled(c);
    let keys = enabled_keys(c.upstream.nim_keys@);
    crate::pool::law_rebuilds_keep_what_counts(
        old(dispatch)@.pool.lanes,
        keys[k].0,
        keys[k].1 as nat,
    );
    if r is Ok {
        lemma_runs(c, *final(cfg));
        assert(final(history)@.days == final(history).days);
    }
}

/// A setup is claimed with a configuration that is valid, and is refused or declined
/// otherwise.
pub proof fn law_claims(
    required: bool,
    c: &StoredConfig,
    req: &SetupReq,
    hash: &str,
    r: Result<Checked, SetupAnswer>,
    submitted: Result<StoredConfig, SetupRefusal>,
    candidate: &StoredConfig,
    v: Result<(), Invalid>,
    why: &SetupRefusal,
    refused: SetupAnswer,
)
    requires
        call_ensures(settings::setup_claim, (required, c, req, hash), r),
        call_ensures(settings::setup_submit, (required, c, req, hash), submitted),
        submitted matches Ok(s) ==> *candidate == s,
        submitted matches Err(e) ==> *why == e,
        call_ensures(config::validate, (candidate,), v),
        call_ensures(SetupAnswer::refuse, (why,), refused),
    ensures
        r is Ok <==> submitted is Ok && v is Ok,
        r matches Ok(k) ==> claimed(c@, *req, hash@, k@@),
        r matches Err(a) ==> submitted is Err ==> a@ == refused@,
        r matches Err(a) ==> submitted is Ok ==> a.status == 400 && a.cookie is None && (
        v matches Err(i) && says_error(a.body, "invalid_config"@, i.text())),
{
    lemma_claimed(c@, *req, hash@);
    if let Err(a) = r {
        assert(a@.cookie == auth::optional_text(a.cookie));
        assert(a@.body == auth::optional_text(a.body));
    }
}

/// A setup is over once its configuration was written, and its superuser is logged in;
/// otherwise nothing has changed, and it can be done again.
pub proof fn law_finishing<R>(
    required: &mut bool,
    store: &mut StoredConfig,
    cfg: &mut Config,
    dispatch: &mut Dispatcher<R>,
    history: &mut History,
    candidate: Checked,
    written: Result<(), String>,
    admin: &Admin,
    forwarded_proto: Option<&str>,
    now: u64,
    r: SetupAnswer,
    u: &User,
    cookie: String,
    s: int,
)
    requires
        call_ensures(
            settings::setup_finish::<R>,
            (
                required,
                store,
                cfg,
                dispatch,
                history,
                candidate,
                written,
                admin,
                forwarded_proto,
                now,
            ),
            r,
        ),
        first_super(candidate@.users@, s),
        *u == candidate@.users@[s],
        call_ensures(sessions::mint_session_cookie, (admin, forwarded_proto, u, now), cookie),
    ensures
        written is Ok ==> {
            &&& r.status == 200
            &&& r.cookie matches Some(c)
            &&& c@ == cookie@
            &&& r.body matches Some(b)
            &&& b@ == json::rendering(
                Tree::Object(Map::empty().insert("ok"@, Tree::Bool(true))),
            )
            &&& !*final(required)
            &&& *final(store) == candidate@
            &&& runs(candidate@, *final(cfg))
        },
        written matches Err(why) ==> {
            &&& says_error(
                r.body,
                "invalid_config"@,
                "cannot write the config store: "@ + why@,
            )
            &&& r.status == 400
            &&& r.cookie is None
            &&& *final(required) == *old(required)
            &&& *final(store) == *old(store)
            &&& *final(cfg) == *old(cfg)
            &&& final(dispatch)@ == old(dispatch)@
            &&& *final(history) == *old(history)
        },
{
    lemma_first_super(candidate@);
    assert(r@.cookie == auth::optional_text(r.cookie));
    assert(r@.body == auth::optional_text(r.body));
    assert(candidate@@.users[s] == candidate@.users@[s]@);
    if written is Ok {
        lemma_runs(candidate@, *final(cfg));
    }
}

/// Keys are validated only while there is a setup to do, and every attempt counts
/// towards the throttle.
pub proof fn law_validating_keys(
    required: bool,
    admin: &mut Admin,
    now: u64,
    req: &ValidateKeyReq,
    store: &StoredConfig,
    r: KeyCheck,
)
    requires
        call_ensures(settings::setup_validate_key, (required, admin, now, req, store), r),
    ensures
        ({
            let throttled = old(admin)@.failures > 10 && now < old(admin)@.window_start + 60;
            &&& r is NotFound <==> !required
            &&& r is Throttled <==> required && throttled
            &&& r is Probe <==> required && !throttled
            &&& !(r is Probe) ==> final(admin)@ == old(admin)@
            &&& r is Probe && now < old(admin)@.window_start + 60 ==> final(admin)@.failures
                == crate::laws::operator::one_more(old(admin)@.failures)
            &&& r is Probe && now >= old(admin)@.window_start + 60 ==> final(admin)@.failures == 1
                && final(admin)@.window_start == now
        }),
        r matches KeyCheck::Throttled(e) ==> e.status == 429 && e.code@ == "throttled"@,
        r matches KeyCheck::Probe { base_url, key } ==> {
            let plain = text::trimmed(
                match req.base_url {
                    Some(b) => b@,
                    None => store.upstream.base_url@,
                },
            );
            &&& key@ == text::trimmed(req.key@)
            &&& base_url@.len() <= plain.len()
            &&& base_url@ == plain.take(base_url@.len() as int)
            &&& base_url@.len() > 0 ==> base_url@.last() != '/'
            &&& forall|i: int| base_url@.len() <= i < plain.len() ==> #[trigger] plain[i] == '/'
        },
{
    let plain = text::trimmed(
        match req.base_url {
            Some(b) => b@,
            None => store.upstream.base_url@,
        },
    );
    crate::laws::words::lemma_without_trailing(plain, '/');
}

/// A key is worth as many models as the list says that it opens; whatever else the
/// upstream answers is an error that says what went wrong.
pub proof fn law_probing(p: &Probed, r: Result<usize, String>)
    requires
        call_ensures(settings::probe_key, (p,), r),
    ensures
        *p matches Probed::Unreachable(e) ==> (r matches Err(m) && m@ == "cannot reach upstream: "@
            + e@),
        *p matches Probed::Answered { status, status_text, body } ==> {
            &&& !(200 <= status <= 299) ==> (r matches Err(m) && m@
                == "upstream rejected the key ("@ + status_text@ + ")"@)
            &&& 200 <= status <= 299 ==> {
                &&& body matches Err(e) ==> (r matches Err(m) && m@
                    == "upstream sent an unreadable model list: "@ + e@)
                &&& body matches Ok(b) ==> {
                    &&& json::reading(b@) matches Err(e) ==> (r matches Err(m) && m@
                        == "upstream sent an unreadable model list: "@ + e)
                    &&& json::reading(b@) matches Ok(t) ==> (r matches Ok(n) && n
                        == listed_under_data(t))
                }
            }
        },
{
}

/// The entries of the list under `data`.
pub open spec fn listed_under_data(t: Tree) -> nat {
    if t is Object && t->Object_0.contains_key("data"@) && t->Object_0["data"@] is Array {
        t->Object_0["data"@]->Array_0.len()
    } else {
        0
    }
}

pub proof fn law_counting_models(v: &serde_json::Value, r: usize)
    requires
        call_ensures(settings::count_models, (v,), r),
    ensures
        r == listed_under_data(json::contents(*v)),
{
}

/// What a key is worth is told with a yes and a number, or with a no and the reason.
pub proof fn law_probe_answers(w: &Result<usize, String>, r: String)
    requires
        call_ensures(settings::probe_answer, (w,), r),
    ensures
        exists|m: Map<Seq<char>, Tree>|
            #![trigger json::rendering(Tree::Object(m))]
            {
                &&& r@ == json::rendering(Tree::Object(m))
                &&& m.contains_key("ok"@)
                &&& m["ok"@] == Tree::Bool(*w is Ok)
                &&& *w matches Ok(n) ==> m.dom() == set!["ok"@, "models"@] && m["models"@]
                    == Tree::UInt(n as u64)
                &&& *w matches Err(e) ==> m.dom() == set!["ok"@, "error"@] && m["error"@]
                    == Tree::Str(e@)
            },
{
    reveal_strlit("ok");
    reveal_strlit("models");
    reveal_strlit("error");
    assert("ok"@.len() == 2 && "models"@.len() == 6 && "error"@.len() == 5);
    let t = settings::worth_tree(
        match *w {
            Ok(n) => Ok(n),
            Err(e) => Err(e@),
        },
    );
    let m = t->Object_0;
    assert(t == Tree::Object(m));
    match *w {
        Ok(n) => {
            assert(m.dom() =~= set!["ok"@, "models"@]);
        },
        Err(e) => {
            assert(m.dom() =~= set!["ok"@, "error"@]);
        },
    }
}

/// A variable is what the first of its name says, and its default where there is none.
pub proof fn law_variables(vars: &Vars, name: &str, default: &str, r: String, k: int)
    requires
        call_ensures(startup::env_or, (vars, name, default), r),
    ensures
        (forall|i: int| 0 <= i < vars@.len() ==> (#[trigger] vars@[i]).0@ != name@) ==> r@
            == default@,
        0 <= k < vars@.len() && vars@[k].0@ == name@ && (forall|i: int|
            0 <= i < k ==> (#[trigger] vars@[i]).0@ != name@) ==> r@ == vars@[k].1@,
{
    lemma_setting(vars@, startup::vars_of(vars@), name@, default@, k);
}

proof fn lemma_setting(
    vars: Seq<(String, String)>,
    views: Seq<(Seq<char>, Seq<char>)>,
    name: Seq<char>,
    default: Seq<char>,
    k: int,
)
    requires
        vars.len() == views.len(),
        forall|i: int| 0 <= i < vars.len() ==> views[i] == ((#[trigger] vars[i]).0@, vars[i].1@),
    ensures
        (forall|i: int| 0 <= i < vars.len() ==> (#[trigger] vars[i]).0@ != name)
            ==> startup::setting(views, name, default) == default,
        0 <= k < vars.len() && vars[k].0@ == name && (forall|i: int|
            0 <= i < k ==> (#[trigger] vars[i]).0@ != name) ==> startup::setting(
            views,
            name,
            default,
        ) == vars[k].1@,
    decreases vars.len(),
{
    if vars.len() > 0 {
        let v = vars.drop_first();
        let w = views.drop_first();
        assert(views[0] == (vars[0].0@, vars[0].1@));
        assert forall|i: int| 0 <= i < v.len() implies w[i] == ((#[trigger] v[i]).0@, v[i].1@) by {
            assert(v[i] == vars[i + 1]);
        }
        lemma_setting(v, w, name, default, k - 1);
        if forall|i: int| 0 <= i < vars.len() ==> (#[trigger] vars[i]).0@ != name {
            assert forall|i: int| 0 <= i < v.len() implies (#[trigger] v[i]).0@ != name by {
                assert(v[i] == vars[i + 1]);
            }
        }
        if 0 <= k < vars.len() && vars[k].0@ == name && (forall|i: int|
            0 <= i < k ==> (#[trigger] vars[i]).0@ != name) {
            if k > 0 {
                assert(vars[0].0@ != name);
                assert(v[k - 1] == vars[k]);
                assert forall|i: int| 0 <= i < k - 1 implies (#[trigger] v[i]).0@ != name by {
                    assert(v[i] == vars[i + 1]);
                }
            }
        }
    }
}

/// What the environment says of a variable.
pub open spec fn told(vars: Vars, name: Seq<char>, default: Seq<char>) -> Seq<char> {
    startup::setting(startup::vars_of(vars@), name, default)
}

/// The number that a variable is, up to a limit.
pub open spec fn number_told(vars: Vars, name: Seq<char>, default: Seq<char>, limit: int) -> Option<
    u64,
> {
    match digits::parsed(told(vars, name, default), 10) {
        Some(n) => if n <= limit {
            Some(n)
        } else {
            None
        },
        None => None,
    }
}

/// The entries of a list: what stands between its commas, without white space around
/// it, where anything is left.
pub open spec fn entries_of(parts: Seq<Seq<char>>) -> Seq<Seq<char>>
    decreases parts.len(),
{
    if parts.len() == 0 {
        Seq::empty()
    } else if text::trimmed(parts.last()).len() > 0 {
        entries_of(parts.drop_last()).push(text::trimmed(parts.last()))
    } else {
        entries_of(parts.drop_last())
    }
}

proof fn lemma_entries(s: Seq<char>)
    ensures
        clients::entries(s) == entries_of(text::split_at_each(s, ',')),
{
    lemma_entries_from(
        text::split_at_each(s, ','),
        |e: Seq<char>| text::trimmed(e),
        |e: Seq<char>| e.len() > 0,
    );
}

proof fn lemma_entries_from(
    parts: Seq<Seq<char>>,
    g: spec_fn(Seq<char>) -> Seq<char>,
    f: spec_fn(Seq<char>) -> bool,
)
    requires
        forall|e: Seq<char>| #[trigger] g(e) == text::trimmed(e),
        forall|e: Seq<char>| #[trigger] f(e) == (e.len() > 0),
    ensures
        parts.map_values(g).filter(f) == entries_of(parts),
    decreases parts.len(),
{
    reveal(Seq::filter);
    if parts.len() > 0 {
        lemma_entries_from(parts.drop_last(), g, f);
        assert(parts.map_values(g).drop_last() =~= parts.drop_last().map_values(g));
        assert(parts.map_values(g).last() == text::trimmed(parts.last()));
        assert(f(text::trimmed(parts.last())) == (text::trimmed(parts.last()).len() > 0));
    }
    assert(parts.map_values(g).filter(f) =~= entries_of(parts));
}

/// A list holds what stands between its commas.
pub proof fn law_lists(s: &str, r: Vec<String>)
    requires
        call_ensures(clients::parse_list, (s,), r),
    ensures
        text::views(r@) == entries_of(text::split_at_each(s@, ',')),
{
    lemma_entries(s@);
}

/// An entry is a name and a key with a colon between them, or a key alone, of a client
/// that is called by its place.
pub open spec fn client_of(e: Seq<char>, i: int, client: (Seq<char>, Seq<char>)) -> bool {
    &&& !e.contains(':') ==> client == (e, "client"@ + digits::numeral(i as nat, 10))
    &&& e.contains(':') ==> exists|a: Seq<char>, b: Seq<char>|
        e == #[trigger] (a + seq![':'] + b) && !a.contains(':') && client == (
            text::trimmed(b),
            text::trimmed(a),
        )
}

/// The clients of a list, in the order of its entries.
pub open spec fn clients_of(s: Seq<char>, list: Seq<(Seq<char>, Seq<char>)>) -> bool {
    let entries = entries_of(text::split_at_each(s, ','));
    &&& list.len() == entries.len()
    &&& forall|i: int| 0 <= i < list.len() ==> client_of(entries[i], i, #[trigger] list[i])
}

proof fn lemma_clients_of(s: Seq<char>)
    ensures
        clients_of(s, clients::clients_in(s)),
        clients::entries(s) == entries_of(text::split_at_each(s, ',')),
{
    lemma_entries(s);
    let list = clients::clients_in(s);
    let entries = entries_of(text::split_at_each(s, ','));
    assert forall|i: int| 0 <= i < list.len() implies client_of(
        entries[i],
        i,
        #[trigger] list[i],
    ) by {
        let e = entries[i];
        text::lemma_find(e, ':');
        if e.contains(':') {
            let p = text::find(e, ':');
            let a = e.take(p);
            let b = e.skip(p + 1);
            assert(e =~= a + seq![':'] + b);
            assert(!a.contains(':'));
        }
    }
}

/// Clients are known by the keys of a list, as they stand there.
pub proof fn law_client_lists(s: &str, r: Option<Clients>)
    requires
        call_ensures(Clients::parse, (s,), r),
    ensures
        r is None <==> entries_of(text::split_at_each(s@, ',')).len() == 0,
        r matches Some(c) ==> clients_of(s@, c@.list) && !c@.digested,
{
    lemma_clients_of(s@);
}

/// Clients are known by digests of their keys.
pub proof fn law_minted_clients(known: Vec<(String, String)>, r: Clients)
    requires
        call_ensures(Clients::minted, (known,), r),
    ensures
        r@.digested,
        r@.list.len() == known@.len(),
        forall|i: int|
            0 <= i < known@.len() ==> #[trigger] r@.list[i] == (known@[i].0@, known@[i].1@),
{
}

/// Every variable has its name and its default; numbers have the limits of their use.
pub open spec fn rate_told(vars: Vars) -> Option<u64> {
    number_told(vars, "RPM_PER_KEY"@, "40"@, usize::MAX as int)
}

pub open spec fn wait_told(vars: Vars) -> Option<u64> {
    number_told(vars, "MAX_WAIT_SECS"@, "900"@, u64::MAX as int)
}

pub open spec fn heartbeat_told(vars: Vars) -> Option<u64> {
    number_told(vars, "HEARTBEAT_SECS"@, "10"@, u64::MAX as int)
}

pub open spec fn models_ttl_told(vars: Vars) -> Option<u64> {
    number_told(vars, "MODELS_TTL_SECS"@, "600"@, u64::MAX as int)
}

pub open spec fn idle_told(vars: Vars) -> Option<u64> {
    number_told(vars, "STREAM_IDLE_SECS"@, "300"@, u64::MAX as int)
}

pub open spec fn timeout_told(vars: Vars) -> Option<u64> {
    number_told(vars, "REQUEST_TIMEOUT_SECS"@, "300"@, u64::MAX as int)
}

pub open spec fn port_told(vars: Vars) -> Option<u64> {
    number_told(vars, "PORT"@, "8000"@, 65_535)
}

pub open spec fn inflight_told(vars: Vars) -> Option<u64> {
    number_told(vars, "MAX_INFLIGHT"@, "512"@, usize::MAX as int)
}

pub open spec fn days_told(vars: Vars) -> Option<u64> {
    number_told(vars, "HISTORY_DAYS"@, "30"@, u64::MAX as int)
}

pub open spec fn sample_told(vars: Vars) -> Option<u64> {
    number_told(vars, "HISTORY_SAMPLE_SECS"@, digits::numeral(300, 10), u64::MAX as int)
}

pub open spec fn strict_told(vars: Vars) -> Seq<char> {
    told(vars, "STRICT_PASSTHROUGH"@, "false"@)
}

/// The entries of the list that a variable is.
pub open spec fn list_told(vars: Vars, name: Seq<char>) -> Seq<Seq<char>> {
    entries_of(text::split_at_each(told(vars, name, ""@), ','))
}

/// The proxy starts exactly with a key, with clients and a password unless it was told
/// to go without, with a rate, and with settings that can be read; then it does what
/// the environment says.
pub proof fn law_starting(vars: &Vars, r: Result<Startup, Refusal>)
    requires
        call_ensures(startup::configure, (vars,), r),
    ensures
        ({
            let insecure = told(*vars, "INSECURE_NO_AUTH"@, "false"@) == "true"@;
            let some_client = list_told(*vars, "PROXY_API_KEYS"@).len() > 0;
            let password = told(*vars, "ADMIN_PASSWORD"@, ""@);
            let readable = wait_told(*vars) is Some && heartbeat_told(*vars) is Some
                && models_ttl_told(*vars) is Some && idle_told(*vars) is Some && timeout_told(
                *vars,
            ) is Some && (strict_told(*vars) == "true"@ || strict_told(*vars) == "false"@)
                && port_told(*vars) is Some && inflight_told(*vars) is Some && days_told(
                *vars,
            ) is Some && sample_told(*vars) is Some;
            &&& r is Ok <==> list_told(*vars, "NIM_API_KEYS"@).len() > 0 && (insecure || (
            some_client && password.len() > 0)) && (rate_told(*vars) matches Some(n) && n > 0)
                && readable
            &&& r == Err::<Startup, Refusal>(Refusal::NoKeys) <==> list_told(
                *vars,
                "NIM_API_KEYS"@,
            ).len() == 0
            &&& r matches Err(Refusal::NoAuth { clients, password: p }) ==> !insecure && clients
                == some_client && p == (password.len() > 0) && !(clients && p)
            &&& r matches Err(Refusal::ZeroRate) ==> rate_told(*vars) == Some(0u64)
        }),
        r matches Ok(s) ==> started(*vars, s),
{
    let v = startup::vars_of(vars@);
    reveal_strlit("");
    lemma_clients_of(startup::setting(v, "NIM_API_KEYS"@, ""@));
    lemma_clients_of(startup::setting(v, "PROXY_API_KEYS"@, ""@));
    if let Ok(s) = r {
        lemma_started(*vars, s);
    }
}

/// What the proxy starts with.
pub open spec fn started(vars: Vars, s: Startup) -> bool {
    let c = s.config;
    let address = told(vars, "NIM_BASE_URL"@, "https://integrate.api.nvidia.com"@);
    let password = told(vars, "ADMIN_PASSWORD"@, ""@);
    let dir = told(vars, "DATA_DIR"@, "data"@);
    &&& text::views(s.keys@) == list_told(vars, "NIM_API_KEYS"@)
    &&& s.admin_password is Some <==> password.len() > 0
    &&& s.admin_password matches Some(p) ==> p@ == password
    &&& s.insecure == (told(vars, "INSECURE_NO_AUTH"@, "false"@) == "true"@)
    &&& s.trust_proxy == (told(vars, "TRUST_PROXY"@, "false"@) == "true"@)
    &&& rate_told(vars) == Some(s.rpm as u64)
    &&& port_told(vars) == Some(s.port as u64)
    &&& days_told(vars) == Some(s.history_days)
    &&& sample_told(vars) matches Some(n)
    &&& n > 0 ==> s.sample_secs == n
    &&& n == 0 ==> s.sample_secs == 1
    &&& s.data_dir is Some <==> dir.len() > 0
    &&& s.data_dir matches Some(d) ==> d@ == dir
    &&& s.host@ == told(vars, "HOST"@, "0.0.0.0"@)
    &&& c.base_url@.len() <= address.len()
    &&& c.base_url@ == address.take(c.base_url@.len() as int)
    &&& c.base_url@.len() > 0 ==> c.base_url@.last() != '/'
    &&& forall|i: int| c.base_url@.len() <= i < address.len() ==> #[trigger] address[i] == '/'
    &&& wait_told(vars) matches Some(n) && c.max_wait@ == n * 1_000_000_000
    &&& heartbeat_told(vars) matches Some(n) && c.heartbeat@ == n * 1_000_000_000
    &&& models_ttl_told(vars) matches Some(n) && c.models_ttl@ == n * 1_000_000_000
    &&& idle_told(vars) matches Some(n) && c.stream_idle@ == n * 1_000_000_000
    &&& timeout_told(vars) matches Some(n) && c.request_timeout@ == n * 1_000_000_000
    &&& c.strict_passthrough == (strict_told(vars) == "true"@)
    &&& inflight_told(vars) == Some(c.max_inflight as u64)
    &&& c.clients is Some <==> list_told(vars, "PROXY_API_KEYS"@).len() > 0
    &&& c.clients matches Some(known) ==> clients_of(
        told(vars, "PROXY_API_KEYS"@, ""@),
        known@.list,
    ) && !known@.digested
}

proof fn lemma_started(vars: Vars, s: Startup)
    requires
        s.follows(startup::vars_of(vars@)),
        startup::refusal(startup::vars_of(vars@)) is None,
    ensures
        started(vars, s),
{
    let v = startup::vars_of(vars@);
    let address = told(vars, "NIM_BASE_URL"@, "https://integrate.api.nvidia.com"@);
    lemma_clients_of(startup::setting(v, "NIM_API_KEYS"@, ""@));
    lemma_clients_of(startup::setting(v, "PROXY_API_KEYS"@, ""@));
    crate::laws::words::lemma_without_trailing(address, '/');
    assert(crate::time::NANOS_PER_SEC == 1_000_000_000);
    assert(crate::history::SAMPLE_SECS == 300);
    reveal_strlit("true");
    reveal_strlit("false");
    assert("true"@.len() == 4 && "false"@.len() == 5);
    assert(clients::known(s.config.clients) == startup::clients_asked(v));
    assert(auth::optional_text(s.admin_password) == startup::password_given(v));
    assert(auth::optional_text(s.data_dir) == startup::if_any(
        startup::setting(v, "DATA_DIR"@, "data"@),
    ));
}

/// A setting that cannot be read is named by its variable.
pub proof fn law_settings_have_names(s: &Setting, r: &'static str)
    requires
        call_ensures(Setting::name, (s,), r),
    ensures
        r@ == match *s {
            Setting::RpmPerKey => "RPM_PER_KEY"@,
            Setting::MaxWaitSecs => "MAX_WAIT_SECS"@,
            Setting::HeartbeatSecs => "HEARTBEAT_SECS"@,
            Setting::ModelsTtlSecs => "MODELS_TTL_SECS"@,
            Setting::StreamIdleSecs => "STREAM_IDLE_SECS"@,
            Setting::RequestTimeoutSecs => "REQUEST_TIMEOUT_SECS"@,
            Setting::StrictPassthrough => "STRICT_PASSTHROUGH"@,
            Setting::Port => "PORT"@,
            Setting::MaxInflight => "MAX_INFLIGHT"@,
            Setting::HistoryDays => "HISTORY_DAYS"@,
            Setting::HistorySampleSecs => "HISTORY_SAMPLE_SECS"@,
        },
{
}

/// The setting that a refusal names is one that cannot be read.
pub proof fn law_unreadable_settings(vars: &Vars, r: Result<Startup, Refusal>)
    requires
        call_ensures(startup::configure, (vars,), r),
    ensures
        r matches Err(Refusal::Unreadable(s)) ==> match s {
            Setting::RpmPerKey => rate_told(*vars) is None,
            Setting::MaxWaitSecs => wait_told(*vars) is None,
            Setting::HeartbeatSecs => heartbeat_told(*vars) is None,
            Setting::ModelsTtlSecs => models_ttl_told(*vars) is None,
            Setting::StreamIdleSecs => idle_told(*vars) is None,
            Setting::RequestTimeoutSecs => timeout_told(*vars) is None,
            Setting::StrictPassthrough => strict_told(*vars) != "true"@ && strict_told(*vars)
                != "false"@,
            Setting::Port => port_told(*vars) is None,
            Setting::MaxInflight => inflight_told(*vars) is None,
            Setting::HistoryDays => days_told(*vars) is None,
            Setting::HistorySampleSecs => sample_told(*vars) is None,
        },
{
    assert(crate::history::SAMPLE_SECS == 300);
}

/// What is wrong with a configuration is said in words.
pub proof fn law_faults_are_told(i: &Invalid, r: &'static str, e: &CommitError, m: String, a: errors::ErrorReply)
    requires
        call_ensures(Invalid::message, (i,), r),
        call_ensures(CommitError::message, (e,), m),
        call_ensures(CommitError::answer, (e,), a),
    ensures
        r@ == match *i {
            Invalid::BaseUrl => "base_url must start with http:// or https://"@,
            Invalid::Rate => "a key's rpm must be between 1 and 10000"@,
            Invalid::ClientName => "client names may only hold letters, digits and . _ / : -"@,
            Invalid::DuplicateClient => "client names must be unique"@,
            Invalid::Heartbeat => "heartbeat_secs must be less than max_wait_secs"@,
            Invalid::NoSuperuserKey => "the superuser must have at least one enabled NIM key"@,
        },
        *e matches CommitError::Invalid(j) ==> j == *i ==> m@ == r@,
        *e matches CommitError::Unwritten(why) ==> m@ == "cannot write the config store: "@ + why@,
        a.status == 400,
        a.code@ == "invalid_config"@,
        a.message@ == m@,
{
}

/// A client is the last of a list whose key it is, under a key as it stands or under its
/// digest.
pub proof fn law_identifying(c: &Clients, secret: &str, r: Option<String>)
    requires
        call_ensures(Clients::identify, (c, secret), r),
    ensures
        ({
            let shown = if c@.digested {
                digits::hex_of(crate::crypto::sha256_digest(vstd::utf8::encode_utf8(secret@)))
            } else {
                secret@
            };
            &&& r is None <==> forall|i: int|
                0 <= i < c@.list.len() ==> (#[trigger] c@.list[i]).0 != shown
            &&& r matches Some(name) ==> exists|i: int|
                #![trigger c@.list[i]]
                {
                    &&& 0 <= i < c@.list.len()
                    &&& c@.list[i] == (shown, name@)
                    &&& forall|j: int|
                        i < j < c@.list.len() ==> (#[trigger] c@.list[j]).0 != shown
                }
        }),
{
    assert(auth::optional_text(r) == clients::name_for(c@.list, c@.listed(secret@)));
    crate::laws::requests::lemma_last_named(c@.list, c@.listed(secret@));
}

/// A list holds a text exactly if one of its texts is that text.
pub proof fn law_listed(list: &Vec<String>, s: &str, r: bool)
    requires
        call_ensures(labels::listed, (list, s), r),
    ensures
        r <==> exists|i: int| 0 <= i < list@.len() && (#[trigger] list@[i])@ == s@,
{
    lemma_listed(list@, s@);
}

} // verus!

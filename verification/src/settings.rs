//! First-time setup and settings: the config store's only writers. Every write
//! takes the same steps: build a candidate, validate it, persist it, and only
//! then put it to use. A failed disk write applies nothing.

use vstd::prelude::*;

use crate::auth::{Admin, AdminView};
use crate::config;
use crate::config::{
    ClientAuth, ClientKey, ClientView, ConfigView, Invalid, KeyView, NimKey, Retention, Role,
    StoredConfig, Upstream, User, UserView,
};
use crate::dispatch::{DispatchView, Dispatcher};
use crate::errors;
use crate::errors::ErrorReply;
use crate::history::{History, HistoryView};
use crate::json;
use crate::json::Tree;
use crate::pool::LaneView;
use crate::sessions;
use crate::startup::Config;
use crate::text;

verus! {

/// The rate of a key that comes without one.
pub const DEFAULT_RPM: usize = 40;

/// The shortest password, in characters.
pub const MIN_PASSWORD_LEN: usize = 10;

pub struct SetupReq {
    pub username: String,
    pub password: String,
    pub base_url: Option<String>,
    pub nim_keys: Vec<SetupKey>,
}

pub struct SetupKey {
    pub key: String,
    pub rpm: Option<usize>,
}

pub struct ValidateKeyReq {
    pub key: String,
    pub base_url: Option<String>,
}

/// Why a setup is refused before anything is built.
#[derive(Clone, Copy, PartialEq, Eq, Structural, Debug)]
pub enum SetupRefusal {
    /// There is nothing to set up.
    NotFound,
    WeakPassword,
    /// Someone else has just done it.
    AlreadyConfigured,
}

/// Why a setup is refused before its password is hashed.
pub open spec fn early_refusal(required: bool, password: Seq<char>) -> Option<SetupRefusal> {
    if !required {
        Some(SetupRefusal::NotFound)
    } else if password.len() < MIN_PASSWORD_LEN {
        Some(SetupRefusal::WeakPassword)
    } else {
        None
    }
}

/// Look at a setup before its password is hashed.
pub fn setup_precheck(required: bool, req: &SetupReq) -> (r: Result<(), SetupRefusal>)
    ensures
        match r {
            Ok(_) => early_refusal(required, req.password@) is None,
            Err(e) => early_refusal(required, req.password@) == Some(e),
        },
{
    if !required {
        return Err(SetupRefusal::NotFound);
    }
    if text::chars(req.password.as_str()).len() < MIN_PASSWORD_LEN {
        return Err(SetupRefusal::WeakPassword);
    }
    Ok(())
}

impl SetupRefusal {
    /// The answer to a setup that is refused; one that is not found has none.
    pub open spec fn reply(self) -> Option<errors::ErrorView> {
        match self {
            SetupRefusal::NotFound => None,
            SetupRefusal::WeakPassword => Some(
                errors::plain_error(
                    400,
                    "weak_password"@,
                    "password must be at least 10 characters"@,
                ),
            ),
            SetupRefusal::AlreadyConfigured => Some(
                errors::plain_error(
                    409,
                    "already_configured"@,
                    "setup was just completed by someone else"@,
                ),
            ),
        }
    }

    pub fn answer(&self) -> (r: Option<ErrorReply>)
        ensures
            match r {
                Some(e) => self.reply() == Some(e@),
                None => self.reply() is None,
            },
    {
        match self {
            SetupRefusal::NotFound => None,
            SetupRefusal::WeakPassword => Some(
                errors::json_error(
                    400,
                    "weak_password",
                    "password must be at least 10 characters",
                ),
            ),
            SetupRefusal::AlreadyConfigured => Some(
                errors::json_error(
                    409,
                    "already_configured",
                    "setup was just completed by someone else",
                ),
            ),
        }
    }
}

/// A key with another owner.
pub open spec fn adopted_key(k: KeyView, owner: Seq<char>) -> KeyView {
    KeyView { owner, ..k }
}

/// A client key with another owner.
pub open spec fn adopted_client(k: ClientView, owner: Seq<char>) -> ClientView {
    ClientView { owner, ..k }
}

/// The key that a setup brings.
pub open spec fn new_key(k: SetupKey, owner: Seq<char>) -> KeyView {
    KeyView {
        key: text::trimmed(k.key@),
        owner,
        enabled: true,
        rpm: match k.rpm {
            Some(n) => n,
            None => DEFAULT_RPM,
        },
    }
}

/// An address as it is kept.
pub open spec fn plain_address(s: Seq<char>) -> Seq<char> {
    text::without_trailing(text::trimmed(s), '/')
}

/// What a setup makes of the store: its one user is the superuser, who owns
/// every key that was there already, and those that the setup brings.
pub open spec fn after_setup(c: ConfigView, req: SetupReq, hash: Seq<char>) -> ConfigView {
    let owner = req.username@;
    ConfigView {
        users: seq![UserView { username: owner, password_hash: hash, role: Role::Superuser }],
        base_url: match req.base_url {
            Some(b) => plain_address(b@),
            None => c.base_url,
        },
        nim_keys: c.nim_keys.map_values(|k: KeyView| adopted_key(k, owner))
            + req.nim_keys@.map_values(|k: SetupKey| new_key(k, owner)),
        mode: c.mode,
        client_keys: c.client_keys.map_values(|k: ClientView| adopted_client(k, owner)),
        limits: c.limits,
        days: c.days,
    }
}

fn keys_after_setup(c: &StoredConfig, req: &SetupReq) -> (r: Vec<NimKey>)
    ensures
        r@.map_values(|k: NimKey| k@) == c@.nim_keys.map_values(
            |k: KeyView| adopted_key(k, req.username@),
        ) + req.nim_keys@.map_values(|k: SetupKey| new_key(k, req.username@)),
{
    let ghost owner = req.username@;
    let ghost f = |k: NimKey| k@;
    let ghost old_keys = c@.nim_keys.map_values(|k: KeyView| adopted_key(k, owner));
    let ghost new_keys = req.nim_keys@.map_values(|k: SetupKey| new_key(k, owner));
    let mut out: Vec<NimKey> = Vec::new();
    let mut i: usize = 0;
    assert(out@.map_values(f) =~= old_keys.take(0));
    while i < c.upstream.nim_keys.len()
        invariant
            f == (|k: NimKey| k@),
            owner == req.username@,
            old_keys == c@.nim_keys.map_values(|k: KeyView| adopted_key(k, owner)),
            i <= c.upstream.nim_keys@.len(),
            out@.map_values(f) == old_keys.take(i as int),
        decreases c.upstream.nim_keys.len() - i,
    {
        let k = &c.upstream.nim_keys[i];
        let ghost before = out@;
        let adopted = NimKey {
            key: k.key.clone(),
            owner: req.username.clone(),
            enabled: k.enabled,
            rpm: k.rpm,
        };
        proof {
            assert(c@.nim_keys[i as int] == k@);
            assert(old_keys[i as int] == adopted@);
            assert(old_keys.take(i as int + 1) =~= old_keys.take(i as int).push(adopted@));
        }
        out.push(adopted);
        assert(out@.map_values(f) =~= before.map_values(f).push(adopted@));
        i += 1;
    }
    assert(old_keys.take(i as int) =~= old_keys);
    let mut j: usize = 0;
    assert(out@.map_values(f) =~= old_keys + new_keys.take(0));
    while j < req.nim_keys.len()
        invariant
            f == (|k: NimKey| k@),
            owner == req.username@,
            new_keys == req.nim_keys@.map_values(|k: SetupKey| new_key(k, owner)),
            j <= req.nim_keys@.len(),
            out@.map_values(f) == old_keys + new_keys.take(j as int),
        decreases req.nim_keys.len() - j,
    {
        let k = &req.nim_keys[j];
        let ghost before = out@;
        let added = NimKey {
            key: text::trim(k.key.as_str()),
            owner: req.username.clone(),
            enabled: true,
            rpm: match k.rpm {
                Some(n) => n,
                None => DEFAULT_RPM,
            },
        };
        proof {
            assert(new_keys[j as int] == added@);
            assert(new_keys.take(j as int + 1) =~= new_keys.take(j as int).push(added@));
        }
        out.push(added);
        proof {
            assert(out@.map_values(f) =~= before.map_values(f).push(added@));
            assert(out@.map_values(f) =~= old_keys + new_keys.take(j as int + 1));
        }
        j += 1;
    }
    assert(new_keys.take(j as int) =~= new_keys);
    out
}

fn clients_after_setup(c: &StoredConfig, owner: &String) -> (r: Vec<ClientKey>)
    ensures
        r@.map_values(|k: ClientKey| k@) == c@.client_keys.map_values(
            |k: ClientView| adopted_client(k, owner@),
        ),
{
    let ghost f = |k: ClientKey| k@;
    let ghost all = c@.client_keys.map_values(|k: ClientView| adopted_client(k, owner@));
    let mut out: Vec<ClientKey> = Vec::new();
    let mut i: usize = 0;
    assert(out@.map_values(f) =~= all.take(0));
    while i < c.client_auth.keys.len()
        invariant
            f == (|k: ClientKey| k@),
            all == c@.client_keys.map_values(|k: ClientView| adopted_client(k, owner@)),
            i <= c.client_auth.keys@.len(),
            out@.map_values(f) == all.take(i as int),
        decreases c.client_auth.keys.len() - i,
    {
        let k = &c.client_auth.keys[i];
        let ghost before = out@;
        let adopted = ClientKey {
            name: k.name.clone(),
            secret_sha256: k.secret_sha256.clone(),
            owner: owner.clone(),
        };
        proof {
            assert(c@.client_keys[i as int] == k@);
            assert(all[i as int] == adopted@);
            assert(all.take(i as int + 1) =~= all.take(i as int).push(adopted@));
        }
        out.push(adopted);
        assert(out@.map_values(f) =~= before.map_values(f).push(adopted@));
        i += 1;
    }
    assert(all.take(i as int) =~= all);
    out
}

/// Why a setup is refused, if it is.
pub open spec fn setup_refusal(required: bool, c: ConfigView, req: SetupReq) -> Option<
    SetupRefusal,
> {
    match early_refusal(required, req.password@) {
        Some(e) => Some(e),
        None => if c.has_superuser() {
            Some(SetupRefusal::AlreadyConfigured)
        } else {
            None
        },
    }
}

/// One atomic claim: build the store that a setup leads to. A superuser who is
/// there already means that two claimers raced and the other won.
pub fn setup_submit(required: bool, c: &StoredConfig, req: &SetupReq, hash: &str) -> (r: Result<
    StoredConfig,
    SetupRefusal,
>)
    ensures
        match r {
            Ok(cand) => {
                &&& setup_refusal(required, c@, *req) is None
                &&& cand@ == after_setup(c@, *req, hash@)
            },
            Err(e) => setup_refusal(required, c@, *req) == Some(e),
        },
{
    setup_precheck(required, req)?;
    if c.superuser().is_some() {
        return Err(SetupRefusal::AlreadyConfigured);
    }
    let first = User {
        username: req.username.clone(),
        password_hash: hash.to_owned(),
        role: Role::Superuser,
    };
    let ghost first_view = first@;
    let mut users: Vec<User> = Vec::new();
    users.push(first);
    let base_url = match &req.base_url {
        Some(b) => {
            let t = text::trim(b.as_str());
            text::trim_end_matches(t.as_str(), '/')
        },
        None => c.upstream.base_url.clone(),
    };
    let cand = StoredConfig {
        users,
        upstream: Upstream { base_url, nim_keys: keys_after_setup(c, req) },
        client_auth: ClientAuth {
            mode: c.client_auth.mode,
            keys: clients_after_setup(c, &req.username),
        },
        limits: c.limits,
        history: Retention { days: c.history.days },
    };
    assert(cand@.users =~= seq![first_view]);
    Ok(cand)
}

/// Why a candidate is not put to use.
pub enum CommitError {
    Invalid(Invalid),
    /// It could not be written, for this reason.
    Unwritten(String),
}

impl CommitError {
    pub open spec fn text(self) -> Seq<char> {
        match self {
            CommitError::Invalid(i) => i.text(),
            CommitError::Unwritten(e) => "cannot write the config store: "@ + e@,
        }
    }

    pub fn message(&self) -> (r: String)
        ensures
            r@ == self.text(),
    {
        match self {
            CommitError::Invalid(i) => i.message().to_owned(),
            CommitError::Unwritten(e) => {
                let mut out = "cannot write the config store: ".to_owned();
                out.append(e.as_str());
                out
            },
        }
    }

    /// The answer to a setup whose store cannot be put to use.
    pub fn answer(&self) -> (r: ErrorReply)
        ensures
            r@ == unusable(self.text()),
    {
        let message = self.message();
        errors::json_error(400, "invalid_config", message.as_str())
    }
}

/// A store that has been validated: the only kind that is ever written, and the
/// only kind that is put to use.
pub struct Checked {
    config: StoredConfig,
}

impl View for Checked {
    type V = StoredConfig;

    closed spec fn view(&self) -> StoredConfig {
        self.config
    }
}

impl Checked {
    #[verifier::type_invariant]
    spec fn valid(self) -> bool {
        self.config@.fault() is None
    }

    /// The store to be written.
    pub fn config(&self) -> (r: &StoredConfig)
        ensures
            *r == self@,
            r@.fault() is None,
    {
        proof {
            use_type_invariant(self);
        }
        &self.config
    }
}

/// The first step of a commit: validate a candidate. Nothing is written or put to
/// use that does not pass.
pub fn check(candidate: StoredConfig) -> (r: Result<Checked, CommitError>)
    ensures
        match r {
            Ok(c) => candidate@.fault() is None && c@ == candidate,
            Err(e) => candidate@.fault() matches Some(i) && e == CommitError::Invalid(i),
        },
{
    match config::validate(&candidate) {
        Ok(_) => Ok(Checked { config: candidate }),
        Err(i) => Err(CommitError::Invalid(i)),
    }
}

/// The lanes that a store leads to: those of its enabled keys, each with the rate
/// state that its key had before.
pub open spec fn lanes_after(before: Seq<LaneView>, c: ConfigView) -> Seq<LaneView> {
    Seq::new(
        c.lanes().len(),
        |i: int| crate::pool::carried(before, c.lanes()[i].0, c.lanes()[i].1 as nat),
    )
}

/// A store is in use: requests are handled as it says, the pool is rebuilt from
/// its keys, and its retention holds. The queue goes on as it was.
pub open spec fn in_use<R>(
    c: ConfigView,
    cfg: Config,
    before: DispatchView<R>,
    after: DispatchView<R>,
    history_before: HistoryView,
    history_after: HistoryView,
) -> bool {
    &&& c.runs(cfg)
    &&& before.unmoved(after)
    &&& after.pool.latest == before.pool.latest
    &&& after.pool.lanes == lanes_after(before.pool.lanes, c)
    &&& history_after == (HistoryView { days: c.days, ..history_before })
}

/// Commit a validated store once it has been written to disk, or could not be
/// (`written` says why). Only then it is put to use: the runtime config is
/// swapped, the pool is rebuilt with the rate state of the keys that stay,
/// retention is retuned, and the candidate becomes the store.
pub fn commit<R>(
    store: &mut StoredConfig,
    cfg: &mut Config,
    dispatch: &mut Dispatcher<R>,
    history: &mut History,
    candidate: Checked,
    written: Result<(), String>,
) -> (r: Result<(), CommitError>)
    requires
        old(dispatch)@.wf(),
    ensures
        final(dispatch)@.wf(),
        match r {
            Ok(_) => {
                &&& written is Ok
                &&& *final(store) == candidate@
                &&& candidate@@.fault() is None
                &&& in_use(
                    candidate@@,
                    *final(cfg),
                    old(dispatch)@,
                    final(dispatch)@,
                    old(history)@,
                    final(history)@,
                )
            },
            Err(e) => {
                &&& written matches Err(why)
                &&& e == CommitError::Unwritten(why)
                &&& *final(store) == *old(store)
                &&& *final(cfg) == *old(cfg)
                &&& final(dispatch)@ == old(dispatch)@
                &&& *final(history) == *old(history)
            },
        },
{
    proof {
        use_type_invariant(&candidate);
    }
    if let Err(why) = written {
        return Err(CommitError::Unwritten(why));
    }
    let candidate = candidate.config;
    let keys = candidate.pool_keys();
    proof {
        config::law_valid_configs_keep_the_pool_alive(candidate@);
        let h = |p: (String, usize)| (p.0@, p.1);
        assert forall|i: int| 0 <= i < keys@.len() implies (#[trigger] keys@[i]).1 >= 1 by {
            assert(keys@.map_values(h)[i] == candidate@.lanes()[i]);
        }
    }
    let ghost before = dispatch@.pool.lanes;
    dispatch.rebuild(&keys);
    proof {
        let h = |p: (String, usize)| (p.0@, p.1);
        assert(keys@.map_values(h).len() == keys@.len());
        assert forall|i: int| 0 <= i < keys@.len() implies (keys@[i].0@, keys@[i].1)
            == #[trigger] candidate@.lanes()[i] by {
            assert(keys@.map_values(h)[i] == candidate@.lanes()[i]);
        }
        assert(dispatch@.pool.lanes =~= lanes_after(before, candidate@));
    }
    *cfg = candidate.runtime();
    history.set_days(candidate.history.days);
    *store = candidate;
    Ok(())
}

/// The answer to a setup.
pub struct SetupAnswer {
    pub status: u16,
    /// The session that is handed out.
    pub cookie: Option<String>,
    /// JSON, if there is anything to say.
    pub body: Option<String>,
}

/// What an answer to a setup says.
pub struct AnswerView {
    pub status: u16,
    pub cookie: Option<Seq<char>>,
    pub body: Option<Seq<char>>,
}

impl View for SetupAnswer {
    type V = AnswerView;

    open spec fn view(&self) -> AnswerView {
        AnswerView {
            status: self.status,
            cookie: crate::auth::optional_text(self.cookie),
            body: crate::auth::optional_text(self.body),
        }
    }
}

/// The answer to a setup that an error ends.
pub open spec fn declined(e: errors::ErrorView) -> AnswerView {
    AnswerView {
        status: e.status,
        cookie: None,
        body: Some(json::rendering(errors::error_tree(e.code, e.message))),
    }
}

/// The answer to a setup that is refused.
pub open spec fn turned_away(why: SetupRefusal) -> AnswerView {
    match why.reply() {
        Some(e) => declined(e),
        None => AnswerView { status: 404, cookie: None, body: None },
    }
}

/// The JSON that says that all is well.
pub open spec fn ok_tree() -> Tree {
    Tree::Object(Map::empty().insert("ok"@, Tree::Bool(true)))
}

/// The answer to a setup that is done.
pub open spec fn welcomed(cookie: Seq<char>) -> AnswerView {
    AnswerView { status: 200, cookie: Some(cookie), body: Some(json::rendering(ok_tree())) }
}

/// What a store that cannot be put to use is answered with.
pub open spec fn unusable(why: Seq<char>) -> errors::ErrorView {
    errors::plain_error(400, "invalid_config"@, why)
}

impl SetupAnswer {
    fn decline(e: &ErrorReply) -> (r: SetupAnswer)
        ensures
            r@ == declined(e@),
    {
        SetupAnswer {
            status: e.status,
            cookie: None,
            body: Some(errors::error_body(e.code.as_str(), e.message.as_str())),
        }
    }

    /// Turn a setup away.
    pub fn refuse(why: &SetupRefusal) -> (r: SetupAnswer)
        ensures
            r@ == turned_away(*why),
    {
        match why.answer() {
            Some(e) => SetupAnswer::decline(&e),
            None => SetupAnswer { status: 404, cookie: None, body: None },
        }
    }
}

/// The first half of a setup: the store that is to be written, or the answer that
/// ends it. Whatever the answer, nothing has changed.
pub fn setup_claim(required: bool, c: &StoredConfig, req: &SetupReq, hash: &str) -> (r: Result<
    Checked,
    SetupAnswer,
>)
    ensures
        match setup_refusal(required, c@, *req) {
            Some(why) => r matches Err(a) && a@ == turned_away(why),
            None => match after_setup(c@, *req, hash@).fault() {
                Some(i) => r matches Err(a) && a@ == declined(unusable(i.text())),
                None => r matches Ok(k) && k@@ == after_setup(c@, *req, hash@),
            },
        },
{
    let candidate = match setup_submit(required, c, req, hash) {
        Ok(candidate) => candidate,
        Err(why) => {
            return Err(SetupAnswer::refuse(&why));
        },
    };
    match check(candidate) {
        Ok(k) => Ok(k),
        Err(e) => Err(SetupAnswer::decline(&e.answer())),
    }
}

/// The second half of a setup, once its store has been written to disk or could
/// not be: it is committed, the setup phase is over, and a session of the superuser
/// starts at `now`. A store that could not be written leaves everything as it was.
pub fn setup_finish<R>(
    required: &mut bool,
    store: &mut StoredConfig,
    cfg: &mut Config,
    dispatch: &mut Dispatcher<R>,
    history: &mut History,
    candidate: Checked,
    written: Result<(), String>,
    admin: &Admin,
    forwarded_proto: Option<&str>,
    now: u64,
) -> (r: SetupAnswer)
    requires
        old(dispatch)@.wf(),
    ensures
        final(dispatch)@.wf(),
        match written {
            Ok(_) => {
                &&& r@ == welcomed(
                    sessions::user_cookie(
                        admin@,
                        crate::auth::came_over_https(forwarded_proto),
                        candidate@@.users[candidate@@.superuser_at()],
                        now,
                    ),
                )
                &&& !*final(required)
                &&& *final(store) == candidate@
                &&& final(store)@.has_superuser()
                &&& in_use(
                    candidate@@,
                    *final(cfg),
                    old(dispatch)@,
                    final(dispatch)@,
                    old(history)@,
                    final(history)@,
                )
            },
            Err(why) => {
                &&& r@ == declined(unusable("cannot write the config store: "@ + why@))
                &&& *final(required) == *old(required)
                &&& *final(store) == *old(store)
                &&& *final(cfg) == *old(cfg)
                &&& final(dispatch)@ == old(dispatch)@
                &&& *final(history) == *old(history)
            },
        },
{
    match commit(store, cfg, dispatch, history, candidate, written) {
        Ok(_) => {
            proof {
                config::law_valid_configs_keep_the_pool_alive(store@);
            }
            *required = false;
            let cookie = match store.superuser() {
                Some(u) => sessions::mint_session_cookie(admin, forwarded_proto, u, now),
                None => String::new(),
            };
            let mut v = json::empty_object();
            json::set(&mut v, "ok", json::from_bool(true));
            SetupAnswer {
                status: 200,
                cookie: Some(cookie),
                body: Some(json::to_text(&v)),
            }
        },
        Err(e) => SetupAnswer::decline(&e.answer()),
    }
}

/// What becomes of a request to try a key out.
pub enum KeyCheck {
    NotFound,
    Throttled(ErrorReply),
    /// Ask this address with this key.
    Probe { base_url: String, key: String },
}

/// Decide on a request to try a key out at `now`. There is no login before
/// setup, so every probe burns the budget of failed logins.
pub fn setup_validate_key(
    required: bool,
    admin: &mut Admin,
    now: u64,
    req: &ValidateKeyReq,
    store: &StoredConfig,
) -> (r: KeyCheck)
    ensures
        if !required {
            r is NotFound && final(admin)@ == old(admin)@
        } else if old(admin)@.throttled(now) {
            &&& r matches KeyCheck::Throttled(e)
            &&& e@ == errors::plain_error(
                429,
                "throttled"@,
                "too many validation attempts, try again shortly"@,
            )
            &&& final(admin)@ == old(admin)@
        } else {
            &&& r matches KeyCheck::Probe { base_url, key }
            &&& base_url@ == plain_address(
                match req.base_url {
                    Some(b) => b@,
                    None => store@.base_url,
                },
            )
            &&& key@ == text::trimmed(req.key@)
            &&& final(admin)@ == old(admin)@.failed(now)
        },
{
    if !required {
        return KeyCheck::NotFound;
    }
    if admin.is_throttled_at(now) {
        return KeyCheck::Throttled(
            errors::json_error(
                429,
                "throttled",
                "too many validation attempts, try again shortly",
            ),
        );
    }
    admin.note_failure_at(now);
    let base = match &req.base_url {
        Some(b) => b.as_str(),
        None => store.upstream.base_url.as_str(),
    };
    let base = text::trim(base);
    KeyCheck::Probe {
        base_url: text::trim_end_matches(base.as_str(), '/'),
        key: text::trim(req.key.as_str()),
    }
}

/// What an upstream said to a key that was tried out.
pub enum Probed {
    /// It could not be reached, for this reason.
    Unreachable(String),
    /// It answered with this status, also in words, and with this body, or the
    /// body broke off, for this reason.
    Answered { status: u16, status_text: String, body: Result<Vec<u8>, String> },
}

/// How many models a catalog lists.
pub open spec fn models_in(t: Tree) -> nat {
    match json::member(t, "data"@) {
        Some(d) => match json::elements(d) {
            Some(models) => models.len(),
            None => 0,
        },
        None => 0,
    }
}

/// What a tried-out key is worth: the models that it opens, or what is wrong.
pub open spec fn worth(p: Probed) -> Result<nat, Seq<char>> {
    match p {
        Probed::Unreachable(e) => Err("cannot reach upstream: "@ + e@),
        Probed::Answered { status, status_text, body } => if !crate::proxy::success(status) {
            Err("upstream rejected the key ("@ + status_text@ + ")"@)
        } else {
            match body {
                Err(e) => Err("upstream sent an unreadable model list: "@ + e@),
                Ok(b) => match json::reading(b@) {
                    Ok(t) => Ok(models_in(t)),
                    Err(e) => Err("upstream sent an unreadable model list: "@ + e),
                },
            }
        },
    }
}

/// Count the models that a catalog lists.
pub fn count_models(v: &serde_json::Value) -> (r: usize)
    ensures
        r == models_in(json::contents(*v)),
{
    match json::get(v, "data") {
        Some(d) => match json::as_array(d) {
            Some(models) => models.len(),
            None => 0,
        },
        None => 0,
    }
}

fn told(before: &str, what: &str, after: &str) -> (r: String)
    ensures
        r@ == before@ + what@ + after@,
{
    let mut out = before.to_owned();
    out.append(what);
    out.append(after);
    out
}

/// Judge a key by what the upstream said to it.
pub fn probe_key(p: &Probed) -> (r: Result<usize, String>)
    ensures
        match r {
            Ok(n) => worth(*p) == Ok::<nat, Seq<char>>(n as nat),
            Err(e) => worth(*p) == Err::<nat, Seq<char>>(e@),
        },
{
    let unreadable = "upstream sent an unreadable model list: ";
    proof {
        reveal_strlit("");
        assert forall|s: Seq<char>| #[trigger] (s + ""@) == s by {
            assert(s + ""@ =~= s);
        }
    }
    match p {
        Probed::Unreachable(e) => Err(told("cannot reach upstream: ", e.as_str(), "")),
        Probed::Answered { status, status_text, body } => {
            if !(200 <= *status && *status < 300) {
                return Err(told("upstream rejected the key (", status_text.as_str(), ")"));
            }
            let body = match body {
                Ok(b) => b,
                Err(e) => {
                    return Err(told(unreadable, e.as_str(), ""));
                },
            };
            match json::read(body.as_slice()) {
                Ok(v) => Ok(count_models(&v)),
                Err(e) => Err(told(unreadable, e.as_str(), "")),
            }
        },
    }
}

/// The JSON that tells what a key is worth.
pub open spec fn worth_tree(w: Result<usize, Seq<char>>) -> Tree {
    Tree::Object(
        match w {
            Ok(n) => Map::empty().insert("ok"@, Tree::Bool(true)).insert(
                "models"@,
                Tree::UInt(n as u64),
            ),
            Err(e) => Map::empty().insert("ok"@, Tree::Bool(false)).insert("error"@, Tree::Str(e)),
        },
    )
}

/// Tell what a key is worth.
pub fn probe_answer(w: &Result<usize, String>) -> (r: String)
    ensures
        r@ == json::rendering(
            worth_tree(
                match *w {
                    Ok(n) => Ok(n),
                    Err(e) => Err(e@),
                },
            ),
        ),
{
    let mut v = json::empty_object();
    match w {
        Ok(n) => {
            json::set(&mut v, "ok", json::from_bool(true));
            json::set(&mut v, "models", json::from_u64(*n as u64));
        },
        Err(e) => {
            json::set(&mut v, "ok", json::from_bool(false));
            json::set(&mut v, "error", json::from_str(e.as_str()));
        },
    }
    json::to_text(&v)
}

/// Only a setup that is done is answered with a success and a session; each of
/// the others is an error without one.
pub proof fn law_only_a_whole_setup_is_welcomed(why: SetupRefusal, fault: Seq<char>)
    ensures
        turned_away(why).cookie is None,
        turned_away(why).status == match why {
            SetupRefusal::NotFound => 404u16,
            SetupRefusal::WeakPassword => 400u16,
            SetupRefusal::AlreadyConfigured => 409u16,
        },
        declined(unusable(fault)).cookie is None,
        declined(unusable(fault)).status == 400,
{
}

/// A setup leaves nothing half done: the store that it leads to has a superuser,
/// so that no other setup can follow, and everything in it belongs to them.
pub proof fn law_setup_is_one_atomic_claim(c: ConfigView, req: SetupReq, hash: Seq<char>)
    ensures
        ({
            let after = after_setup(c, req, hash);
            &&& after.has_superuser()
            &&& after.superuser_at() == 0
            &&& after.users == seq![
                UserView {
                    username: req.username@,
                    password_hash: hash,
                    role: Role::Superuser,
                },
            ]
            &&& forall|i: int|
                0 <= i < after.nim_keys.len() ==> (#[trigger] after.nim_keys[i]).owner
                    == req.username@
            &&& forall|i: int|
                0 <= i < after.client_keys.len() ==> (#[trigger] after.client_keys[i]).owner
                    == req.username@
            &&& after.nim_keys.len() == c.nim_keys.len() + req.nim_keys@.len()
            &&& forall|required: bool, other: SetupReq|
                (#[trigger] setup_refusal(required, after, other)) is Some
        }),
{
    let after = after_setup(c, req, hash);
    assert(after.is_superuser(0));
}

/// Whoever has done the setup is logged in: the session that it hands out is that
/// of the new superuser, and opens the dashboard until it expires.
pub proof fn law_setup_logs_the_superuser_in(
    admin: AdminView,
    c: ConfigView,
    req: SetupReq,
    hash: Seq<char>,
    now: u64,
    later: u64,
)
    requires
        now <= later <= crate::auth::session_end(now),
    ensures
        ({
            let after = after_setup(c, req, hash);
            let token = sessions::user_token(
                admin.signing_key,
                crate::auth::session_end(now),
                after.users[after.superuser_at()],
            );
            sessions::user_session_opens(
                admin,
                after.users,
                Some(crate::auth::COOKIE@ + "="@ + token),
                later,
            )
        }),
{
    law_setup_is_one_atomic_claim(c, req, hash);
    sessions::law_user_cookie_opens_the_dashboard(
        admin,
        after_setup(c, req, hash).users,
        0,
        crate::auth::session_end(now),
        later,
    );
}

} // verus!

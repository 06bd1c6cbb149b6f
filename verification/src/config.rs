//! The config store: users, upstream keys, client keys, limits and history
//! retention, what has to hold of them before they are put to use, and how
//! requests are handled under them.

use vstd::prelude::*;

use crate::clients;
use crate::clients::{Clients, ClientsView};
use crate::labels;
use crate::startup::Config;
use crate::text;
use crate::time::{Duration, NANOS_PER_SEC};

verus! {

/// The rates that a key can be given.
pub const MIN_RPM: usize = 1;

pub const MAX_RPM: usize = 10_000;

#[derive(Clone, Copy, PartialEq, Eq, Structural, Debug)]
pub enum Role {
    /// An admin that is never deleted.
    Superuser,
    Admin,
    User,
}

pub struct User {
    pub username: String,
    pub password_hash: String,
    pub role: Role,
}

/// An upstream key.
pub struct NimKey {
    pub key: String,
    pub owner: String,
    pub enabled: bool,
    pub rpm: usize,
}

/// A client key, whose secret is kept only as its digest.
pub struct ClientKey {
    pub name: String,
    pub secret_sha256: String,
    pub owner: String,
}

pub struct Upstream {
    pub base_url: String,
    pub nim_keys: Vec<NimKey>,
}

/// Whether clients of the API are asked who they are.
#[derive(Clone, Copy, PartialEq, Eq, Structural, Debug)]
pub enum Mode {
    /// Anyone may use it.
    Open,
    /// Those with a client key may.
    Keyed,
}

pub struct ClientAuth {
    pub mode: Mode,
    pub keys: Vec<ClientKey>,
}

/// What requests are held to.
#[derive(Clone, Copy, PartialEq, Eq, Structural, Debug)]
pub struct Limits {
    pub max_wait_secs: u64,
    pub heartbeat_secs: u64,
    pub models_ttl_secs: u64,
    pub stream_idle_secs: u64,
    pub request_timeout_secs: u64,
    pub max_inflight: usize,
    pub strict_passthrough: bool,
}

pub struct Retention {
    pub days: u64,
}

pub struct StoredConfig {
    pub users: Vec<User>,
    pub upstream: Upstream,
    pub client_auth: ClientAuth,
    pub limits: Limits,
    pub history: Retention,
}

pub struct UserView {
    pub username: Seq<char>,
    pub password_hash: Seq<char>,
    pub role: Role,
}

pub struct KeyView {
    pub key: Seq<char>,
    pub owner: Seq<char>,
    pub enabled: bool,
    pub rpm: usize,
}

pub struct ClientView {
    pub name: Seq<char>,
    pub secret_sha256: Seq<char>,
    pub owner: Seq<char>,
}

pub struct ConfigView {
    pub users: Seq<UserView>,
    pub base_url: Seq<char>,
    pub nim_keys: Seq<KeyView>,
    pub mode: Mode,
    pub client_keys: Seq<ClientView>,
    pub limits: Limits,
    pub days: u64,
}

impl View for User {
    type V = UserView;

    open spec fn view(&self) -> UserView {
        UserView {
            username: self.username@,
            password_hash: self.password_hash@,
            role: self.role,
        }
    }
}

impl View for NimKey {
    type V = KeyView;

    open spec fn view(&self) -> KeyView {
        KeyView { key: self.key@, owner: self.owner@, enabled: self.enabled, rpm: self.rpm }
    }
}

impl View for ClientKey {
    type V = ClientView;

    open spec fn view(&self) -> ClientView {
        ClientView {
            name: self.name@,
            secret_sha256: self.secret_sha256@,
            owner: self.owner@,
        }
    }
}

impl View for StoredConfig {
    type V = ConfigView;

    open spec fn view(&self) -> ConfigView {
        ConfigView {
            users: self.users@.map_values(|u: User| u@),
            base_url: self.upstream.base_url@,
            nim_keys: self.upstream.nim_keys@.map_values(|k: NimKey| k@),
            mode: self.client_auth.mode,
            client_keys: self.client_auth.keys@.map_values(|k: ClientKey| k@),
            limits: self.limits,
            days: self.history.days,
        }
    }
}

/// What is wrong with a config.
#[derive(Clone, Copy, PartialEq, Eq, Structural, Debug)]
pub enum Invalid {
    /// The upstream's address is neither `http` nor `https`.
    BaseUrl,
    /// A key's rate is out of bounds.
    Rate,
    /// A client's name cannot be a metric label.
    ClientName,
    /// Two clients have one name.
    DuplicateClient,
    /// A client that waits would hear nothing before its wait is over.
    Heartbeat,
    /// There is no superuser with an enabled key.
    NoSuperuserKey,
}

impl Invalid {
    pub open spec fn text(self) -> Seq<char> {
        match self {
            Invalid::BaseUrl => "base_url must start with http:// or https://"@,
            Invalid::Rate => "a key's rpm must be between 1 and 10000"@,
            Invalid::ClientName => "client names may only hold letters, digits and . _ / : -"@,
            Invalid::DuplicateClient => "client names must be unique"@,
            Invalid::Heartbeat => "heartbeat_secs must be less than max_wait_secs"@,
            Invalid::NoSuperuserKey => "the superuser must have at least one enabled NIM key"@,
        }
    }

    pub fn message(&self) -> (r: &'static str)
        ensures
            r@ == self.text(),
    {
        match self {
            Invalid::BaseUrl => "base_url must start with http:// or https://",
            Invalid::Rate => "a key's rpm must be between 1 and 10000",
            Invalid::ClientName => "client names may only hold letters, digits and . _ / : -",
            Invalid::DuplicateClient => "client names must be unique",
            Invalid::Heartbeat => "heartbeat_secs must be less than max_wait_secs",
            Invalid::NoSuperuserKey => "the superuser must have at least one enabled NIM key",
        }
    }
}

impl ConfigView {
    /// The user at place `i` is a superuser.
    pub open spec fn is_superuser(self, i: int) -> bool {
        0 <= i < self.users.len() && self.users[i].role == Role::Superuser
    }

    /// There is a superuser.
    pub open spec fn has_superuser(self) -> bool {
        exists|i: int| self.is_superuser(i)
    }

    /// The first superuser's place, or the number of users.
    pub open spec fn superuser_at(self) -> int {
        first_superuser(self.users)
    }

    pub open spec fn url_ok(self) -> bool {
        text::stands_at(self.base_url, "http://"@, 0) || text::stands_at(
            self.base_url,
            "https://"@,
            0,
        )
    }

    pub open spec fn rates_ok(self) -> bool {
        forall|i: int|
            0 <= i < self.nim_keys.len() ==> MIN_RPM <= (#[trigger] self.nim_keys[i]).rpm
                <= MAX_RPM
    }

    pub open spec fn names_ok(self) -> bool {
        forall|i: int|
            0 <= i < self.client_keys.len() ==> label_name((#[trigger] self.client_keys[i]).name)
    }

    pub open spec fn names_unique(self) -> bool {
        forall|i: int, j: int|
            0 <= i < j < self.client_keys.len() ==> (#[trigger] self.client_keys[i]).name != (
            #[trigger] self.client_keys[j]).name
    }

    /// The superuser owns an enabled key.
    pub open spec fn pool_has_a_floor(self) -> bool {
        let s = self.superuser_at();
        s < self.users.len() && exists|i: int|
            0 <= i < self.nim_keys.len() && (#[trigger] self.nim_keys[i]).enabled
                && self.nim_keys[i].owner == self.users[s].username
    }

    /// The first thing that is wrong, if anything is.
    pub open spec fn fault(self) -> Option<Invalid> {
        if !self.url_ok() {
            Some(Invalid::BaseUrl)
        } else if !self.rates_ok() {
            Some(Invalid::Rate)
        } else if !self.names_ok() {
            Some(Invalid::ClientName)
        } else if !self.names_unique() {
            Some(Invalid::DuplicateClient)
        } else if self.limits.heartbeat_secs >= self.limits.max_wait_secs {
            Some(Invalid::Heartbeat)
        } else if !self.pool_has_a_floor() {
            Some(Invalid::NoSuperuserKey)
        } else {
            None
        }
    }

    /// Who may use the API: in open mode anyone; else those with a key, and nobody
    /// where there is none.
    pub open spec fn clients(self) -> Option<ClientsView> {
        match self.mode {
            Mode::Open => None,
            Mode::Keyed => Some(
                ClientsView {
                    list: self.client_keys.map_values(
                        |k: ClientView| (k.secret_sha256, k.name),
                    ),
                    digested: true,
                },
            ),
        }
    }

    /// Requests are handled as this store says.
    pub open spec fn runs(self, c: Config) -> bool {
        &&& c.base_url@ == self.base_url
        &&& c.max_wait@ == self.limits.max_wait_secs * NANOS_PER_SEC
        &&& c.heartbeat@ == self.limits.heartbeat_secs * NANOS_PER_SEC
        &&& c.models_ttl@ == self.limits.models_ttl_secs * NANOS_PER_SEC
        &&& c.stream_idle@ == self.limits.stream_idle_secs * NANOS_PER_SEC
        &&& c.request_timeout@ == self.limits.request_timeout_secs * NANOS_PER_SEC
        &&& c.strict_passthrough == self.limits.strict_passthrough
        &&& c.max_inflight == self.limits.max_inflight
        &&& clients::known(c.clients) == self.clients()
    }

    /// The enabled keys and their rates, in order: what the pool is made of.
    pub open spec fn lanes(self) -> Seq<(Seq<char>, usize)> {
        self.nim_keys.filter(|k: KeyView| k.enabled).map_values(|k: KeyView| (k.key, k.rpm))
    }
}

/// A name that can be a metric label as it is.
pub open spec fn label_name(name: Seq<char>) -> bool {
    name.len() > 0 && labels::sanitized(name) == name
}

/// The first superuser's place.
pub open spec fn first_superuser(users: Seq<UserView>) -> int
    decreases users.len(),
{
    if users.len() == 0 || users[0].role == Role::Superuser {
        0
    } else {
        1 + first_superuser(users.drop_first())
    }
}

pub proof fn lemma_first_superuser(users: Seq<UserView>)
    ensures
        0 <= first_superuser(users) <= users.len(),
        first_superuser(users) < users.len() ==> users[first_superuser(users)].role
            == Role::Superuser,
        forall|i: int|
            0 <= i < first_superuser(users) ==> (#[trigger] users[i]).role != Role::Superuser,
    decreases users.len(),
{
    if users.len() > 0 && users[0].role != Role::Superuser {
        let rest = users.drop_first();
        lemma_first_superuser(rest);
        assert forall|i: int| 0 <= i < first_superuser(users) implies (#[trigger] users[i]).role
            != Role::Superuser by {
            if i > 0 {
                assert(rest[i - 1] == users[i]);
            }
        }
    }
}

impl StoredConfig {
    /// The superuser, if there is one.
    pub fn superuser(&self) -> (r: Option<&User>)
        ensures
            match r {
                Some(u) => {
                    &&& self@.superuser_at() < self@.users.len()
                    &&& u@ == self@.users[self@.superuser_at()]
                    &&& self@.has_superuser()
                },
                None => self@.superuser_at() == self@.users.len() && !self@.has_superuser(),
            },
    {
        let ghost all = self@.users;
        proof {
            lemma_first_superuser(all);
        }
        let mut i: usize = 0;
        while i < self.users.len()
            invariant
                all == self@.users,
                all.len() == self.users@.len(),
                i <= first_superuser(all) <= all.len(),
                first_superuser(all) < all.len() ==> all[first_superuser(all)].role
                    == Role::Superuser,
                forall|k: int|
                    0 <= k < first_superuser(all) ==> (#[trigger] all[k]).role
                        != Role::Superuser,
            decreases self.users.len() - i,
        {
            assert(all[i as int] == self.users@[i as int]@);
            if self.users[i].role == Role::Superuser {
                assert(self@.is_superuser(i as int));
                return Some(&self.users[i]);
            }
            i += 1;
        }
        assert forall|k: int| !self@.is_superuser(k) by {}
        None
    }

    /// How requests are handled under this store.
    pub fn runtime(&self) -> (r: Config)
        ensures
            self@.runs(r),
            r.max_wait.in_range(),
            r.heartbeat.in_range(),
            r.models_ttl.in_range(),
            r.stream_idle.in_range(),
            r.request_timeout.in_range(),
    {
        Config {
            base_url: self.upstream.base_url.clone(),
            max_wait: Duration::from_secs(self.limits.max_wait_secs),
            heartbeat: Duration::from_secs(self.limits.heartbeat_secs),
            models_ttl: Duration::from_secs(self.limits.models_ttl_secs),
            stream_idle: Duration::from_secs(self.limits.stream_idle_secs),
            request_timeout: Duration::from_secs(self.limits.request_timeout_secs),
            strict_passthrough: self.limits.strict_passthrough,
            max_inflight: self.limits.max_inflight,
            clients: self.known_clients(),
        }
    }

    fn known_clients(&self) -> (r: Option<Clients>)
        ensures
            clients::known(r) == self@.clients(),
    {
        if self.client_auth.mode == Mode::Open {
            return None;
        }
        let ghost all = self@.client_keys.map_values(|k: ClientView| (k.secret_sha256, k.name));
        let mut known: Vec<(String, String)> = Vec::new();
        let mut i: usize = 0;
        assert(clients::pairs(known@) =~= all.take(0));
        while i < self.client_auth.keys.len()
            invariant
                all == self@.client_keys.map_values(|k: ClientView| (k.secret_sha256, k.name)),
                i <= self.client_auth.keys@.len(),
                clients::pairs(known@) == all.take(i as int),
            decreases self.client_auth.keys.len() - i,
        {
            let k = &self.client_auth.keys[i];
            let ghost before = known@;
            known.push((k.secret_sha256.clone(), k.name.clone()));
            proof {
                assert(self@.client_keys[i as int] == k@);
                assert(all[i as int] == (k.secret_sha256@, k.name@));
                assert(clients::pairs(known@) =~= clients::pairs(before).push(all[i as int]));
                assert(all.take(i as int + 1) =~= all.take(i as int).push(all[i as int]));
            }
            i += 1;
        }
        assert(all.take(i as int) =~= all);
        Some(Clients::minted(known))
    }

    /// The enabled keys with their rates.
    pub fn pool_keys(&self) -> (r: Vec<(String, usize)>)
        ensures
            r@.map_values(|p: (String, usize)| (p.0@, p.1)) == self@.lanes(),
    {
        let ghost all = self@.nim_keys;
        let ghost f = |k: KeyView| k.enabled;
        let ghost g = |k: KeyView| (k.key, k.rpm);
        let ghost h = |p: (String, usize)| (p.0@, p.1);
        let mut out: Vec<(String, usize)> = Vec::new();
        let mut i: usize = 0;
        proof {
            reveal(Seq::filter);
            assert(all.take(0) =~= Seq::<KeyView>::empty());
            assert(out@.map_values(h) =~= all.take(0).filter(f).map_values(g));
        }
        while i < self.upstream.nim_keys.len()
            invariant
                f == (|k: KeyView| k.enabled),
                g == (|k: KeyView| (k.key, k.rpm)),
                h == (|p: (String, usize)| (p.0@, p.1)),
                all == self@.nim_keys,
                i <= self.upstream.nim_keys@.len(),
                out@.map_values(h) == all.take(i as int).filter(f).map_values(g),
            decreases self.upstream.nim_keys.len() - i,
        {
            let k = &self.upstream.nim_keys[i];
            let ghost before = out@;
            let ghost kept = all.take(i as int).filter(f);
            proof {
                reveal(Seq::filter);
                assert(all.take(i as int + 1).drop_last() =~= all.take(i as int));
                assert(all[i as int] == k@);
            }
            if k.enabled {
                out.push((k.key.clone(), k.rpm));
                proof {
                    assert(f(k@));
                    assert(all.take(i as int + 1).filter(f) == kept.push(k@));
                    assert(out@.map_values(h) =~= before.map_values(h).push((k.key@, k.rpm)));
                    assert(kept.push(k@).map_values(g) =~= kept.map_values(g).push(
                        (k.key@, k.rpm),
                    ));
                }
            } else {
                assert(!f(k@));
            }
            i += 1;
        }
        assert(all.take(i as int) =~= all);
        out
    }

    fn rates_fit(&self) -> (r: bool)
        ensures
            r == self@.rates_ok(),
    {
        let ghost all = self@.nim_keys;
        let mut i: usize = 0;
        while i < self.upstream.nim_keys.len()
            invariant
                all == self@.nim_keys,
                i <= self.upstream.nim_keys@.len(),
                forall|k: int| 0 <= k < i ==> MIN_RPM <= (#[trigger] all[k]).rpm <= MAX_RPM,
            decreases self.upstream.nim_keys.len() - i,
        {
            let rpm = self.upstream.nim_keys[i].rpm;
            assert(all[i as int].rpm == rpm);
            if rpm < MIN_RPM || rpm > MAX_RPM {
                return false;
            }
            i += 1;
        }
        true
    }

    fn names_fit(&self) -> (r: bool)
        ensures
            r == self@.names_ok(),
    {
        let ghost all = self@.client_keys;
        let mut i: usize = 0;
        while i < self.client_auth.keys.len()
            invariant
                all == self@.client_keys,
                i <= self.client_auth.keys@.len(),
                forall|k: int| 0 <= k < i ==> label_name((#[trigger] all[k]).name),
            decreases self.client_auth.keys.len() - i,
        {
            let name = &self.client_auth.keys[i].name;
            assert(all[i as int].name == name@);
            let label = labels::sanitize_label(name.as_str());
            proof {
                reveal_strlit("");
                if name@.len() == 0 {
                    assert(name@ =~= ""@);
                }
            }
            if text::same(name.as_str(), "") || !text::same(label.as_str(), name.as_str()) {
                assert(!label_name(all[i as int].name));
                return false;
            }
            i += 1;
        }
        true
    }

    fn names_differ(&self) -> (r: bool)
        ensures
            r == self@.names_unique(),
    {
        let ghost all = self@.client_keys;
        let n = self.client_auth.keys.len();
        let mut j: usize = 0;
        while j < n
            invariant
                all == self@.client_keys,
                n == self.client_auth.keys@.len(),
                j <= n,
                forall|a: int, b: int|
                    0 <= a < b < j ==> (#[trigger] all[a]).name != (#[trigger] all[b]).name,
            decreases n - j,
        {
            let mut i: usize = 0;
            while i < j
                invariant
                    all == self@.client_keys,
                    n == self.client_auth.keys@.len(),
                    i <= j < n,
                    forall|a: int| 0 <= a < i ==> (#[trigger] all[a]).name != all[j as int].name,
                decreases j - i,
            {
                assert(all[i as int].name == self.client_auth.keys@[i as int].name@);
                assert(all[j as int].name == self.client_auth.keys@[j as int].name@);
                if text::same(
                    self.client_auth.keys[i].name.as_str(),
                    self.client_auth.keys[j].name.as_str(),
                ) {
                    assert(all[i as int].name == all[j as int].name);
                    return false;
                }
                i += 1;
            }
            j += 1;
        }
        true
    }

    fn floor_holds(&self) -> (r: bool)
        ensures
            r == self@.pool_has_a_floor(),
    {
        let owner = match self.superuser() {
            Some(u) => u.username.as_str(),
            None => {
                return false;
            },
        };
        let ghost all = self@.nim_keys;
        let mut i: usize = 0;
        while i < self.upstream.nim_keys.len()
            invariant
                all == self@.nim_keys,
                self@.superuser_at() < self@.users.len(),
                owner@ == self@.users[self@.superuser_at()].username,
                i <= self.upstream.nim_keys@.len(),
                forall|k: int|
                    0 <= k < i ==> !((#[trigger] all[k]).enabled && all[k].owner == owner@),
            decreases self.upstream.nim_keys.len() - i,
        {
            let k = &self.upstream.nim_keys[i];
            assert(all[i as int] == k@);
            if k.enabled && text::same(k.owner.as_str(), owner) {
                return true;
            }
            i += 1;
        }
        false
    }
}

/// Check a config before it is put to use.
pub fn validate(c: &StoredConfig) -> (r: Result<(), Invalid>)
    ensures
        match r {
            Ok(_) => c@.fault() is None,
            Err(e) => c@.fault() == Some(e),
        },
{
    if text::strip_prefix(c.upstream.base_url.as_str(), "http://").is_none()
        && text::strip_prefix(c.upstream.base_url.as_str(), "https://").is_none() {
        return Err(Invalid::BaseUrl);
    }
    if !c.rates_fit() {
        return Err(Invalid::Rate);
    }
    if !c.names_fit() {
        return Err(Invalid::ClientName);
    }
    if !c.names_differ() {
        return Err(Invalid::DuplicateClient);
    }
    if c.limits.heartbeat_secs >= c.limits.max_wait_secs {
        return Err(Invalid::Heartbeat);
    }
    if !c.floor_holds() {
        return Err(Invalid::NoSuperuserKey);
    }
    Ok(())
}

/// A config that is put to use always has a superuser, leaves the pool a lane,
/// and every lane a rate that does not stall it.
pub proof fn law_valid_configs_keep_the_pool_alive(c: ConfigView)
    requires
        c.fault() is None,
    ensures
        c.has_superuser(),
        c.lanes().len() >= 1,
        forall|i: int| 0 <= i < c.lanes().len() ==> (#[trigger] c.lanes()[i]).1 >= 1,
{
    broadcast use vstd::seq_lib::group_filter_ensures;

    let f = |k: KeyView| k.enabled;
    let kept = c.nim_keys.filter(f);
    let s = c.superuser_at();
    lemma_first_superuser(c.users);
    assert(c.is_superuser(s));
    let i = choose|i: int|
        0 <= i < c.nim_keys.len() && (#[trigger] c.nim_keys[i]).enabled && c.nim_keys[i].owner
            == c.users[s].username;
    assert(f(c.nim_keys[i]));
    assert(kept.contains(c.nim_keys[i]));
    lemma_filter_from(c.nim_keys, f);
    assert forall|i: int| 0 <= i < c.lanes().len() implies (#[trigger] c.lanes()[i]).1 >= 1 by {
        assert(c.nim_keys.contains(kept[i]));
        let k = choose|k: int| 0 <= k < c.nim_keys.len() && c.nim_keys[k] == kept[i];
        assert(c.nim_keys[k].rpm >= MIN_RPM);
    }
}

/// What passes a filter was there before.
proof fn lemma_filter_from<A>(s: Seq<A>, f: spec_fn(A) -> bool)
    ensures
        forall|i: int| 0 <= i < s.filter(f).len() ==> s.contains(#[trigger] s.filter(f)[i]),
    decreases s.len(),
{
    reveal(Seq::filter);
    if s.len() > 0 {
        let rest = s.drop_last();
        lemma_filter_from(rest, f);
        assert forall|i: int| 0 <= i < s.filter(f).len() implies s.contains(
            #[trigger] s.filter(f)[i],
        ) by {
            if i < rest.filter(f).len() {
                assert(s.filter(f)[i] == rest.filter(f)[i]);
                let k = choose|k: int| 0 <= k < rest.len() && rest[k] == rest.filter(f)[i];
                assert(s[k] == rest[k]);
            } else {
                assert(s.filter(f)[i] == s[s.len() - 1]);
            }
        }
    }
}

} // verus!

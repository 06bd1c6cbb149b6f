//! What the process is started with: the settings that the environment gives,
//! what stands where it gives none, and when the proxy refuses to start.

use vstd::prelude::*;

use crate::clients;
use crate::clients::{Clients, ClientsView};
use crate::digits;
use crate::history::SAMPLE_SECS;
use crate::text;
use crate::time::{Duration, NANOS_PER_SEC};

verus! {

/// The variables of the environment, by name.
pub type Vars = Vec<(String, String)>;

/// The names and values of some variables.
pub open spec fn vars_of(v: Seq<(String, String)>) -> Seq<(Seq<char>, Seq<char>)> {
    v.map_values(|p: (String, String)| (p.0@, p.1@))
}

/// The value of a variable, and `default` where it is not set.
pub open spec fn setting(
    vars: Seq<(Seq<char>, Seq<char>)>,
    name: Seq<char>,
    default: Seq<char>,
) -> Seq<char>
    decreases vars.len(),
{
    if vars.len() == 0 {
        default
    } else if vars[0].0 == name {
        vars[0].1
    } else {
        setting(vars.drop_first(), name, default)
    }
}

pub fn env_or(vars: &Vars, name: &str, default: &str) -> (r: String)
    ensures
        r@ == setting(vars_of(vars@), name@, default@),
{
    let ghost all = vars_of(vars@);
    let mut i: usize = 0;
    assert(all.skip(0) =~= all);
    while i < vars.len()
        invariant
            all == vars_of(vars@),
            i <= vars@.len(),
            setting(all.skip(i as int), name@, default@) == setting(all, name@, default@),
        decreases vars.len() - i,
    {
        assert(all.skip(i as int)[0] == (vars@[i as int].0@, vars@[i as int].1@));
        assert(all.skip(i as int).drop_first() =~= all.skip(i as int + 1));
        if text::same(vars[i].0.as_str(), name) {
            return vars[i].1.clone();
        }
        i += 1;
    }
    default.to_owned()
}

/// A setting that has to be a number or a truth value.
#[derive(Clone, Copy, PartialEq, Eq, Structural, Debug)]
pub enum Setting {
    RpmPerKey,
    MaxWaitSecs,
    HeartbeatSecs,
    ModelsTtlSecs,
    StreamIdleSecs,
    RequestTimeoutSecs,
    StrictPassthrough,
    Port,
    MaxInflight,
    HistoryDays,
    HistorySampleSecs,
}

impl Setting {
    /// The variable that gives it.
    pub open spec fn variable(self) -> Seq<char> {
        match self {
            Setting::RpmPerKey => "RPM_PER_KEY"@,
            Setting::MaxWaitSecs => "MAX_WAIT_SECS"@,
            Setting::HeartbeatSecs => "HEARTBEAT_SECS"@,
            Setting::ModelsTtlSecs => "MODELS_TTL_SECS"@,
            Setting::StreamIdleSecs => "STREAM_IDLE_SECS"@,
            Setting::RequestTimeoutSecs => "REQUEST_TIMEOUT_SECS"@,
            Setting::StrictPassthrough => "STRICT_PASSTHROUGH"@,
            Setting::Port => "PORT"@,
            Setting::MaxInflight => "MAX_INFLIGHT"@,
            Setting::HistoryDays => "HISTORY_DAYS"@,
            Setting::HistorySampleSecs => "HISTORY_SAMPLE_SECS"@,
        }
    }

    pub fn name(&self) -> (r: &'static str)
        ensures
            r@ == self.variable(),
    {
        match self {
            Setting::RpmPerKey => "RPM_PER_KEY",
            Setting::MaxWaitSecs => "MAX_WAIT_SECS",
            Setting::HeartbeatSecs => "HEARTBEAT_SECS",
            Setting::ModelsTtlSecs => "MODELS_TTL_SECS",
            Setting::StreamIdleSecs => "STREAM_IDLE_SECS",
            Setting::RequestTimeoutSecs => "REQUEST_TIMEOUT_SECS",
            Setting::StrictPassthrough => "STRICT_PASSTHROUGH",
            Setting::Port => "PORT",
            Setting::MaxInflight => "MAX_INFLIGHT",
            Setting::HistoryDays => "HISTORY_DAYS",
            Setting::HistorySampleSecs => "HISTORY_SAMPLE_SECS",
        }
    }

    /// What it is where the environment does not say.
    pub open spec fn standard(self) -> Seq<char> {
        match self {
            Setting::RpmPerKey => "40"@,
            Setting::MaxWaitSecs => "900"@,
            Setting::HeartbeatSecs => "10"@,
            Setting::ModelsTtlSecs => "600"@,
            Setting::StreamIdleSecs => "300"@,
            Setting::RequestTimeoutSecs => "300"@,
            Setting::StrictPassthrough => "false"@,
            Setting::Port => "8000"@,
            Setting::MaxInflight => "512"@,
            Setting::HistoryDays => "30"@,
            Setting::HistorySampleSecs => digits::numeral(SAMPLE_SECS as nat, 10),
        }
    }

    fn default_text(&self) -> (r: String)
        ensures
            r@ == self.standard(),
    {
        match self {
            Setting::RpmPerKey => "40".to_owned(),
            Setting::MaxWaitSecs => "900".to_owned(),
            Setting::HeartbeatSecs => "10".to_owned(),
            Setting::ModelsTtlSecs => "600".to_owned(),
            Setting::StreamIdleSecs => "300".to_owned(),
            Setting::RequestTimeoutSecs => "300".to_owned(),
            Setting::StrictPassthrough => "false".to_owned(),
            Setting::Port => "8000".to_owned(),
            Setting::MaxInflight => "512".to_owned(),
            Setting::HistoryDays => "30".to_owned(),
            Setting::HistorySampleSecs => digits::decimal(SAMPLE_SECS),
        }
    }

    /// The largest number that it can be.
    pub open spec fn limit(self) -> int {
        match self {
            Setting::RpmPerKey | Setting::MaxInflight => usize::MAX as int,
            Setting::Port => u16::MAX as int,
            _ => u64::MAX as int,
        }
    }

    /// What the environment says of it.
    pub open spec fn given(self, vars: Seq<(Seq<char>, Seq<char>)>) -> Seq<char> {
        setting(vars, self.variable(), self.standard())
    }

    /// The number that it is, if it is one.
    pub open spec fn number(self, vars: Seq<(Seq<char>, Seq<char>)>) -> Option<u64> {
        match digits::parsed(self.given(vars), 10) {
            Some(n) if n <= self.limit() => Some(n),
            _ => None,
        }
    }

    fn read(&self, vars: &Vars) -> (r: Result<u64, Refusal>)
        ensures
            match r {
                Ok(n) => self.number(vars_of(vars@)) == Some(n) && n <= self.limit(),
                Err(e) => self.number(vars_of(vars@)) is None && e == Refusal::Unreadable(*self),
            },
    {
        let standard = self.default_text();
        let given = env_or(vars, self.name(), standard.as_str());
        match digits::parse(given.as_str(), 10) {
            Some(n) => {
                let fits = match self {
                    Setting::RpmPerKey | Setting::MaxInflight => n <= usize::MAX as u64,
                    Setting::Port => n <= u16::MAX as u64,
                    _ => true,
                };
                if fits {
                    Ok(n)
                } else {
                    Err(Refusal::Unreadable(*self))
                }
            },
            None => Err(Refusal::Unreadable(*self)),
        }
    }

    fn read_span(&self, vars: &Vars) -> (r: Result<Duration, Refusal>)
        ensures
            match r {
                Ok(d) => {
                    &&& self.number(vars_of(vars@)) matches Some(n)
                    &&& d@ == n * NANOS_PER_SEC
                    &&& d.in_range()
                },
                Err(e) => self.number(vars_of(vars@)) is None && e == Refusal::Unreadable(*self),
            },
    {
        match self.read(vars) {
            Ok(n) => Ok(Duration::from_secs(n)),
            Err(e) => Err(e),
        }
    }
}

/// Why the proxy does not start.
#[derive(Clone, Copy, PartialEq, Eq, Structural, Debug)]
pub enum Refusal {
    /// There is no upstream key.
    NoKeys,
    /// Nothing asks for authentication, and nobody said that this is meant.
    NoAuth { clients: bool, password: bool },
    /// A rate of zero would stall every lane.
    ZeroRate,
    /// A setting is not what it has to be.
    Unreadable(Setting),
}

/// A truth value in words.
pub open spec fn truth_in(s: Seq<char>) -> Option<bool> {
    if s == "true"@ {
        Some(true)
    } else if s == "false"@ {
        Some(false)
    } else {
        None
    }
}

/// How requests are handled.
#[derive(Clone)]
pub struct Config {
    pub base_url: String,
    pub max_wait: Duration,
    pub heartbeat: Duration,
    pub models_ttl: Duration,
    /// Abort a stream when the upstream sends nothing for this long (0 = off).
    pub stream_idle: Duration,
    /// Overall deadline for a non-streaming upstream request (connect + body).
    /// Streaming has no overall cap (generation can be long); it relies on
    /// `stream_idle` instead.
    pub request_timeout: Duration,
    /// Never modify request bodies (disables stream_options usage injection).
    pub strict_passthrough: bool,
    /// The most requests in flight at a time.
    pub max_inflight: usize,
    /// Who may use the API; anyone, where this is not given.
    pub clients: Option<Clients>,
}

/// Everything that the environment decides.
pub struct Startup {
    pub keys: Vec<String>,
    pub admin_password: Option<String>,
    pub insecure: bool,
    pub trust_proxy: bool,
    pub rpm: usize,
    pub config: Config,
    pub port: u16,
    pub history_days: u64,
    pub sample_secs: u64,
    pub data_dir: Option<String>,
    pub host: String,
}

/// The upstream keys that are given.
pub open spec fn keys_given(vars: Seq<(Seq<char>, Seq<char>)>) -> Seq<Seq<char>> {
    clients::entries(setting(vars, "NIM_API_KEYS"@, ""@))
}

/// The list of client keys that is given.
pub open spec fn clients_given(vars: Seq<(Seq<char>, Seq<char>)>) -> Seq<char> {
    setting(vars, "PROXY_API_KEYS"@, ""@)
}

/// Who may use the API: those of the list, and anyone if it names nobody.
pub open spec fn clients_asked(vars: Seq<(Seq<char>, Seq<char>)>) -> Option<ClientsView> {
    if clients::entries(clients_given(vars)).len() > 0 {
        Some(ClientsView { list: clients::clients_in(clients_given(vars)), digested: false })
    } else {
        None
    }
}

/// A text, if it is not empty.
pub open spec fn if_any(s: Seq<char>) -> Option<Seq<char>> {
    if s.len() > 0 {
        Some(s)
    } else {
        None
    }
}

/// The admin password that is given.
pub open spec fn password_given(vars: Seq<(Seq<char>, Seq<char>)>) -> Option<Seq<char>> {
    if_any(setting(vars, "ADMIN_PASSWORD"@, ""@))
}

/// A switch that only "true" turns on.
pub open spec fn switched_on(vars: Seq<(Seq<char>, Seq<char>)>, name: Seq<char>) -> bool {
    setting(vars, name, "false"@) == "true"@
}

/// The first reason not to start, if there is one.
pub open spec fn refusal(vars: Seq<(Seq<char>, Seq<char>)>) -> Option<Refusal> {
    let clients = clients::entries(clients_given(vars)).len() > 0;
    let password = password_given(vars) is Some;
    if keys_given(vars).len() == 0 {
        Some(Refusal::NoKeys)
    } else if !switched_on(vars, "INSECURE_NO_AUTH"@) && !(clients && password) {
        Some(Refusal::NoAuth { clients, password })
    } else if Setting::RpmPerKey.number(vars) is None {
        Some(Refusal::Unreadable(Setting::RpmPerKey))
    } else if Setting::RpmPerKey.number(vars) == Some(0u64) {
        Some(Refusal::ZeroRate)
    } else if Setting::MaxWaitSecs.number(vars) is None {
        Some(Refusal::Unreadable(Setting::MaxWaitSecs))
    } else if Setting::HeartbeatSecs.number(vars) is None {
        Some(Refusal::Unreadable(Setting::HeartbeatSecs))
    } else if Setting::ModelsTtlSecs.number(vars) is None {
        Some(Refusal::Unreadable(Setting::ModelsTtlSecs))
    } else if Setting::StreamIdleSecs.number(vars) is None {
        Some(Refusal::Unreadable(Setting::StreamIdleSecs))
    } else if Setting::RequestTimeoutSecs.number(vars) is None {
        Some(Refusal::Unreadable(Setting::RequestTimeoutSecs))
    } else if truth_in(Setting::StrictPassthrough.given(vars)) is None {
        Some(Refusal::Unreadable(Setting::StrictPassthrough))
    } else if Setting::Port.number(vars) is None {
        Some(Refusal::Unreadable(Setting::Port))
    } else if Setting::MaxInflight.number(vars) is None {
        Some(Refusal::Unreadable(Setting::MaxInflight))
    } else if Setting::HistoryDays.number(vars) is None {
        Some(Refusal::Unreadable(Setting::HistoryDays))
    } else if Setting::HistorySampleSecs.number(vars) is None {
        Some(Refusal::Unreadable(Setting::HistorySampleSecs))
    } else {
        None
    }
}

/// `d` is the number of seconds that a setting gives.
pub open spec fn spans(d: Duration, s: Setting, vars: Seq<(Seq<char>, Seq<char>)>) -> bool {
    &&& s.number(vars) matches Some(n)
    &&& d@ == n * NANOS_PER_SEC
    &&& d.in_range()
}

impl Config {
    /// The handling of requests is what the environment says.
    pub open spec fn follows(self, vars: Seq<(Seq<char>, Seq<char>)>) -> bool {
        &&& self.base_url@ == text::without_trailing(
            setting(vars, "NIM_BASE_URL"@, "https://integrate.api.nvidia.com"@),
            '/',
        )
        &&& spans(self.max_wait, Setting::MaxWaitSecs, vars)
        &&& spans(self.heartbeat, Setting::HeartbeatSecs, vars)
        &&& spans(self.models_ttl, Setting::ModelsTtlSecs, vars)
        &&& spans(self.stream_idle, Setting::StreamIdleSecs, vars)
        &&& spans(self.request_timeout, Setting::RequestTimeoutSecs, vars)
        &&& truth_in(Setting::StrictPassthrough.given(vars)) == Some(self.strict_passthrough)
        &&& Setting::MaxInflight.number(vars) == Some(self.max_inflight as u64)
        &&& clients::known(self.clients) == clients_asked(vars)
    }
}

impl Startup {
    /// Everything is what the environment says.
    pub open spec fn follows(self, vars: Seq<(Seq<char>, Seq<char>)>) -> bool {
        &&& text::views(self.keys@) == keys_given(vars)
        &&& crate::auth::optional_text(self.admin_password) == password_given(vars)
        &&& self.insecure == switched_on(vars, "INSECURE_NO_AUTH"@)
        &&& self.trust_proxy == switched_on(vars, "TRUST_PROXY"@)
        &&& Setting::RpmPerKey.number(vars) == Some(self.rpm as u64)
        &&& self.config.follows(vars)
        &&& Setting::Port.number(vars) == Some(self.port as u64)
        &&& Setting::HistoryDays.number(vars) == Some(self.history_days)
        &&& match Setting::HistorySampleSecs.number(vars) {
            Some(n) => self.sample_secs == if n == 0 {
                1
            } else {
                n
            },
            None => false,
        }
        &&& crate::auth::optional_text(self.data_dir) == if_any(
            setting(vars, "DATA_DIR"@, "data"@),
        )
        &&& self.host@ == setting(vars, "HOST"@, "0.0.0.0"@)
    }
}

/// A text, unless it is empty.
fn non_empty(s: String) -> (r: Option<String>)
    ensures
        crate::auth::optional_text(r) == if_any(s@),
{
    proof {
        reveal_strlit("");
        if s@.len() == 0 {
            assert(s@ =~= ""@);
        }
    }
    if text::same(s.as_str(), "") {
        None
    } else {
        Some(s)
    }
}

fn read_truth(s: &str) -> (r: Option<bool>)
    ensures
        r == truth_in(s@),
{
    if text::same(s, "true") {
        Some(true)
    } else if text::same(s, "false") {
        Some(false)
    } else {
        None
    }
}

/// The handling of requests, and the port.
fn read_config(vars: &Vars, clients: Option<Clients>) -> (r: Result<(Config, u16), Refusal>)
    requires
        clients::known(clients) == clients_asked(vars_of(vars@)),
        keys_given(vars_of(vars@)).len() > 0,
        switched_on(vars_of(vars@), "INSECURE_NO_AUTH"@) || (clients::entries(
            clients_given(vars_of(vars@)),
        ).len() > 0 && password_given(vars_of(vars@)) is Some),
        Setting::RpmPerKey.number(vars_of(vars@)) matches Some(n) && n > 0,
    ensures
        match r {
            Ok((c, port)) => {
                &&& c.follows(vars_of(vars@))
                &&& Setting::Port.number(vars_of(vars@)) == Some(port as u64)
            },
            Err(e) => refusal(vars_of(vars@)) == Some(e),
        },
{
    let url = env_or(vars, "NIM_BASE_URL", "https://integrate.api.nvidia.com");
    let base_url = text::trim_end_matches(url.as_str(), '/');
    let max_wait = Setting::MaxWaitSecs.read_span(vars)?;
    let heartbeat = Setting::HeartbeatSecs.read_span(vars)?;
    let models_ttl = Setting::ModelsTtlSecs.read_span(vars)?;
    let stream_idle = Setting::StreamIdleSecs.read_span(vars)?;
    let request_timeout = Setting::RequestTimeoutSecs.read_span(vars)?;
    let strict = env_or(vars, "STRICT_PASSTHROUGH", "false");
    let strict_passthrough = match read_truth(strict.as_str()) {
        Some(b) => b,
        None => return Err(Refusal::Unreadable(Setting::StrictPassthrough)),
    };
    let port = Setting::Port.read(vars)?;
    let max_inflight = Setting::MaxInflight.read(vars)?;
    let config = Config {
        base_url,
        max_wait,
        heartbeat,
        models_ttl,
        stream_idle,
        request_timeout,
        strict_passthrough,
        max_inflight: max_inflight as usize,
        clients,
    };
    Ok((config, port as u16))
}

/// Read the environment, or say why the proxy does not start. It fails closed:
/// unless it is told in so many words to run open, it starts only with both a
/// client key and an admin password.
pub fn configure(vars: &Vars) -> (r: Result<Startup, Refusal>)
    ensures
        match r {
            Ok(s) => refusal(vars_of(vars@)) is None && s.follows(vars_of(vars@)),
            Err(e) => refusal(vars_of(vars@)) == Some(e),
        },
{
    let given = env_or(vars, "NIM_API_KEYS", "");
    let keys = clients::parse_list(given.as_str());
    if keys.len() == 0 {
        return Err(Refusal::NoKeys);
    }
    let given = env_or(vars, "PROXY_API_KEYS", "");
    let clients = Clients::parse(given.as_str());
    let admin_password = non_empty(env_or(vars, "ADMIN_PASSWORD", ""));
    let insecure_text = env_or(vars, "INSECURE_NO_AUTH", "false");
    let insecure = text::same(insecure_text.as_str(), "true");
    let trust_text = env_or(vars, "TRUST_PROXY", "false");
    let trust_proxy = text::same(trust_text.as_str(), "true");
    if !(insecure || (clients.is_some() && admin_password.is_some())) {
        return Err(
            Refusal::NoAuth { clients: clients.is_some(), password: admin_password.is_some() },
        );
    }
    let rpm = Setting::RpmPerKey.read(vars)?;
    if rpm == 0 {
        return Err(Refusal::ZeroRate);
    }
    let (config, port) = read_config(vars, clients)?;
    let history_days = Setting::HistoryDays.read(vars)?;
    let sample = Setting::HistorySampleSecs.read(vars)?;
    let sample_secs: u64 = if sample == 0 {
        1
    } else {
        sample
    };
    let data_dir = non_empty(env_or(vars, "DATA_DIR", "data"));
    let host = env_or(vars, "HOST", "0.0.0.0");
    Ok(
        Startup {
            keys,
            admin_password,
            insecure,
            trust_proxy,
            rpm: rpm as usize,
            config,
            port,
            history_days,
            sample_secs,
            data_dir,
            host,
        },
    )
}

/// The proxy fails closed: what starts asks API clients for a key and the
/// dashboard for a password, or was told in so many words to ask for neither.
/// It also has at least one lane, and none that is stalled from the start.
pub proof fn law_fails_closed(vars: Seq<(Seq<char>, Seq<char>)>, s: Startup)
    requires
        refusal(vars) is None,
        s.follows(vars),
    ensures
        s.insecure || (s.config.clients is Some && s.admin_password is Some),
        s.keys@.len() > 0,
        s.rpm >= 1,
{
}

} // verus!

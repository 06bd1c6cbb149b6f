//! Client keys: who may use the API, and under which name.

use vstd::prelude::*;

use crate::auth::ct_eq;
use crate::crypto::sha256;
use crate::digits;
use crate::text;

verus! {

/// The entries of a comma-separated list, without the white space around them
/// and without the empty ones.
pub open spec fn entries(s: Seq<char>) -> Seq<Seq<char>> {
    text::split_at_each(s, ',').map_values(|e: Seq<char>| text::trimmed(e)).filter(
        |e: Seq<char>| e.len() > 0,
    )
}

/// Read a comma-separated list.
pub fn parse_list(s: &str) -> (r: Vec<String>)
    ensures
        text::views(r@) == entries(s@),
{
    let parts = text::split(s, ',');
    let ghost all = text::split_at_each(s@, ',').map_values(|e: Seq<char>| text::trimmed(e));
    let ghost f = |e: Seq<char>| e.len() > 0;
    let mut out: Vec<String> = Vec::new();
    let mut i: usize = 0;
    proof {
        reveal(Seq::filter);
        assert(all.take(0) =~= Seq::<Seq<char>>::empty());
        assert(text::views(out@) =~= Seq::<Seq<char>>::empty());
    }
    while i < parts.len()
        invariant
            f == (|e: Seq<char>| e.len() > 0),
            all == text::views(parts@).map_values(|e: Seq<char>| text::trimmed(e)),
            i <= parts@.len(),
            text::views(out@) == all.take(i as int).filter(f),
        decreases parts.len() - i,
    {
        let e = text::trim(parts[i].as_str());
        let ghost before = out@;
        proof {
            reveal(Seq::filter);
            assert(all.take(i as int + 1).drop_last() =~= all.take(i as int));
            assert(all[i as int] == e@);
        }
        if !text::same(e.as_str(), "") {
            proof {
                reveal_strlit("");
                assert(e@.len() > 0) by {
                    if e@.len() == 0 {
                        assert(e@ =~= ""@);
                    }
                }
                assert(f(e@));
            }
            out.push(e);
            assert(text::views(out@) =~= text::views(before).push(e@));
        } else {
            proof {
                reveal_strlit("");
                assert(!f(e@));
            }
        }
        i += 1;
    }
    assert(all.take(i as int) =~= all);
    out
}

/// The secret and the name that the `i`th entry stands for. An entry is
/// `name:secret`, or a secret by itself, whose name is then made up.
pub open spec fn client_entry(e: Seq<char>, i: int) -> (Seq<char>, Seq<char>) {
    match text::split_once_at(e, ':') {
        Some((name, secret)) => (text::trimmed(secret), text::trimmed(name)),
        None => (e, "client"@ + digits::numeral(i as nat, 10)),
    }
}

/// The secrets and names of a list of entries.
pub open spec fn clients_in(s: Seq<char>) -> Seq<(Seq<char>, Seq<char>)> {
    Seq::new(entries(s).len(), |i: int| client_entry(entries(s)[i], i))
}

/// The name that goes with a secret; of several, the last.
pub open spec fn name_for(list: Seq<(Seq<char>, Seq<char>)>, secret: Seq<char>) -> Option<
    Seq<char>,
>
    decreases list.len(),
{
    if list.len() == 0 {
        None
    } else if list.last().0 == secret {
        Some(list.last().1)
    } else {
        name_for(list.drop_last(), secret)
    }
}

/// The digest by which a secret is kept, in hexadecimal.
pub open spec fn secret_digest(secret: Seq<char>) -> Seq<char> {
    digits::hex_of(crate::crypto::sha256_digest(vstd::utf8::encode_utf8(secret)))
}

/// The clients that are known, by their secrets or only by the digests of these.
#[derive(Clone)]
pub struct Clients {
    known: Vec<(String, String)>,
    digested: bool,
}

/// What is known of the clients: a secret and a name each, the secret as it is or
/// as its digest.
pub struct ClientsView {
    pub list: Seq<(Seq<char>, Seq<char>)>,
    pub digested: bool,
}

impl View for Clients {
    type V = ClientsView;

    closed spec fn view(&self) -> ClientsView {
        ClientsView { list: pairs(self.known@), digested: self.digested }
    }
}

/// The texts of a row of pairs.
pub open spec fn pairs(v: Seq<(String, String)>) -> Seq<(Seq<char>, Seq<char>)> {
    v.map_values(|c: (String, String)| (c.0@, c.1@))
}

impl ClientsView {
    /// A secret as the list has it.
    pub open spec fn listed(self, secret: Seq<char>) -> Seq<char> {
        if self.digested {
            secret_digest(secret)
        } else {
            secret
        }
    }
}

/// What is known of the clients, if it is asked who they are.
pub open spec fn known(clients: Option<Clients>) -> Option<ClientsView> {
    match clients {
        Some(c) => Some(c@),
        None => None,
    }
}

impl Clients {
    /// The clients that a list names, if it names any.
    pub fn parse(s: &str) -> (r: Option<Clients>)
        ensures
            match r {
                Some(c) => {
                    &&& c@ == (ClientsView { list: clients_in(s@), digested: false })
                    &&& entries(s@).len() > 0
                },
                None => entries(s@).len() == 0,
            },
    {
        let list = parse_list(s);
        let ghost all = entries(s@);
        if list.len() == 0 {
            return None;
        }
        let mut known: Vec<(String, String)> = Vec::new();
        let mut i: usize = 0;
        while i < list.len()
            invariant
                all == text::views(list@),
                i <= list@.len(),
                known@.len() == i,
                forall|k: int|
                    0 <= k < i ==> ((#[trigger] known@[k]).0@, known@[k].1@) == client_entry(
                        all[k],
                        k,
                    ),
            decreases list.len() - i,
        {
            assert(all[i as int] == list@[i as int]@);
            let entry = match text::split_once(list[i].as_str(), ':') {
                Some((name, secret)) => (
                    text::trim(secret.as_str()),
                    text::trim(name.as_str()),
                ),
                None => {
                    let mut name = "client".to_owned();
                    digits::push_numeral(&mut name, i as u64, 10);
                    (list[i].clone(), name)
                },
            };
            known.push(entry);
            i += 1;
        }
        let r = Clients { known, digested: false };
        assert(r@.list =~= clients_in(s@));
        Some(r)
    }

    /// Clients whose secrets are kept only as digests. Without any of them nobody
    /// is let in.
    pub fn minted(known: Vec<(String, String)>) -> (r: Clients)
        ensures
            r@ == (ClientsView { list: pairs(known@), digested: true }),
    {
        Clients { known, digested: true }
    }

    /// The name of the client whose secret this is. All secrets are looked at,
    /// each in constant time.
    pub fn identify(&self, secret: &str) -> (r: Option<String>)
        ensures
            crate::auth::optional_text(r) == name_for(self@.list, self@.listed(secret@)),
    {
        let digest: String;
        let secret: &str = if self.digested {
            let bytes = sha256(secret.as_bytes());
            digest = digits::hex(bytes.as_slice());
            digest.as_str()
        } else {
            secret
        };
        let mut found: Option<usize> = None;
        let mut i: usize = 0;
        let ghost all = self@.list;
        assert(all.take(0) =~= Seq::<(Seq<char>, Seq<char>)>::empty());
        while i < self.known.len()
            invariant
                all == self@.list,
                all.len() == self.known@.len(),
                i <= all.len(),
                match found {
                    Some(k) => k < i && name_for(all.take(i as int), secret@) == Some(
                        all[k as int].1,
                    ),
                    None => name_for(all.take(i as int), secret@) is None,
                },
            decreases self.known.len() - i,
        {
            assert(all.take(i as int + 1).drop_last() =~= all.take(i as int));
            assert(all[i as int] == (self.known@[i as int].0@, self.known@[i as int].1@));
            if ct_eq(self.known[i].0.as_str(), secret) {
                found = Some(i);
            }
            i += 1;
        }
        assert(all.take(i as int) =~= all);
        match found {
            Some(k) => Some(self.known[k].1.clone()),
            None => None,
        }
    }
}

/// The secret in an authorization header, and the empty text if it holds none.
pub open spec fn bearer(authorization: Option<Seq<char>>) -> Seq<char> {
    match authorization {
        Some(a) => match text::after_prefix(a, "Bearer "@) {
            Some(token) => token,
            None => Seq::empty(),
        },
        None => Seq::empty(),
    }
}

/// The name under which a request is let in, if it is. Without any known
/// clients everyone is "local".
pub open spec fn admitted_as(
    clients: Option<ClientsView>,
    authorization: Option<Seq<char>>,
) -> Option<Seq<char>> {
    match clients {
        None => Some("local"@),
        Some(c) => name_for(c.list, c.listed(bearer(authorization))),
    }
}

/// Let a request in or turn it away.
pub fn authenticate(clients: &Option<Clients>, authorization: &Option<String>) -> (r: Option<String>)
    ensures
        crate::auth::optional_text(r) == admitted_as(
            known(*clients),
            crate::auth::optional_text(*authorization),
        ),
{
    match clients {
        None => Some("local".to_owned()),
        Some(c) => {
            let token = match authorization {
                Some(a) => match text::strip_prefix(a.as_str(), "Bearer ") {
                    Some(token) => token,
                    None => String::new(),
                },
                None => String::new(),
            };
            assert(token@ =~= bearer(crate::auth::optional_text(*authorization)));
            c.identify(token.as_str())
        },
    }
}

/// Where clients are asked who they are, nobody gets in but with the secret of one
/// that is known (or one of the same digest, where only digests are kept), and
/// then under that one's name. Where none is known, nobody gets in.
pub proof fn law_only_known_clients_enter(c: ClientsView, authorization: Option<Seq<char>>)
    ensures
        admitted_as(Some(c), authorization) is Some <==> exists|i: int|
            0 <= i < c.list.len() && (#[trigger] c.list[i]).0 == c.listed(bearer(authorization)),
        admitted_as(Some(c), authorization) matches Some(name) ==> c.list.contains(
            (c.listed(bearer(authorization)), name),
        ),
        c.list.len() == 0 ==> admitted_as(Some(c), authorization) is None,
{
    lemma_name_for(c.list, c.listed(bearer(authorization)));
}

proof fn lemma_name_for(list: Seq<(Seq<char>, Seq<char>)>, secret: Seq<char>)
    ensures
        name_for(list, secret) is Some <==> exists|i: int|
            0 <= i < list.len() && (#[trigger] list[i]).0 == secret,
        name_for(list, secret) matches Some(name) ==> list.contains((secret, name)),
    decreases list.len(),
{
    if list.len() > 0 {
        let front = list.drop_last();
        if list.last().0 == secret {
            assert(list[list.len() - 1].0 == secret);
            assert(list[list.len() - 1] == (secret, list.last().1));
        } else {
            lemma_name_for(front, secret);
            if let Some(name) = name_for(front, secret) {
                let k = choose|k: int| 0 <= k < front.len() && front[k] == (secret, name);
                assert(list[k] == (secret, name));
            }
            if exists|i: int| 0 <= i < list.len() && (#[trigger] list[i]).0 == secret {
                let i = choose|i: int| 0 <= i < list.len() && (#[trigger] list[i]).0 == secret;
                assert(front[i].0 == secret);
            }
        }
    }
}

} // verus!

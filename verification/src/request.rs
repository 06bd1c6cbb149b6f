//! Reading a request: the model and the stream flag, the lane that its
//! conversation keeps to, and the usage report that is asked for on the
//! client's behalf.

use std::collections::hash_map::DefaultHasher;
use std::hash::Hasher;

use vstd::prelude::*;
use vstd::slice::slice_to_vec;
use vstd::std_specs::hash::DefaultHasherAdditionalSpecFns;

use crate::json;
use crate::json::Tree;
use crate::labels;
use crate::labels::listed;
use crate::quality::{shape, Shape};
use crate::text;

verus! {

/// The only endpoint whose requests are ever modified.
pub const CHAT_PATH: &'static str = "/v1/chat/completions";

/// The model catalog.
pub const MODELS_PATH: &'static str = "/v1/models";

/// A text member of a document.
pub open spec fn text_member(doc: Option<Tree>, key: Seq<char>) -> Option<Seq<char>> {
    match doc {
        Some(t) => match json::member(t, key) {
            Some(m) => json::string(m),
            None => None,
        },
        None => None,
    }
}

/// The model that a request names, and "none" if it names none.
pub open spec fn model_in(doc: Option<Tree>) -> Seq<char> {
    match text_member(doc, "model"@) {
        Some(m) => m,
        None => "none"@,
    }
}

/// Whether a request asks for a stream.
pub open spec fn stream_in(doc: Option<Tree>) -> bool {
    match doc {
        Some(t) => match json::member(t, "stream"@) {
            Some(s) => json::truth(s) == Some(true),
            None => false,
        },
        None => false,
    }
}

/// What is hashed of a text: its bytes, and a byte that no text holds.
pub open spec fn hashed_text(s: Seq<char>) -> Seq<Seq<u8>> {
    seq![vstd::utf8::encode_utf8(s), seq![0xffu8]]
}

/// What is hashed of some messages.
pub open spec fn hashed_messages(messages: Seq<Tree>) -> Seq<Seq<u8>>
    decreases messages.len(),
{
    if messages.len() == 0 {
        Seq::empty()
    } else {
        hashed_messages(messages.drop_last()) + hashed_text(json::rendering(messages.last()))
    }
}

/// A message of this role.
pub open spec fn has_role(message: Tree, role: Seq<char>) -> bool {
    text_member(Some(message), "role"@) == Some(role)
}

/// The first message of this role.
pub open spec fn first_of(messages: Seq<Tree>, role: Seq<char>) -> Option<Tree>
    decreases messages.len(),
{
    if messages.len() == 0 {
        None
    } else if has_role(messages[0], role) {
        Some(messages[0])
    } else {
        first_of(messages.drop_first(), role)
    }
}

/// What stays the same over every turn of a conversation: the system prompt that
/// it begins with, if it does, and the first message of the user.
pub open spec fn opening(messages: Seq<Tree>) -> Seq<Tree> {
    let prompt = if messages.len() > 0 && has_role(messages[0], "system"@) {
        seq![messages[0]]
    } else {
        Seq::empty()
    };
    match first_of(messages, "user"@) {
        Some(m) => prompt.push(m),
        None => prompt,
    }
}

/// The identity of a conversation: the model and the opening messages.
pub open spec fn identity(t: Tree, messages: Seq<Tree>) -> Seq<Seq<u8>> {
    hashed_text(
        match text_member(Some(t), "model"@) {
            Some(m) => m,
            None => Seq::empty(),
        },
    ) + hashed_messages(opening(messages))
}

/// The messages of a request.
pub open spec fn messages_in(t: Tree) -> Option<Seq<Tree>> {
    match json::member(t, "messages"@) {
        Some(m) => json::elements(m),
        None => None,
    }
}

/// The lane that a conversation keeps to. Where there are no lanes, it is none.
pub open spec fn affinity_of(t: Tree, lanes: nat) -> Option<int> {
    match messages_in(t) {
        Some(messages) if lanes > 0 => Some(
            DefaultHasher::spec_finish(identity(t, messages)) as int % lanes as int,
        ),
        _ => None,
    }
}

fn hash_text(h: &mut DefaultHasher, s: &str)
    ensures
        final(h)@ == old(h)@ + hashed_text(s@),
{
    h.write(s.as_bytes());
    let end: Vec<u8> = vec![0xff];
    h.write(end.as_slice());
    assert(end@ =~= seq![0xffu8]);
    assert(h@ =~= old(h)@ + hashed_text(s@));
}

fn text_of<'a>(v: &'a serde_json::Value, key: &str) -> (r: Option<&'a str>)
    ensures
        match r {
            Some(s) => text_member(Some(json::contents(*v)), key@) == Some(s@),
            None => text_member(Some(json::contents(*v)), key@) is None,
        },
{
    json::as_str(json::get(v, key)?)
}

/// Hash a message by its text.
fn hash_message(h: &mut DefaultHasher, message: &serde_json::Value)
    ensures
        final(h)@ == old(h)@ + hashed_text(json::rendering(json::contents(*message))),
{
    let text = json::to_text(message);
    hash_text(h, text.as_str());
}

fn is_role(message: &serde_json::Value, role: &str) -> (r: bool)
    ensures
        r == has_role(json::contents(*message), role@),
{
    match text_of(message, "role") {
        Some(s) => text::same(s, role),
        None => false,
    }
}

fn find_role<'a>(messages: &'a Vec<serde_json::Value>, role: &str) -> (r: Option<
    &'a serde_json::Value,
>)
    ensures
        match r {
            Some(m) => first_of(
                messages@.map_values(|x: serde_json::Value| json::contents(x)),
                role@,
            ) == Some(json::contents(*m)),
            None => first_of(
                messages@.map_values(|x: serde_json::Value| json::contents(x)),
                role@,
            ) is None,
        },
{
    let ghost all = messages@.map_values(|x: serde_json::Value| json::contents(x));
    let mut i: usize = 0;
    assert(all.skip(0) =~= all);
    while i < messages.len()
        invariant
            all == messages@.map_values(|x: serde_json::Value| json::contents(x)),
            i <= messages@.len(),
            first_of(all.skip(i as int), role@) == first_of(all, role@),
        decreases messages.len() - i,
    {
        assert(all.skip(i as int)[0] == json::contents(messages@[i as int]));
        assert(all.skip(i as int).drop_first() =~= all.skip(i as int + 1));
        if is_role(&messages[i], role) {
            return Some(&messages[i]);
        }
        i += 1;
    }
    assert(all.skip(i as int) =~= Seq::<Tree>::empty());
    None
}

proof fn lemma_hashed_one_more(messages: Seq<Tree>, m: Tree)
    ensures
        hashed_messages(messages.push(m)) == hashed_messages(messages) + hashed_text(
            json::rendering(m),
        ),
{
    assert(messages.push(m).drop_last() =~= messages);
}

/// Sticky-lane hint: hash the conversation's identity (model, system prompt,
/// and first user message, stable across every turn of an agent session) so a
/// conversation keeps hitting the same key while it has capacity, keeping any
/// upstream prefix cache warm. Purely an optimization; correctness never
/// depends on which key serves a request.
pub fn affinity(body: &serde_json::Value, lanes: usize) -> (r: Option<usize>)
    ensures
        match r {
            Some(lane) => {
                &&& affinity_of(json::contents(*body), lanes as nat) == Some(lane as int)
                &&& lane < lanes
            },
            None => affinity_of(json::contents(*body), lanes as nat) is None,
        },
{
    let ghost t = json::contents(*body);
    let messages = json::as_array(json::get(body, "messages")?)?;
    if lanes == 0 {
        return None;
    }
    let ghost all = messages@.map_values(|x: serde_json::Value| json::contents(x));
    let mut h = DefaultHasher::new();
    let model = match text_of(body, "model") {
        Some(m) => m,
        None => "",
    };
    proof {
        reveal_strlit("");
        assert(""@ =~= Seq::<char>::empty());
    }
    hash_text(&mut h, model);
    let ghost start = h@;
    let ghost mut hashed: Seq<Tree> = Seq::empty();
    assert(h@ =~= start + hashed_messages(hashed));
    if messages.len() > 0 && is_role(&messages[0], "system") {
        hash_message(&mut h, &messages[0]);
        proof {
            lemma_hashed_one_more(hashed, all[0]);
            hashed = hashed.push(all[0]);
            assert(hashed =~= seq![all[0]]);
            assert(h@ =~= start + hashed_messages(hashed));
        }
    }
    if let Some(m) = find_role(messages, "user") {
        hash_message(&mut h, m);
        proof {
            lemma_hashed_one_more(hashed, json::contents(*m));
            hashed = hashed.push(json::contents(*m));
            assert(h@ =~= start + hashed_messages(hashed));
        }
    }
    proof {
        assert(hashed =~= opening(all));
        assert(Seq::<Seq<u8>>::empty() + hashed_text(model@) =~= hashed_text(model@));
        assert(h@ =~= identity(t, all));
    }
    Some((h.finish() % (lanes as u64)) as usize)
}

/// What asks for a usage report.
pub open spec fn usage_request() -> Tree {
    Tree::Object(Map::empty().insert("include_usage"@, Tree::Bool(true)))
}

/// A request that asks for a usage report.
pub open spec fn injected(t: Tree) -> Tree {
    json::with_member(t, "stream_options"@, usage_request())
}

/// Streamed chat requests that leave stream options open have a usage report
/// asked for, unless bodies must not be touched or the model is known to reject
/// it.
pub open spec fn injects(
    doc: Option<Tree>,
    path: Seq<char>,
    strict: bool,
    no_inject: Seq<Seq<char>>,
) -> bool {
    &&& stream_in(doc)
    &&& !strict
    &&& path == CHAT_PATH@
    &&& doc matches Some(t)
    &&& t is Object
    &&& json::member(t, "stream_options"@) is None
    &&& !no_inject.contains(model_in(doc))
}

/// How a request is sent on.
pub struct Plan {
    pub model: String,
    /// What the model is called where requests are counted.
    pub label: String,
    pub wants_stream: bool,
    /// The lane that its conversation keeps to.
    pub prefer: Option<usize>,
    /// What it looks like, if it is JSON.
    pub shape: Option<Shape>,
    pub body: Vec<u8>,
    /// The untouched body, where `body` is not it: for a retry if the model
    /// rejects what was added.
    pub fallback: Option<Vec<u8>>,
}

impl Plan {
    /// The plan for a body that holds `doc`.
    pub open spec fn serves(
        self,
        doc: Option<Tree>,
        body: Seq<u8>,
        path: Seq<char>,
        strict: bool,
        no_inject: Seq<Seq<char>>,
        lanes: nat,
    ) -> bool {
        &&& self.model@ == model_in(doc)
        &&& self.label@ == labels::sanitized(self.model@)
        &&& forall|i: int| 0 <= i < self.label@.len() ==> labels::safe(#[trigger] self.label@[i])
        &&& self.wants_stream == stream_in(doc)
        &&& match doc {
            Some(t) => match self.prefer {
                Some(lane) => affinity_of(t, lanes) == Some(lane as int) && lane < lanes,
                None => affinity_of(t, lanes) is None,
            },
            None => self.prefer is None,
        }
        &&& match doc {
            Some(t) => self.shape matches Some(s) && s.describes(t),
            None => self.shape is None,
        }
        &&& if injects(doc, path, strict, no_inject) {
            &&& self.body@ == vstd::utf8::encode_utf8(json::rendering(injected(doc->0)))
            &&& self.fallback matches Some(f)
            &&& f@ == body
        } else {
            self.body@ == body && self.fallback is None
        }
    }
}

/// Plan a request whose body has been read as JSON, or is not JSON.
pub fn plan_parsed(
    parsed: Option<serde_json::Value>,
    body: Vec<u8>,
    path: &str,
    strict: bool,
    no_inject: &Vec<String>,
    lanes: usize,
) -> (r: Plan)
    ensures
        r.serves(
            match parsed {
                Some(v) => Some(json::contents(v)),
                None => None,
            },
            body@,
            path@,
            strict,
            text::views(no_inject@),
            lanes as nat,
        ),
{
    let v = match parsed {
        Some(v) => v,
        None => {
            return Plan {
                model: "none".to_owned(),
                label: labels::sanitize_label("none"),
                wants_stream: false,
                prefer: None,
                shape: None,
                body,
                fallback: None,
            };
        },
    };
    let model = match text_of(&v, "model") {
        Some(m) => m.to_owned(),
        None => "none".to_owned(),
    };
    let label = labels::sanitize_label(model.as_str());
    let wants_stream = match json::get(&v, "stream") {
        Some(s) => match json::as_bool(s) {
            Some(b) => b,
            None => false,
        },
        None => false,
    };
    let prefer = affinity(&v, lanes);
    let shape = Some(shape(&v));
    let injectable = wants_stream && !strict && text::same(path, CHAT_PATH) && json::is_object(&v)
        && json::get(&v, "stream_options").is_none() && !listed(no_inject, model.as_str());
    if injectable {
        let mut v = v;
        let mut options = json::empty_object();
        json::set(&mut options, "include_usage", json::from_bool(true));
        json::set(&mut v, "stream_options", options);
        let out = json::to_text(&v);
        Plan {
            model,
            label,
            wants_stream,
            prefer,
            shape,
            body: slice_to_vec(out.as_str().as_bytes()),
            fallback: Some(body),
        }
    } else {
        Plan { model, label, wants_stream, prefer, shape, body, fallback: None }
    }
}

/// Plan a request: what it is for, where it goes, and what is sent.
pub fn plan(body: Vec<u8>, path: &str, strict: bool, no_inject: &Vec<String>, lanes: usize) -> (r:
    Plan)
    ensures
        r.serves(
            json::document(body@),
            body@,
            path@,
            strict,
            text::views(no_inject@),
            lanes as nat,
        ),
{
    let parsed = json::parse(body.as_slice());
    plan_parsed(parsed, body, path, strict, no_inject, lanes)
}

/// A request for the model catalog, which is answered from a cache.
pub fn is_catalog_request(method: &str, path: &str) -> (r: bool)
    ensures
        r == (method@ == "GET"@ && path@ == MODELS_PATH@),
{
    text::same(method, "GET") && text::same(path, MODELS_PATH)
}

/// The lane depends on the model and the opening messages only.
pub proof fn law_lane_follows_model_and_opening(
    a: Tree,
    b: Tree,
    first: Seq<Tree>,
    second: Seq<Tree>,
    lanes: nat,
)
    requires
        messages_in(a) == Some(first),
        messages_in(b) == Some(second),
        opening(first) == opening(second),
        text_member(Some(a), "model"@) == text_member(Some(b), "model"@),
    ensures
        affinity_of(a, lanes) == affinity_of(b, lanes),
{
}

/// A conversation keeps to its lane: whatever is said after the first message of
/// the user, with a system prompt or without one, every later turn prefers the
/// lane of the first.
pub proof fn law_conversations_keep_their_lane(
    a: Tree,
    b: Tree,
    first: Seq<Tree>,
    later: Seq<Tree>,
    lanes: nat,
)
    requires
        messages_in(a) == Some(first),
        messages_in(b) == Some(first + later),
        first_of(first, "user"@) is Some,
        text_member(Some(a), "model"@) == text_member(Some(b), "model"@),
    ensures
        affinity_of(a, lanes) == affinity_of(b, lanes),
{
    lemma_first_stays_first(first, later, "user"@);
    assert((first + later)[0] == first[0]);
    assert(opening(first + later) == opening(first));
}

/// What comes after the first message of a role does not change which it is.
proof fn lemma_first_stays_first(first: Seq<Tree>, later: Seq<Tree>, role: Seq<char>)
    requires
        first_of(first, role) is Some,
    ensures
        first.len() > 0,
        first_of(first + later, role) == first_of(first, role),
    decreases first.len(),
{
    assert((first + later)[0] == first[0]);
    if !has_role(first[0], role) {
        lemma_first_stays_first(first.drop_first(), later, role);
        assert((first + later).drop_first() =~= first.drop_first() + later);
    }
}

/// A body is sent on as it came, unless it has a usage report asked for; and
/// then every member of it but the stream options is what it was, and what came
/// is kept to fall back on.
pub proof fn law_bodies_pass_through(
    p: Plan,
    doc: Option<Tree>,
    body: Seq<u8>,
    path: Seq<char>,
    strict: bool,
    no_inject: Seq<Seq<char>>,
    lanes: nat,
    key: Seq<char>,
)
    requires
        p.serves(doc, body, path, strict, no_inject, lanes),
        key != "stream_options"@,
    ensures
        match p.fallback {
            None => p.body@ == body,
            Some(f) => {
                &&& f@ == body
                &&& !strict
                &&& doc matches Some(t)
                &&& p.body@ == vstd::utf8::encode_utf8(json::rendering(injected(t)))
                &&& json::member(injected(t), key) == json::member(t, key)
            },
        },
        strict || no_inject.contains(model_in(doc)) ==> p.body@ == body,
{
}

/// A usage report is asked for on every streamed chat request that leaves its stream
/// options open, whatever else it holds, unless bodies are not to be touched or its
/// model is known to reject it: the body that is sent has that one member more, and the
/// one that came is kept.
pub proof fn law_usage_is_asked_for(
    p: Plan,
    members: Map<Seq<char>, Tree>,
    body: Seq<u8>,
    path: Seq<char>,
    no_inject: Seq<Seq<char>>,
    lanes: nat,
)
    requires
        p.serves(Some(Tree::Object(members)), body, path, false, no_inject, lanes),
        path == "/v1/chat/completions"@,
        members.contains_key("stream"@),
        members["stream"@] == Tree::Bool(true),
        !members.contains_key("stream_options"@),
        forall|i: int| 0 <= i < no_inject.len() ==> #[trigger] no_inject[i] != p.model@,
    ensures
        p.fallback matches Some(f) && f@ == body,
        p.body@ == vstd::utf8::encode_utf8(
            json::rendering(
                Tree::Object(
                    members.insert(
                        "stream_options"@,
                        Tree::Object(
                            Map::empty().insert("include_usage"@, Tree::Bool(true)),
                        ),
                    ),
                ),
            ),
        ),
{
    assert(CHAT_PATH@ == "/v1/chat/completions"@);
}

} // verus!

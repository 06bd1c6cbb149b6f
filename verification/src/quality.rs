//! Request shape and response quality, as counts and sizes only, never
//! content. What a client or an upstream says in words is clamped to a few
//! known values before it is counted.

use vstd::prelude::*;

use crate::json;
use crate::json::Tree;
use crate::text;

verus! {

/// How a client wants tools to be chosen.
#[derive(Clone, Copy, PartialEq, Eq, Structural, Debug)]
pub enum ToolChoice {
    Auto,
    Never,
    Required,
    /// One tool by its name.
    Named,
}

impl ToolChoice {
    pub open spec fn text(self) -> Seq<char> {
        match self {
            ToolChoice::Auto => "auto"@,
            ToolChoice::Never => "none"@,
            ToolChoice::Required => "required"@,
            ToolChoice::Named => "named"@,
        }
    }

    pub fn label(&self) -> (r: &'static str)
        ensures
            r@ == self.text(),
    {
        match self {
            ToolChoice::Auto => "auto",
            ToolChoice::Never => "none",
            ToolChoice::Required => "required",
            ToolChoice::Named => "named",
        }
    }
}

/// The choice that a value stands for.
pub open spec fn choice_of(t: Tree) -> Option<ToolChoice> {
    match t {
        Tree::Str(s) => if s == "auto"@ {
            Some(ToolChoice::Auto)
        } else if s == "none"@ {
            Some(ToolChoice::Never)
        } else if s == "required"@ {
            Some(ToolChoice::Required)
        } else {
            None
        },
        Tree::Object(_) => Some(ToolChoice::Named),
        _ => None,
    }
}

/// What a request looks like.
#[derive(Clone, Copy, PartialEq, Eq, Debug)]
pub struct Shape {
    /// Its messages, if it has a list of them.
    pub messages: Option<usize>,
    /// The tools that it offers.
    pub tools: usize,
    /// The output that it asks for at most.
    pub max_tokens: Option<u64>,
    pub tool_choice: Option<ToolChoice>,
    /// It asks for structured output.
    pub json_mode: bool,
}

/// The number of elements of a member, if it is an array.
pub open spec fn length_of(t: Tree, key: Seq<char>) -> Option<nat> {
    match json::member(t, key) {
        Some(m) => match json::elements(m) {
            Some(e) => Some(e.len()),
            None => None,
        },
        None => None,
    }
}

/// A member of a member.
pub open spec fn nested(t: Tree, outer: Seq<char>, inner: Seq<char>) -> Option<Tree> {
    match json::member(t, outer) {
        Some(m) => json::member(m, inner),
        None => None,
    }
}

/// A request asks for structured output.
pub open spec fn asks_for_json(t: Tree) -> bool {
    match nested(t, "response_format"@, "type"@) {
        Some(f) => json::string(f) == Some("json_object"@) || json::string(f) == Some(
            "json_schema"@,
        ),
        None => false,
    }
}

impl Shape {
    /// The shape of a request that holds `t`.
    pub open spec fn describes(self, t: Tree) -> bool {
        &&& match self.messages {
            Some(n) => length_of(t, "messages"@) == Some(n as nat),
            None => length_of(t, "messages"@) is None,
        }
        &&& match length_of(t, "tools"@) {
            Some(n) => self.tools == n,
            None => self.tools == 0,
        }
        &&& self.max_tokens == match json::member(t, "max_tokens"@) {
            Some(m) => json::whole(m),
            None => None,
        }
        &&& self.tool_choice == match json::member(t, "tool_choice"@) {
            Some(c) => choice_of(c),
            None => None,
        }
        &&& self.json_mode == asks_for_json(t)
    }
}

fn length(v: &serde_json::Value, key: &str) -> (r: Option<usize>)
    ensures
        match r {
            Some(n) => length_of(json::contents(*v), key@) == Some(n as nat),
            None => length_of(json::contents(*v), key@) is None,
        },
{
    let a = json::as_array(json::get(v, key)?)?;
    Some(a.len())
}

fn read_choice(v: &serde_json::Value) -> (r: Option<ToolChoice>)
    ensures
        r == choice_of(json::contents(*v)),
{
    match json::as_str(v) {
        Some(s) => {
            if text::same(s, "auto") {
                Some(ToolChoice::Auto)
            } else if text::same(s, "none") {
                Some(ToolChoice::Never)
            } else if text::same(s, "required") {
                Some(ToolChoice::Required)
            } else {
                None
            }
        },
        None => {
            if json::is_object(v) {
                Some(ToolChoice::Named)
            } else {
                None
            }
        },
    }
}

/// The shape of a request.
pub fn shape(v: &serde_json::Value) -> (r: Shape)
    ensures
        r.describes(json::contents(*v)),
{
    let json_mode = match json::get(v, "response_format") {
        Some(f) => match json::get(f, "type") {
            Some(t) => match json::as_str(t) {
                Some(s) => text::same(s, "json_object") || text::same(s, "json_schema"),
                None => false,
            },
            None => false,
        },
        None => false,
    };
    Shape {
        messages: length(v, "messages"),
        tools: match length(v, "tools") {
            Some(n) => n,
            None => 0,
        },
        max_tokens: match json::get(v, "max_tokens") {
            Some(m) => json::as_u64(m),
            None => None,
        },
        tool_choice: match json::get(v, "tool_choice") {
            Some(c) => read_choice(c),
            None => None,
        },
        json_mode,
    }
}

/// Counts of how generations ended, and of what they hold.
#[derive(Clone, Copy, PartialEq, Eq, Structural, Debug)]
pub struct Quality {
    pub stop: u64,
    pub length: u64,
    pub tool_calls_ended: u64,
    pub content_filter: u64,
    /// Ended in a way that is not known.
    pub other: u64,
    /// Tool calls that were begun.
    pub calls: u64,
    /// The tokens spent on reasoning, where they are reported.
    pub reasoning: Option<u64>,
}

/// One more, as far as a count goes.
pub open spec fn plus(n: u64, k: int) -> u64 {
    if n + k <= u64::MAX {
        (n + k) as u64
    } else {
        u64::MAX
    }
}

impl Quality {
    /// Nothing yet.
    pub open spec fn nothing() -> Quality {
        Quality {
            stop: 0,
            length: 0,
            tool_calls_ended: 0,
            content_filter: 0,
            other: 0,
            calls: 0,
            reasoning: None,
        }
    }

    /// One generation more that ended for this reason.
    pub open spec fn ended(self, reason: Seq<char>) -> Quality {
        if reason == "stop"@ {
            Quality { stop: plus(self.stop, 1), ..self }
        } else if reason == "length"@ {
            Quality { length: plus(self.length, 1), ..self }
        } else if reason == "tool_calls"@ {
            Quality { tool_calls_ended: plus(self.tool_calls_ended, 1), ..self }
        } else if reason == "content_filter"@ {
            Quality { content_filter: plus(self.content_filter, 1), ..self }
        } else {
            Quality { other: plus(self.other, 1), ..self }
        }
    }

    /// What one choice adds.
    pub open spec fn with_choice(self, choice: Tree, part: Seq<char>) -> Quality {
        let counted = Quality { calls: plus(self.calls, calls_in(choice, part) as int), ..self };
        match json::member(choice, "finish_reason"@) {
            Some(r) => match json::string(r) {
                Some(s) => counted.ended(s),
                None => counted,
            },
            None => counted,
        }
    }

    /// What some choices add.
    pub open spec fn with_choices(self, choices: Seq<Tree>, part: Seq<char>) -> Quality
        decreases choices.len(),
    {
        if choices.len() == 0 {
            self
        } else {
            self.with_choices(choices.drop_last(), part).with_choice(choices.last(), part)
        }
    }

    /// What a document adds, whose choices keep what they say in `part`.
    pub open spec fn with_document(self, t: Tree, part: Seq<char>) -> Quality {
        let chosen = match json::member(t, "choices"@) {
            Some(c) => match json::elements(c) {
                Some(choices) => self.with_choices(choices, part),
                None => self,
            },
            None => self,
        };
        match reasoning_in(t) {
            Some(n) => Quality { reasoning: Some(n), ..chosen },
            None => chosen,
        }
    }
}

/// The tokens spent on reasoning that a usage object reports.
pub open spec fn reasoning_in(t: Tree) -> Option<u64> {
    match nested(t, "usage"@, "completion_tokens_details"@) {
        Some(d) => match json::member(d, "reasoning_tokens"@) {
            Some(n) => json::whole(n),
            None => None,
        },
        None => None,
    }
}

/// A piece of a stream begins a tool call where it names it; the rest of the
/// call follows without a name.
pub open spec fn begun(calls: Seq<Tree>) -> nat
    decreases calls.len(),
{
    if calls.len() == 0 {
        0
    } else {
        begun(calls.drop_last()) + if json::member(calls.last(), "id"@) is Some {
            1nat
        } else {
            0
        }
    }
}

/// The tool calls that a choice begins.
pub open spec fn calls_in(choice: Tree, part: Seq<char>) -> nat {
    match nested(choice, part, "tool_calls"@) {
        Some(c) => match json::elements(c) {
            Some(calls) => begun(calls),
            None => 0,
        },
        None => 0,
    }
}


fn count_calls(choice: &serde_json::Value, part: &str) -> (r: usize)
    ensures
        r == calls_in(json::contents(*choice), part@),
{
    let message = match json::get(choice, part) {
        Some(m) => m,
        None => return 0,
    };
    let list = match json::get(message, "tool_calls") {
        Some(l) => l,
        None => return 0,
    };
    let calls = match json::as_array(list) {
        Some(c) => c,
        None => return 0,
    };
    let ghost all = calls@.map_values(|x: serde_json::Value| json::contents(x));
    let mut n: usize = 0;
    let mut i: usize = 0;
    assert(all.take(0) =~= Seq::<Tree>::empty());
    while i < calls.len()
        invariant
            all == calls@.map_values(|x: serde_json::Value| json::contents(x)),
            i <= calls@.len(),
            n <= i,
            n == begun(all.take(i as int)),
        decreases calls.len() - i,
    {
        assert(all.take(i as int + 1).drop_last() =~= all.take(i as int));
        if json::get(&calls[i], "id").is_some() {
            n += 1;
        }
        i += 1;
    }
    assert(all.take(i as int) =~= all);
    n
}

fn bump(n: u64, k: u64) -> (r: u64)
    ensures
        r == plus(n, k as int),
{
    match n.checked_add(k) {
        Some(s) => s,
        None => u64::MAX,
    }
}

impl Quality {
    pub fn new() -> (r: Quality)
        ensures
            r == Quality::nothing(),
    {
        Quality {
            stop: 0,
            length: 0,
            tool_calls_ended: 0,
            content_filter: 0,
            other: 0,
            calls: 0,
            reasoning: None,
        }
    }

    fn end(&mut self, reason: &str)
        ensures
            *final(self) == old(self).ended(reason@),
    {
        if text::same(reason, "stop") {
            self.stop = bump(self.stop, 1);
        } else if text::same(reason, "length") {
            self.length = bump(self.length, 1);
        } else if text::same(reason, "tool_calls") {
            self.tool_calls_ended = bump(self.tool_calls_ended, 1);
        } else if text::same(reason, "content_filter") {
            self.content_filter = bump(self.content_filter, 1);
        } else {
            self.other = bump(self.other, 1);
        }
    }

    fn choose_from(&mut self, choice: &serde_json::Value, part: &str)
        ensures
            *final(self) == old(self).with_choice(json::contents(*choice), part@),
    {
        let calls = count_calls(choice, part);
        self.calls = bump(self.calls, calls as u64);
        if let Some(r) = json::get(choice, "finish_reason") {
            if let Some(s) = json::as_str(r) {
                self.end(s);
            }
        }
    }

    /// Count what a document adds. The choices of a whole answer keep what
    /// they say in `message`, those of a piece of a stream in `delta`.
    pub fn observe(&mut self, v: &serde_json::Value, part: &str)
        ensures
            *final(self) == old(self).with_document(json::contents(*v), part@),
    {
        if let Some(c) = json::get(v, "choices") {
            if let Some(choices) = json::as_array(c) {
                let ghost before = *self;
                let ghost all = choices@.map_values(|x: serde_json::Value| json::contents(x));
                let mut i: usize = 0;
                assert(all.take(0) =~= Seq::<Tree>::empty());
                while i < choices.len()
                    invariant
                        all == choices@.map_values(|x: serde_json::Value| json::contents(x)),
                        i <= choices@.len(),
                        *self == before.with_choices(all.take(i as int), part@),
                    decreases choices.len() - i,
                {
                    assert(all.take(i as int + 1).drop_last() =~= all.take(i as int));
                    self.choose_from(&choices[i], part);
                    i += 1;
                }
                assert(all.take(i as int) =~= all);
            }
        }
        if let Some(u) = json::get(v, "usage") {
            if let Some(d) = json::get(u, "completion_tokens_details") {
                if let Some(n) = json::get(d, "reasoning_tokens") {
                    if let Some(n) = json::as_u64(n) {
                        self.reasoning = Some(n);
                    }
                }
            }
        }
    }
}

} // verus!

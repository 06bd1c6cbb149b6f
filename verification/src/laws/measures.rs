//! Promises about what is measured of requests and answers on their way past.

use vstd::prelude::*;

use crate::json;
use crate::json::Tree;
use crate::proxy;
use crate::proxy::Relayed;
use crate::quality::{Quality, Shape, ToolChoice};
use crate::request;
use crate::request::Plan;
use crate::sse;
use crate::sse::SseScan;
use crate::stream;
use crate::stream::{Event, Next, Stream};
use crate::text;
use crate::time::Instant;
use crate::usage;
use crate::usage::Usage;
use crate::utf8;

verus! {

/// An object that holds something under a key.
pub open spec fn keeps(t: Tree, key: Seq<char>) -> bool {
    t is Object && t->Object_0.contains_key(key)
}

pub open spec fn under(t: Tree, key: Seq<char>) -> Tree {
    t->Object_0[key]
}

/// The shape of a request is told by its members: how many messages and tools there
/// are, how much output it wants, how it chooses tools, and whether it asks for JSON.
pub proof fn law_shapes(v: &serde_json::Value, r: Shape)
    requires
        call_ensures(crate::quality::shape, (v,), r),
    ensures
        shaped(json::contents(*v), r),
{
    lemma_choices_apart();
}

pub open spec fn shaped(t: Tree, r: Shape) -> bool {
    let messages = keeps(t, "messages"@) && under(t, "messages"@) is Array;
    let tools = keeps(t, "tools"@) && under(t, "tools"@) is Array;
    let chosen = keeps(t, "tool_choice"@);
    let choice = under(t, "tool_choice"@);
    let format = under(t, "response_format"@);
    &&& r.messages is Some <==> messages
    &&& messages ==> r.messages->0 == under(t, "messages"@)->Array_0.len()
    &&& tools ==> r.tools == under(t, "tools"@)->Array_0.len()
    &&& !tools ==> r.tools == 0
    &&& r.max_tokens is Some <==> keeps(t, "max_tokens"@) && under(t, "max_tokens"@) is UInt
    &&& r.max_tokens matches Some(n) ==> under(t, "max_tokens"@) == Tree::UInt(n)
    &&& r.tool_choice == Some(ToolChoice::Auto) <==> chosen && choice == Tree::Str("auto"@)
    &&& r.tool_choice == Some(ToolChoice::Never) <==> chosen && choice == Tree::Str("none"@)
    &&& r.tool_choice == Some(ToolChoice::Required) <==> chosen && choice == Tree::Str(
        "required"@,
    )
    &&& r.tool_choice == Some(ToolChoice::Named) <==> chosen && choice is Object
    &&& r.json_mode <==> keeps(t, "response_format"@) && keeps(format, "type"@) && (under(
        format,
        "type"@,
    ) == Tree::Str("json_object"@) || under(format, "type"@) == Tree::Str("json_schema"@))
}

proof fn lemma_choices_apart()
    ensures
        "auto"@ != "none"@,
        "auto"@ != "required"@,
        "none"@ != "required"@,
{
    reveal_strlit("auto");
    reveal_strlit("none");
    reveal_strlit("required");
    assert("auto"@[0] != "none"@[0]);
    assert("required"@.len() == 8);
}

/// The tool calls of a list that are begun in it: those that come with an id.
pub open spec fn calls_begun(calls: Seq<Tree>) -> nat {
    calls.filter(|c: Tree| keeps(c, "id"@)).len()
}

proof fn lemma_begun(calls: Seq<Tree>)
    ensures
        crate::quality::begun(calls) == calls_begun(calls),
    decreases calls.len(),
{
    reveal(Seq::filter);
    if calls.len() > 0 {
        lemma_begun(calls.drop_last());
        let f = |c: Tree| keeps(c, "id"@);
        assert(calls.filter(f).len() == calls.drop_last().filter(f).len() + if f(calls.last()) {
            1nat
        } else {
            0
        });
    }
}

/// What one choice adds: the calls that its part begins, and one to the way it ended.
pub open spec fn one_choice(before: Quality, after: Quality, choice: Tree, part: Seq<char>) -> bool {
    let inner = under(choice, part);
    let calls = if keeps(choice, part) && keeps(inner, "tool_calls"@) && under(
        inner,
        "tool_calls"@,
    ) is Array {
        calls_begun(under(inner, "tool_calls"@)->Array_0)
    } else {
        0
    };
    let ended = keeps(choice, "finish_reason"@) && under(choice, "finish_reason"@) is Str;
    let reason = under(choice, "finish_reason"@)->Str_0;
    let stop = ended && reason == "stop"@;
    let length = ended && reason == "length"@;
    let tool_calls = ended && reason == "tool_calls"@;
    let content_filter = ended && reason == "content_filter"@;
    let other = ended && !stop && !length && !tool_calls && !content_filter;
    &&& after.calls == countable(before.calls + calls)
    &&& after.stop == countable(before.stop + one_if(stop))
    &&& after.length == countable(before.length + one_if(length))
    &&& after.tool_calls_ended == countable(before.tool_calls_ended + one_if(tool_calls))
    &&& after.content_filter == countable(before.content_filter + one_if(content_filter))
    &&& after.other == countable(before.other + one_if(other))
    &&& after.reasoning == before.reasoning
}

pub open spec fn one_if(b: bool) -> int {
    if b {
        1
    } else {
        0
    }
}

/// A count, as long as there is room for it.
pub open spec fn countable(n: int) -> int {
    if n <= u64::MAX {
        n
    } else {
        u64::MAX as int
    }
}

/// A document with one choice adds what that choice adds; the reasoning tokens that it
/// reports take the place of what was reported before.
pub proof fn law_observing(q: &mut Quality, v: &serde_json::Value, part: &str, choice: Tree)
    requires
        call_ensures(Quality::observe, (q, v, part), ()),
        keeps(json::contents(*v), "choices"@),
        under(json::contents(*v), "choices"@) == Tree::Array(seq![choice]),
    ensures
        ({
            let t = json::contents(*v);
            let told = keeps(t, "usage"@) && keeps(
                under(t, "usage"@),
                "completion_tokens_details"@,
            ) && keeps(
                under(under(t, "usage"@), "completion_tokens_details"@),
                "reasoning_tokens"@,
            ) && under(
                under(under(t, "usage"@), "completion_tokens_details"@),
                "reasoning_tokens"@,
            ) is UInt;
            let n = under(
                under(under(t, "usage"@), "completion_tokens_details"@),
                "reasoning_tokens"@,
            )->UInt_0;
            &&& one_choice(
                *old(q),
                Quality { reasoning: old(q).reasoning, ..*final(q) },
                choice,
                part@,
            )
            &&& told ==> final(q).reasoning == Some(n)
            &&& !told ==> final(q).reasoning == old(q).reasoning
        }),
{
    let t = json::contents(*v);
    let choices = seq![choice];
    assert(choices.drop_last() =~= Seq::<Tree>::empty());
    reveal_with_fuel(Quality::with_choices, 2);
    assert(old(q).with_choices(choices, part@) == old(q).with_choice(choice, part@));
    let inner = under(choice, part@);
    if keeps(choice, part@) && keeps(inner, "tool_calls"@) && under(inner, "tool_calls"@) is Array {
        lemma_begun(under(inner, "tool_calls"@)->Array_0);
    }
    lemma_reasons_apart();
}

proof fn lemma_reasons_apart()
    ensures
        "stop"@.len() == 4,
        "length"@.len() == 6,
        "tool_calls"@.len() == 10,
        "content_filter"@.len() == 14,
{
    reveal_strlit("stop");
    reveal_strlit("length");
    reveal_strlit("tool_calls");
    reveal_strlit("content_filter");
}

/// Choices add up: a document with more of them is worth those before it and the last.
pub proof fn law_choices_add_up(
    p: &mut Quality,
    q: &mut Quality,
    r: &mut Quality,
    all: &serde_json::Value,
    front: &serde_json::Value,
    end: &serde_json::Value,
    part: &str,
    choices: Seq<Tree>,
    last: Tree,
)
    requires
        call_ensures(Quality::observe, (p, all, part), ()),
        call_ensures(Quality::observe, (q, front, part), ()),
        call_ensures(Quality::observe, (r, end, part), ()),
        *old(p) == *old(q),
        *final(q) == *old(r),
        json::contents(*all) == Tree::Object(
            Map::empty().insert("choices"@, Tree::Array(choices.push(last))),
        ),
        json::contents(*front) == Tree::Object(
            Map::empty().insert("choices"@, Tree::Array(choices)),
        ),
        json::contents(*end) == Tree::Object(
            Map::empty().insert("choices"@, Tree::Array(seq![last])),
        ),
    ensures
        *final(p) == *final(r),
{
    reveal_strlit("usage");
    reveal_strlit("choices");
    assert("usage"@.len() == 5 && "choices"@.len() == 7);
    assert(choices.push(last).drop_last() =~= choices);
    assert(seq![last].drop_last() =~= Seq::<Tree>::empty());
    reveal_with_fuel(Quality::with_choices, 2);
    assert(old(r).with_choices(seq![last], part@) == old(r).with_choice(last, part@));
}

/// A document without choices and without usage changes nothing.
pub proof fn law_nothing_to_observe(q: &mut Quality, v: &serde_json::Value, part: &str)
    requires
        call_ensures(Quality::observe, (q, v, part), ()),
        !(json::contents(*v) is Object) || (!keeps(json::contents(*v), "choices"@) && !keeps(
            json::contents(*v),
            "usage"@,
        )),
    ensures
        *final(q) == *old(q),
{
}

/// An answer that is handed on is assessed, as a message, where it is a success.
pub proof fn law_answers_are_assessed(
    status: u16,
    content_type: &Option<String>,
    bytes: &[u8],
    r: Relayed,
    v: &serde_json::Value,
    q: &mut Quality,
)
    requires
        call_ensures(proxy::relay, (status, content_type, Some(bytes)), r),
        json::reading(bytes@) == Ok::<Tree, Seq<char>>(json::contents(*v)),
        call_ensures(Quality::observe, (q, v, "message"), ()),
        *old(q) == (Quality {
            stop: 0,
            length: 0,
            tool_calls_ended: 0,
            content_filter: 0,
            other: 0,
            calls: 0,
            reasoning: None,
        }),
    ensures
        200 <= status <= 299 ==> (r matches Relayed::Passed { quality, .. } && quality == *final(q)),
        !(200 <= status <= 299) ==> (r matches Relayed::Passed { quality, .. } && quality == *old(
            q,
        )),
{
}

/// The usage of a document is what its `usage` says, count by count.
pub proof fn law_usage_of(v: &serde_json::Value, r: Option<Usage>)
    requires
        call_ensures(usage::usage_of, (v,), r),
    ensures
        r == crate::laws::requests::as_usage(
            crate::laws::requests::usage_told(json::contents(*v)),
        ),
{
}

/// A conversation that has no message of the user yet keeps to the lane of its model
/// and of the system prompt that it begins with, if it does.
pub proof fn law_affinity_before_the_user(body: &serde_json::Value, lanes: usize, r: Option<usize>)
    requires
        call_ensures(request::affinity, (body, lanes), r),
        lanes > 0,
        keeps(json::contents(*body), "messages"@),
        under(json::contents(*body), "messages"@) is Array,
        forall|i: int|
            0 <= i < under(json::contents(*body), "messages"@)->Array_0.len()
                ==> !crate::laws::requests::says(
                #[trigger] under(json::contents(*body), "messages"@)->Array_0[i],
                "user"@,
            ),
    ensures
        ({
            let t = json::contents(*body);
            let all = under(t, "messages"@)->Array_0;
            let model = if keeps(t, "model"@) && under(t, "model"@) is Str {
                under(t, "model"@)->Str_0
            } else {
                Seq::empty()
            };
            let heard = crate::laws::requests::hashed(model) + if all.len() > 0
                && crate::laws::requests::says(all[0], "system"@) {
                crate::laws::requests::hashed(json::rendering(all[0]))
            } else {
                Seq::empty()
            };
            r == Some((crate::laws::requests::hash_of(heard) as int % lanes as int) as usize)
        }),
{
    let t = json::contents(*body);
    let all = under(t, "messages"@)->Array_0;
    lemma_nobody(all, "user"@);
    reveal_with_fuel(request::hashed_messages, 2);
    let open = request::opening(all);
    let model = if keeps(t, "model"@) && under(t, "model"@) is Str {
        under(t, "model"@)->Str_0
    } else {
        Seq::empty()
    };
    if all.len() > 0 && crate::laws::requests::says(all[0], "system"@) {
        assert(open == seq![all[0]]);
        assert(open.drop_last() =~= Seq::<Tree>::empty());
        assert(request::hashed_messages(open) =~= crate::laws::requests::hashed(
            json::rendering(all[0]),
        ));
    } else {
        assert(open =~= Seq::<Tree>::empty());
    }
    assert(request::identity(t, all) =~= crate::laws::requests::hashed(model)
        + request::hashed_messages(open));
}

proof fn lemma_nobody(all: Seq<Tree>, role: Seq<char>)
    requires
        forall|i: int| 0 <= i < all.len() ==> !crate::laws::requests::says(#[trigger] all[i], role),
    ensures
        request::first_of(all, role) is None,
    decreases all.len(),
{
    if all.len() > 0 {
        assert(!crate::laws::requests::says(all[0], role));
        let rest = all.drop_first();
        assert forall|i: int| 0 <= i < rest.len() implies !crate::laws::requests::says(
            #[trigger] rest[i],
            role,
        ) by {
            assert(rest[i] == all[i + 1]);
        }
        lemma_nobody(rest, role);
    }
}

/// A plan keeps to the lane of its conversation, counts under the label of its model,
/// and tells the shape of its request.
pub proof fn law_plans_follow_the_body(
    v: serde_json::Value,
    same: &serde_json::Value,
    body: Vec<u8>,
    path: &str,
    strict: bool,
    no_inject: &Vec<String>,
    lanes: usize,
    p: Plan,
    lane: Option<usize>,
    model: &str,
    label: String,
)
    requires
        call_ensures(request::plan_parsed, (Some(v), body, path, strict, no_inject, lanes), p),
        *same == v,
        call_ensures(request::affinity, (same, lanes), lane),
        model@ == p.model@,
        call_ensures(crate::labels::sanitize_label, (model,), label),
    ensures
        p.prefer == lane,
        p.label@ == label@,
        p.shape matches Some(s) && shaped(json::contents(v), s),
        crate::laws::requests::planned(
            p,
            Some(json::contents(v)),
            body@,
            path@,
            strict,
            no_inject@,
            lanes,
        ),
{
    lemma_choices_apart();
    crate::laws::requests::lemma_planned(
        p,
        Some(json::contents(v)),
        body@,
        path@,
        strict,
        no_inject@,
        lanes,
    );
}

/// A body that is no JSON is sent as it came.
pub proof fn law_other_bodies(
    body: Vec<u8>,
    path: &str,
    strict: bool,
    no_inject: &Vec<String>,
    lanes: usize,
    p: Plan,
)
    requires
        call_ensures(
            request::plan_parsed,
            (None::<serde_json::Value>, body, path, strict, no_inject, lanes),
            p,
        ),
    ensures
        p.body@ == body@,
        p.fallback is None,
        p.model@ == "none"@,
        !p.wants_stream,
        p.prefer is None,
        p.shape is None,
{
}

proof fn lemma_unfinished(t: Seq<char>) -> (k: int)
    ensures
        0 <= k <= t.len(),
        sse::unfinished(t) == t.skip(k),
    decreases t.len(),
{
    let i = text::find(t, '\n');
    text::lemma_find(t, '\n');
    if i < t.len() {
        let k = lemma_unfinished(t.skip(i + 1));
        assert(t.skip(i + 1).skip(k) =~= t.skip(i + 1 + k));
        i + 1 + k
    } else {
        assert(t.skip(0) =~= t);
        0
    }
}

/// What a scan has seen does not depend on where its text was cut, short of lines that
/// are too long to be kept.
pub proof fn law_cuts_do_not_matter(
    p: &mut SseScan,
    q: &mut SseScan,
    r: &mut SseScan,
    whole: &str,
    a: &str,
    b: &str,
)
    requires
        call_ensures(SseScan::feed_text, (p, whole), ()),
        call_ensures(SseScan::feed_text, (q, a), ()),
        call_ensures(SseScan::feed_text, (r, b), ()),
        whole@ == a@ + b@,
        *old(p) == *old(q),
        *final(q) == *old(r),
        vstd::utf8::encode_utf8(old(q).buf@ + a@).len() <= 1_048_576,
    ensures
        final(p).events == final(r).events,
        final(p).prompt == final(r).prompt,
        final(p).completion == final(r).completion,
        final(p).quality == final(r).quality,
        final(p).buf@ == final(r).buf@,
{
    let first = old(q).buf@ + a@;
    let c = old(q).counts();
    let k = lemma_unfinished(first);
    let rest = sse::unfinished(first);
    assert(first =~= first.take(k) + rest);
    utf8::lemma_encode_concat(first.take(k), rest);
    assert(sse::kept(rest) == rest);
    sse::law_lines_are_reassembled(c, first, b@);
    assert(old(p).buf@ + whole@ =~= first + b@);
    assert(final(p).counts() == final(r).counts());
}

/// A line that is not finished is kept for what follows, up to a mebibyte of it, and is
/// dropped beyond that; by itself it counts for nothing.
pub proof fn law_unfinished_lines(s: &mut SseScan, piece: &str)
    requires
        call_ensures(SseScan::feed_text, (s, piece), ()),
        !(old(s).buf@ + piece@).contains('\n'),
    ensures
        vstd::utf8::encode_utf8(old(s).buf@ + piece@).len() <= 1_048_576 ==> final(s).buf@ == old(
            s,
        ).buf@ + piece@,
        vstd::utf8::encode_utf8(old(s).buf@ + piece@).len() > 1_048_576 ==> final(s).buf@.len()
            == 0,
        final(s).events == old(s).events,
        final(s).prompt == old(s).prompt,
        final(s).completion == old(s).completion,
        final(s).quality == old(s).quality,
{
    text::lemma_find(old(s).buf@ + piece@, '\n');
    assert(final(s).counts() == old(s).counts());
}

/// Bytes are scanned as the text that they are.
pub proof fn law_bytes_are_text(p: &mut SseScan, q: &mut SseScan, bytes: &[u8], piece: &str)
    requires
        call_ensures(SseScan::feed, (p, bytes), ()),
        call_ensures(SseScan::feed_text, (q, piece), ()),
        *old(p) == *old(q),
        bytes@ == vstd::utf8::encode_utf8(piece@),
    ensures
        final(p).events == final(q).events,
        final(p).prompt == final(q).prompt,
        final(p).completion == final(q).completion,
        final(p).quality == final(q).quality,
        final(p).buf@ == final(q).buf@,
{
    vstd::utf8::encode_utf8_decode_utf8(piece@);
    vstd::utf8::encode_utf8_valid_utf8(piece@);
    assert(final(p).counts() == final(q).counts());
}

/// The quality of a stream is that of its events, each observed as a change.
pub proof fn law_events_are_assessed(
    s: &mut SseScan,
    piece: &str,
    line: Seq<char>,
    data: Seq<char>,
    v: &serde_json::Value,
    q: &mut Quality,
)
    requires
        call_ensures(SseScan::feed_text, (s, piece), ()),
        old(s).buf@.len() == 0,
        !line.contains('\n'),
        crate::laws::requests::carries_data(line, data),
        data != "[DONE]"@,
        piece@ == line + "\n"@,
        json::reading(vstd::utf8::encode_utf8(data)) == Ok::<Tree, Seq<char>>(json::contents(*v)),
        call_ensures(Quality::observe, (q, v, "delta"), ()),
        *old(q) == old(s).quality,
    ensures
        final(s).quality == *final(q),
{
    crate::laws::requests::lemma_data_line(*old(s), line, data);
}

/// What the upstream sends is scanned on its way past, and changes nothing else.
pub proof fn law_chunks_are_scanned(
    s: &mut Stream,
    bytes: &[u8],
    now: Instant,
    a: stream::Action,
    q: &mut SseScan,
)
    requires
        call_ensures(Stream::on, (s, Event::Chunk(bytes), now), a),
        call_ensures(SseScan::feed, (q, bytes), ()),
        *old(q) == old(s).scan,
    ensures
        final(s).scan.events == final(q).events,
        final(s).scan.prompt == final(q).prompt,
        final(s).scan.completion == final(q).completion,
        final(s).scan.quality == final(q).quality,
        final(s).scan.buf@ == final(q).buf@,
        final(s).deadline == old(s).deadline,
        final(s).body == old(s).body,
        final(s).fallback == old(s).fallback,
{
    assert(final(s).scan.counts() == final(q).counts());
}

/// A stream whose last event before its end reports a completion count is recorded with
/// that count, whatever it reported before and however many events it had.
pub proof fn law_reported_usage_is_recorded(
    s: &mut Stream,
    r: &mut Stream,
    bytes: &[u8],
    line: Seq<char>,
    data: Seq<char>,
    doc: Tree,
    n: u64,
    now: Instant,
    later: Instant,
    a: stream::Action,
    b: stream::Action,
)
    requires
        call_ensures(Stream::on, (s, Event::Chunk(bytes), now), a),
        call_ensures(Stream::on, (r, Event::Ended, later), b),
        *old(r) == *final(s),
        old(s).scan.buf@.len() == 0,
        bytes@ == vstd::utf8::encode_utf8(line + "\n"@),
        !line.contains('\n'),
        crate::laws::requests::carries_data(line, data),
        data != "[DONE]"@,
        exists|x: Seq<char>, y: Seq<char>| data == #[trigger] (x + "\"usage\""@ + y),
        json::reading(vstd::utf8::encode_utf8(data)) == Ok::<Tree, Seq<char>>(doc),
        keeps(doc, "usage"@),
        keeps(under(doc, "usage"@), "completion_tokens"@),
        under(under(doc, "usage"@), "completion_tokens"@) == Tree::UInt(n),
    ensures
        b.next matches Next::Record { tokens: Some(t), .. } && t.completion == n && t.source@
            == "usage"@,
{
    let piece = line + "\n"@;
    vstd::utf8::encode_utf8_decode_utf8(piece);
    vstd::utf8::encode_utf8_valid_utf8(piece);
    crate::laws::requests::lemma_data_line(old(s).scan, line, data);
    crate::laws::requests::lemma_told(data);
    assert(usage::usage_reported(vstd::utf8::encode_utf8(data)) matches Some(u) && u.completion
        == Some(n));
    assert(final(s).scan.counts().completion == Some(n));
}

/// Without a completion count in any of its usage, a stream is recorded with the number
/// of its events.
pub proof fn law_events_stand_in(s: &mut Stream, now: Instant, b: stream::Action)
    requires
        call_ensures(Stream::on, (s, Event::Ended, now), b),
        old(s).scan.completion is None,
    ensures
        b.next matches Next::Record { tokens: Some(t), .. } && t.completion == old(s).scan.events
            && t.source@ == "estimate"@,
{
}

/// How tools are chosen has a name.
pub proof fn law_choice_labels(c: &ToolChoice, r: &'static str)
    requires
        call_ensures(ToolChoice::label, (c,), r),
    ensures
        r@ == match *c {
            ToolChoice::Auto => "auto"@,
            ToolChoice::Never => "none"@,
            ToolChoice::Required => "required"@,
            ToolChoice::Named => "named"@,
        },
{
}

/// A scan and a quality start with nothing.
pub proof fn law_fresh_starts(q: Quality)
    requires
        call_ensures(Quality::new, (), q),
    ensures
        q.stop == 0 && q.length == 0 && q.tool_calls_ended == 0 && q.content_filter == 0,
        q.other == 0 && q.calls == 0 && q.reasoning is None,
{
}

} // verus!

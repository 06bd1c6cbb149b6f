//! Server-sent events: watching a stream for its token usage and for how its
//! generations end.

use vstd::prelude::*;
use vstd::slice::slice_subrange;

use crate::json;
use crate::quality::Quality;
use crate::text;
use crate::usage::{usage_of, Usage};
use crate::utf8;

verus! {

/// A line longer than this many bytes is given up on.
pub const MAX_LINE_BYTES: usize = 1_048_576;

/// What a stream has shown so far.
#[derive(Clone, Copy, PartialEq, Eq, Debug)]
pub struct Counts {
    pub events: u64,
    pub prompt: Option<u64>,
    pub completion: Option<u64>,
    pub quality: Quality,
}

/// One or the other, the first if both are there.
pub open spec fn either(a: Option<u64>, b: Option<u64>) -> Option<u64> {
    match a {
        Some(x) => Some(x),
        None => b,
    }
}

impl Counts {
    /// One event more. The count stops at its largest value.
    pub open spec fn event(self) -> Counts {
        Counts {
            events: if self.events < u64::MAX {
                (self.events + 1) as u64
            } else {
                self.events
            },
            ..self
        }
    }

    /// Each reported count taking the place of an earlier one.
    pub open spec fn reported(self, usage: Option<Usage>) -> Counts {
        match usage {
            Some(u) => Counts {
                prompt: either(u.prompt, self.prompt),
                completion: either(u.completion, self.completion),
                ..self
            },
            None => self,
        }
    }

    /// What an event that holds `doc` shows of how a generation goes.
    pub open spec fn assessed(self, doc: Option<json::Tree>) -> Counts {
        match doc {
            Some(t) => Counts { quality: self.quality.with_document(t, "delta"@), ..self },
            None => self,
        }
    }

    /// The counts after the data of one event.
    pub open spec fn after_data(self, data: Seq<char>) -> Counts {
        let text = vstd::utf8::encode_utf8(data);
        if data == "[DONE]"@ {
            self
        } else if text::contains_text(data, "\"usage\""@) {
            self.event().assessed(json::document(text)).reported(
                crate::usage::usage_reported(text),
            )
        } else {
            self.event().assessed(json::document(text))
        }
    }

    /// The counts after one line.
    pub open spec fn after_line(self, line: Seq<char>) -> Counts {
        match text::after_prefix(text::trimmed(line), "data:"@) {
            Some(data) => self.after_data(text::trimmed_start(data)),
            None => self,
        }
    }

    /// The counts after the complete lines of a text.
    pub open spec fn after_text(self, t: Seq<char>) -> Counts
        decreases t.len(),
    {
        let i = text::find(t, '\n');
        if i < t.len() {
            proof {
                text::lemma_find(t, '\n');
            }
            self.after_line(t.take(i + 1)).after_text(t.skip(i + 1))
        } else {
            self
        }
    }
}

/// What stands after the last line break of a text.
pub open spec fn unfinished(t: Seq<char>) -> Seq<char>
    decreases t.len(),
{
    let i = text::find(t, '\n');
    if i < t.len() {
        proof {
            text::lemma_find(t, '\n');
        }
        unfinished(t.skip(i + 1))
    } else {
        t
    }
}

/// What is kept of an unfinished line: all of it, unless it is too long.
pub open spec fn kept(rest: Seq<char>) -> Seq<char> {
    if vstd::utf8::encode_utf8(rest).len() > MAX_LINE_BYTES {
        Seq::empty()
    } else {
        rest
    }
}

/// Watches an SSE byte stream for the `usage` object and counts data events
/// (a rough one-token-per-event estimate when the upstream omits usage).
/// Purely observational: bytes reach the client untouched.
pub struct SseScan {
    pub buf: String,
    pub events: u64,
    pub prompt: Option<u64>,
    pub completion: Option<u64>,
    pub quality: Quality,
}

impl SseScan {
    /// The start of a line not yet finished.
    pub open spec fn pending(&self) -> Seq<char> {
        self.buf@
    }

    /// What the stream has shown so far.
    pub open spec fn counts(&self) -> Counts {
        Counts {
            events: self.events,
            prompt: self.prompt,
            completion: self.completion,
            quality: self.quality,
        }
    }

    fn feed_data(&mut self, data: &str)
        ensures
            final(self).pending() == old(self).pending(),
            final(self).counts() == old(self).counts().after_data(data@),
    {
        if text::same(data, "[DONE]") {
            return;
        }
        if self.events < u64::MAX {
            self.events = self.events + 1;
        }
        let v = match json::parse(data.as_bytes()) {
            Some(v) => v,
            None => return,
        };
        self.quality.observe(&v, "delta");
        if text::contains(data, "\"usage\"") {
            if let Some(u) = usage_of(&v) {
                if u.prompt.is_some() {
                    self.prompt = u.prompt;
                }
                if u.completion.is_some() {
                    self.completion = u.completion;
                }
            }
        }
    }

    fn feed_line(&mut self, line: &str)
        ensures
            final(self).pending() == old(self).pending(),
            final(self).counts() == old(self).counts().after_line(line@),
    {
        let line = text::trim(line);
        if let Some(data) = text::strip_prefix(line.as_str(), "data:") {
            let data = text::trim_start(data.as_str());
            self.feed_data(data.as_str());
        }
    }

    /// Watch the next piece of the stream's text.
    pub fn feed_text(&mut self, piece: &str)
        ensures
            final(self).counts() == old(self).counts().after_text(old(self).pending() + piece@),
            final(self).pending() == kept(unfinished(old(self).pending() + piece@)),
    {
        let ghost before = self.counts();
        self.buf.append(piece);
        let ghost all = self.buf@;
        let cs = text::chars(self.buf.as_str());
        let mut start: usize = 0;
        assert(all.skip(0) =~= all);
        loop
            invariant
                all == old(self).pending() + piece@,
                before == old(self).counts(),
                cs@ == all,
                start <= cs@.len(),
                self.counts().after_text(all.skip(start as int)) == before.after_text(all),
                unfinished(all.skip(start as int)) == unfinished(all),
            ensures
                self.counts() == before.after_text(all),
                self.pending() == unfinished(all),
            decreases cs.len() - start,
        {
            let ghost rest = all.skip(start as int);
            proof {
                text::lemma_find(rest, '\n');
            }
            let i = text::find_from(&cs, start, '\n');
            if i == cs.len() {
                self.buf = text::text(slice_subrange(&cs, start, i));
                assert(self.buf@ =~= rest);
                break;
            }
            let line = text::text(slice_subrange(&cs, start, i + 1));
            assert(line@ =~= rest.take(i - start + 1));
            assert(rest.skip(i - start + 1) =~= all.skip(i as int + 1));
            self.feed_line(line.as_str());
            start = i + 1;
        }
        // Guard against a pathological never-terminated line.
        if self.buf.as_str().as_bytes().len() > MAX_LINE_BYTES {
            self.buf = String::new();
        }
    }

    /// Watch the next bytes of the stream.
    pub fn feed(&mut self, bytes: &[u8])
        ensures
            final(self).counts() == old(self).counts().after_text(
                old(self).pending() + utf8::lossy_text(bytes@),
            ),
            final(self).pending() == kept(
                unfinished(old(self).pending() + utf8::lossy_text(bytes@)),
            ),
    {
        let piece = utf8::from_utf8_lossy(bytes);
        self.feed_text(piece.as_str());
    }
}

impl Default for SseScan {
    fn default() -> (r: Self)
        ensures
            r.pending() == Seq::<char>::empty(),
            r.counts() == (Counts {
                events: 0,
                prompt: None,
                completion: None,
                quality: Quality::nothing(),
            }),
    {
        SseScan {
            buf: String::new(),
            events: 0,
            prompt: None,
            completion: None,
            quality: Quality::new(),
        }
    }
}

/// Comment lines are not events: a line that starts with a colon, as those do
/// that keep a waiting client's connection open, changes no count.
pub proof fn law_comments_do_not_count(c: Counts, line: Seq<char>)
    requires
        text::trimmed(line).len() > 0,
        text::trimmed(line)[0] == ':',
    ensures
        c.after_line(line) == c,
{
    let t = text::trimmed(line);
    reveal_strlit("data:");
    if text::stands_at(t, "data:"@, 0) {
        assert(t.subrange(0, 5)[0] == "data:"@[0]);
    }
}

/// How a stream's text is cut up does not matter: read in two pieces, the rest
/// of the first put before the second, it shows what it shows read in one.
pub proof fn law_lines_are_reassembled(c: Counts, x: Seq<char>, y: Seq<char>)
    ensures
        c.after_text(x + y) == c.after_text(x).after_text(unfinished(x) + y),
        unfinished(x + y) == unfinished(unfinished(x) + y),
    decreases x.len(),
{
    let i = text::find(x, '\n');
    text::lemma_find(x, '\n');
    if i < x.len() {
        let all = x + y;
        assert forall|j: int| 0 <= j < i implies #[trigger] all[j] != '\n' by {
            assert(all[j] == x[j]);
        }
        text::lemma_find_is(all, '\n', i);
        assert(all.take(i + 1) =~= x.take(i + 1));
        assert(all.skip(i + 1) =~= x.skip(i + 1) + y);
        law_lines_are_reassembled(c.after_line(x.take(i + 1)), x.skip(i + 1), y);
    }
}

/// How a stream's bytes are cut up does not matter, as long as no character is
/// cut in two and no line is given up on: the pieces read one after the other
/// show what they show read as one.
pub proof fn law_chunks_are_reassembled(c: Counts, pending: Seq<char>, a: Seq<u8>, b: Seq<u8>)
    requires
        vstd::utf8::valid_utf8(a),
        vstd::utf8::valid_utf8(b),
        kept(unfinished(pending + utf8::lossy_text(a))) == unfinished(
            pending + utf8::lossy_text(a),
        ),
    ensures
        ({
            let first = pending + utf8::lossy_text(a);
            let second = kept(unfinished(first)) + utf8::lossy_text(b);
            let whole = pending + utf8::lossy_text(a + b);
            &&& c.after_text(first).after_text(second) == c.after_text(whole)
            &&& kept(unfinished(second)) == kept(unfinished(whole))
        }),
{
    let x = vstd::utf8::decode_utf8(a);
    let y = vstd::utf8::decode_utf8(b);
    utf8::lemma_decode_concat(a, b);
    law_lines_are_reassembled(c, pending + x, y);
    assert(pending + x + y =~= pending + (x + y));
}

} // verus!

//! Metric labels made from what clients send: a safe charset, a bounded length
//! and a bounded number of them, so that no client can break the exposition
//! format, forge a log line or make the registry grow without end.

use vstd::prelude::*;

use crate::text;

verus! {

/// The longest label, in characters.
pub const MAX_LABEL_LEN: usize = 64;

/// The most labels of one sort.
pub const MAX_LABELS: usize = 256;

/// The characters that a label may hold.
pub open spec fn safe(c: char) -> bool {
    ||| 'a' <= c && c <= 'z'
    ||| 'A' <= c && c <= 'Z'
    ||| '0' <= c && c <= '9'
    ||| c == '.'
    ||| c == '_'
    ||| c == '/'
    ||| c == ':'
    ||| c == '-'
}

fn is_safe(c: char) -> (r: bool)
    ensures
        r == safe(c),
{
    ('a' <= c && c <= 'z') || ('A' <= c && c <= 'Z') || ('0' <= c && c <= '9') || c == '.' || c
        == '_' || c == '/' || c == ':' || c == '-'
}

/// The first `n`, or all if there are fewer.
pub open spec fn at_most(s: Seq<char>, n: int) -> Seq<char> {
    if s.len() <= n {
        s
    } else {
        s.take(n)
    }
}

/// The safe characters of a text, as many as a label may have.
pub open spec fn sanitized(s: Seq<char>) -> Seq<char> {
    at_most(s.filter(|c: char| safe(c)), MAX_LABEL_LEN as int)
}

/// Make a label of a text that a client sent.
pub fn sanitize_label(s: &str) -> (r: String)
    ensures
        r@ == sanitized(s@),
        r@.len() <= MAX_LABEL_LEN,
        forall|i: int| 0 <= i < r@.len() ==> safe(#[trigger] r@[i]),
{
    let cs = text::chars(s);
    let mut out: Vec<char> = Vec::new();
    let mut i: usize = 0;
    let ghost f = |c: char| safe(c);
    proof {
        reveal(Seq::filter);
        assert(s@.take(0) =~= Seq::<char>::empty());
    }
    while i < cs.len()
        invariant
            f == (|c: char| safe(c)),
            cs@ == s@,
            i <= cs@.len(),
            out@ == at_most(s@.take(i as int).filter(f), MAX_LABEL_LEN as int),
            forall|k: int| 0 <= k < out@.len() ==> safe(#[trigger] out@[k]),
        decreases cs.len() - i,
    {
        let ghost before = s@.take(i as int).filter(f);
        proof {
            reveal(Seq::filter);
            assert(s@.take(i as int + 1).drop_last() =~= s@.take(i as int));
        }
        let c = cs[i];
        if is_safe(c) {
            assert(f(c));
            assert(s@.take(i as int + 1).filter(f) == before.push(c));
            if out.len() < MAX_LABEL_LEN {
                out.push(c);
            } else {
                assert(before.push(c).take(MAX_LABEL_LEN as int) =~= before.take(
                    MAX_LABEL_LEN as int,
                ));
                assert(before.len() == MAX_LABEL_LEN ==> before.take(MAX_LABEL_LEN as int)
                    =~= before);
            }
        } else {
            assert(!f(c));
        }
        i += 1;
    }
    assert(s@.take(i as int) =~= s@);
    text::text(&out)
}

/// The label under which a text is counted when `seen` are already in use.
pub open spec fn bounded(seen: Seq<Seq<char>>, label: Seq<char>) -> Seq<char> {
    if seen.contains(label) || seen.len() < MAX_LABELS {
        label
    } else {
        "other"@
    }
}

/// The labels in use after one more was asked for.
pub open spec fn seen_after(seen: Seq<Seq<char>>, label: Seq<char>) -> Seq<Seq<char>> {
    if !seen.contains(label) && seen.len() < MAX_LABELS {
        seen.push(label)
    } else {
        seen
    }
}

/// Whether a list of texts holds one.
pub fn listed(list: &Vec<String>, s: &str) -> (r: bool)
    ensures
        r == text::views(list@).contains(s@),
{
    let ghost all = text::views(list@);
    let mut i: usize = 0;
    while i < list.len()
        invariant
            all == text::views(list@),
            i <= list@.len(),
            forall|k: int| 0 <= k < i ==> #[trigger] all[k] != s@,
        decreases list.len() - i,
    {
        assert(all[i as int] == list@[i as int]@);
        if text::same(list[i].as_str(), s) {
            assert(all.contains(s@));
            return true;
        }
        i += 1;
    }
    false
}

/// Count a label among at most [`MAX_LABELS`]; past that it is "other".
pub fn bounded_label(seen: &mut Vec<String>, label: &str) -> (r: String)
    ensures
        r@ == bounded(text::views(old(seen)@), label@),
        text::views(final(seen)@) == seen_after(text::views(old(seen)@), label@),
{
    if listed(seen, label) {
        return label.to_owned();
    }
    if seen.len() < MAX_LABELS {
        let ghost before = text::views(seen@);
        seen.push(label.to_owned());
        assert(text::views(seen@) =~= before.push(label@));
        return label.to_owned();
    }
    "other".to_owned()
}

/// The label of a request path: one of the endpoints that are known.
pub open spec fn path_label(path: Seq<char>) -> Seq<char> {
    if path == "/v1/chat/completions"@ || path == "/v1/models"@ {
        path
    } else {
        "other"@
    }
}

pub fn label_path(path: &str) -> (r: &'static str)
    ensures
        r@ == path_label(path@),
{
    if text::same(path, "/v1/chat/completions") {
        "/v1/chat/completions"
    } else if text::same(path, "/v1/models") {
        "/v1/models"
    } else {
        "other"
    }
}

/// Sanitizing a label again changes nothing.
pub proof fn law_labels_stay(s: Seq<char>)
    ensures
        sanitized(sanitized(s)) == sanitized(s),
{
    broadcast use vstd::seq_lib::group_filter_ensures;

    let f = |c: char| safe(c);
    let once = s.filter(f);
    let label = sanitized(s);
    assert forall|i: int| 0 <= i < label.len() implies f(#[trigger] label[i]) by {
        assert(label[i] == once[i]);
        assert(f(once[i]));
    }
    lemma_all_pass(label, f);
}

proof fn lemma_all_pass(s: Seq<char>, f: spec_fn(char) -> bool)
    requires
        forall|i: int| 0 <= i < s.len() ==> f(#[trigger] s[i]),
    ensures
        s.filter(f) == s,
    decreases s.len(),
{
    reveal(Seq::filter);
    if s.len() > 0 {
        let rest = s.drop_last();
        assert forall|i: int| 0 <= i < rest.len() implies f(#[trigger] rest[i]) by {
            assert(rest[i] == s[i]);
        }
        lemma_all_pass(rest, f);
        assert(f(s[s.len() - 1]));
        assert(s.filter(f) =~= s);
    }
}

/// However many different labels are asked for, no more than [`MAX_LABELS`] and
/// "other" are ever given out, and a label once given stays the same.
pub proof fn law_labels_are_bounded(seen: Seq<Seq<char>>, label: Seq<char>, next: Seq<char>)
    requires
        seen.len() <= MAX_LABELS,
    ensures
        seen_after(seen, label).len() <= MAX_LABELS,
        seen_after(seen, label).contains(bounded(seen, label)) || bounded(seen, label)
            == "other"@,
        bounded(seen, label) == label ==> bounded(
            seen_after(seen_after(seen, label), next),
            label,
        ) == label,
{
    let one = seen_after(seen, label);
    let two = seen_after(one, next);
    if !seen.contains(label) && seen.len() < MAX_LABELS {
        assert(one[seen.len() as int] == label);
        assert(one.contains(label));
    }
    if one.contains(label) {
        let k = choose|k: int| 0 <= k < one.len() && one[k] == label;
        assert(two[k] == label);
        assert(two.contains(label));
    }
}

/// A label is no longer than it may be.
pub proof fn lemma_sanitized_len(s: Seq<char>)
    ensures
        sanitized(s).len() <= MAX_LABEL_LEN,
{
}

/// A label holds only what labels may hold.
pub proof fn lemma_sanitized_safe(s: Seq<char>)
    ensures
        forall|i: int| 0 <= i < sanitized(s).len() ==> safe(#[trigger] sanitized(s)[i]),
{
    broadcast use vstd::seq_lib::group_filter_ensures;

    let f = |c: char| safe(c);
    let kept = s.filter(f);
    assert forall|i: int| 0 <= i < sanitized(s).len() implies safe(#[trigger] sanitized(s)[i]) by {
        assert(sanitized(s)[i] == kept[i]);
        assert(f(kept[i]));
    }
}

} // verus!

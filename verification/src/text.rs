//! Reading text character by character: splitting, trimming and searching,
//! each with the row of characters it yields.

use vstd::prelude::*;
use vstd::slice::slice_subrange;

verus! {

/// `String::push`: the character is appended, and nothing else changes.
pub assume_specification[ String::push ](s: &mut String, c: char)
    ensures
        final(s)@ == old(s)@.push(c),
;

/// The characters of a text.
pub fn chars(s: &str) -> (r: Vec<char>)
    ensures
        r@ == s@,
{
    let mut out: Vec<char> = Vec::new();
    for c in it: s.chars()
        invariant
            it.seq() == s@,
            out@ == s@.take(it.index()),
    {
        out.push(c);
        assert(s@.take(it.index() + 1) =~= s@.take(it.index()).push(c));
    }
    assert(s@.take(s@.len() as int) =~= s@);
    out
}

/// The text of a row of characters.
pub fn text(cs: &[char]) -> (r: String)
    ensures
        r@ == cs@,
{
    let mut out = String::new();
    let mut i: usize = 0;
    while i < cs.len()
        invariant
            i <= cs.len(),
            out@ == cs@.take(i as int),
        decreases cs.len() - i,
    {
        out.push(cs[i]);
        assert(cs@.take(i as int + 1) =~= cs@.take(i as int).push(cs@[i as int]));
        i += 1;
    }
    assert(cs@.take(i as int) =~= cs@);
    out
}

/// The first place where `c` stands in `s`, or the length of `s` if nowhere.
pub open spec fn find(s: Seq<char>, c: char) -> int
    decreases s.len(),
{
    if s.len() == 0 || s[0] == c {
        0
    } else {
        1 + find(s.drop_first(), c)
    }
}

/// `find` is the first place, if there is one.
pub proof fn lemma_find(s: Seq<char>, c: char)
    ensures
        0 <= find(s, c) <= s.len(),
        find(s, c) < s.len() ==> s[find(s, c)] == c,
        forall|i: int| 0 <= i < find(s, c) ==> #[trigger] s[i] != c,
        find(s, c) < s.len() <==> s.contains(c),
    decreases s.len(),
{
    if s.len() > 0 && s[0] != c {
        let rest = s.drop_first();
        lemma_find(rest, c);
        assert forall|i: int| 0 <= i < find(s, c) implies #[trigger] s[i] != c by {
            if i > 0 {
                assert(rest[i - 1] == s[i]);
            }
        }
        if s.contains(c) {
            let w = choose|w: int| 0 <= w < s.len() && s[w] == c;
            assert(rest[w - 1] == c);
        }
    }
    if s.len() > 0 && s[0] == c {
        assert(s.contains(c));
    }
}

/// `find` is the only first place.
pub proof fn lemma_find_is(s: Seq<char>, c: char, p: int)
    requires
        0 <= p <= s.len(),
        p < s.len() ==> s[p] == c,
        forall|i: int| 0 <= i < p ==> #[trigger] s[i] != c,
    ensures
        find(s, c) == p,
{
    lemma_find(s, c);
    let f = find(s, c);
    if f < p {
        assert(s[f] != c);
    } else if p < f {
        assert(s[p] != c);
    }
}

/// The first place of `c` at or after `start`.
pub fn find_from(cs: &[char], start: usize, c: char) -> (r: usize)
    requires
        start <= cs@.len(),
    ensures
        start <= r <= cs@.len(),
        r == start + find(cs@.skip(start as int), c),
{
    let mut i: usize = start;
    while i < cs.len()
        invariant
            start <= i <= cs@.len(),
            forall|j: int| start <= j < i ==> #[trigger] cs@[j] != c,
        decreases cs.len() - i,
    {
        if cs[i] == c {
            proof {
                lemma_find_is(cs@.skip(start as int), c, i - start);
            }
            return i;
        }
        i += 1;
    }
    proof {
        lemma_find_is(cs@.skip(start as int), c, i - start);
    }
    i
}

/// The parts before and after the first `c`.
pub open spec fn split_once_at(s: Seq<char>, c: char) -> Option<(Seq<char>, Seq<char>)> {
    let i = find(s, c);
    if i < s.len() {
        Some((s.take(i), s.skip(i + 1)))
    } else {
        None
    }
}

/// Split at the first `c`, if there is one.
pub fn split_once(s: &str, c: char) -> (r: Option<(String, String)>)
    ensures
        match r {
            Some((a, b)) => split_once_at(s@, c) == Some((a@, b@)),
            None => split_once_at(s@, c) is None,
        },
{
    let cs = chars(s);
    let i = find_from(&cs, 0, c);
    assert(cs@.skip(0) =~= cs@);
    if i < cs.len() {
        let a = text(slice_subrange(&cs, 0, i));
        let b = text(slice_subrange(&cs, i + 1, cs.len()));
        assert(a@ =~= s@.take(i as int));
        assert(b@ =~= s@.skip(i as int + 1));
        Some((a, b))
    } else {
        None
    }
}

/// The parts between the `sep`s, empty ones included.
pub open spec fn split_at_each(s: Seq<char>, sep: char) -> Seq<Seq<char>>
    decreases s.len(),
{
    let i = find(s, sep);
    if i < s.len() {
        proof {
            lemma_find(s, sep);
        }
        seq![s.take(i)] + split_at_each(s.skip(i + 1), sep)
    } else {
        seq![s]
    }
}

/// The rows of characters that a list of texts holds.
pub open spec fn views(v: Seq<String>) -> Seq<Seq<char>> {
    v.map_values(|s: String| s@)
}

/// Split at every `sep`.
pub fn split(s: &str, sep: char) -> (r: Vec<String>)
    ensures
        views(r@) == split_at_each(s@, sep),
{
    let cs = chars(s);
    let mut out: Vec<String> = Vec::new();
    let mut start: usize = 0;
    assert(s@.skip(0) =~= s@);
    assert(views(out@) =~= Seq::<Seq<char>>::empty());
    loop
        invariant
            cs@ == s@,
            start <= cs@.len(),
            views(out@) + split_at_each(s@.skip(start as int), sep) == split_at_each(s@, sep),
        decreases cs.len() - start,
    {
        let ghost rest = s@.skip(start as int);
        proof {
            lemma_find(rest, sep);
        }
        let i = find_from(&cs, start, sep);
        let part = text(slice_subrange(&cs, start, i));
        let ghost before = out@;
        assert(part@ =~= rest.take(i - start));
        out.push(part);
        assert(views(out@) =~= views(before).push(part@));
        if i == cs.len() {
            assert(rest.take(i - start) =~= rest);
            assert(views(out@) =~= views(before) + split_at_each(rest, sep));
            return out;
        }
        assert(rest.skip(i - start + 1) =~= s@.skip(i as int + 1));
        assert(views(out@) + split_at_each(s@.skip(i as int + 1), sep) =~= views(before)
            + split_at_each(rest, sep));
        start = i + 1;
    }
}

/// What stands before the first `sep` is the first part.
pub proof fn lemma_split_joined(s: Seq<char>, sep: char, t: Seq<char>)
    requires
        !s.contains(sep),
    ensures
        split_at_each(s + seq![sep] + t, sep) == seq![s] + split_at_each(t, sep),
        split_once_at(s + seq![sep] + t, sep) == Some((s, t)),
{
    let all = s + seq![sep] + t;
    assert forall|i: int| 0 <= i < s.len() implies #[trigger] all[i] != sep by {
        assert(all[i] == s[i]);
        assert(s.contains(s[i]));
    }
    assert(all[s.len() as int] == sep);
    lemma_find_is(all, sep, s.len() as int);
    assert(all.take(s.len() as int) =~= s);
    assert(all.skip(s.len() as int + 1) =~= t);
}

/// A text without a `sep` is one part.
pub proof fn lemma_split_single(s: Seq<char>, sep: char)
    requires
        !s.contains(sep),
    ensures
        split_at_each(s, sep) == seq![s],
{
    lemma_find(s, sep);
}

/// The characters that Unicode calls white space.
pub open spec fn is_space(c: char) -> bool {
    ||| 0x09 <= c as u32 <= 0x0d
    ||| c as u32 == 0x20
    ||| c as u32 == 0x85
    ||| c as u32 == 0xa0
    ||| c as u32 == 0x1680
    ||| 0x2000 <= c as u32 <= 0x200a
    ||| c as u32 == 0x2028
    ||| c as u32 == 0x2029
    ||| c as u32 == 0x202f
    ||| c as u32 == 0x205f
    ||| c as u32 == 0x3000
}

fn space(c: char) -> (r: bool)
    ensures
        r == is_space(c),
{
    let u: u32 = c as u32;
    (0x09 <= u && u <= 0x0d) || u == 0x20 || u == 0x85 || u == 0xa0 || u == 0x1680 || (0x2000 <= u
        && u <= 0x200a) || u == 0x2028 || u == 0x2029 || u == 0x202f || u == 0x205f || u == 0x3000
}

pub open spec fn trimmed_start(s: Seq<char>) -> Seq<char>
    decreases s.len(),
{
    if s.len() > 0 && is_space(s[0]) {
        trimmed_start(s.drop_first())
    } else {
        s
    }
}

pub open spec fn trimmed_end(s: Seq<char>) -> Seq<char>
    decreases s.len(),
{
    if s.len() > 0 && is_space(s.last()) {
        trimmed_end(s.drop_last())
    } else {
        s
    }
}

/// `s` without the white space at either end.
pub open spec fn trimmed(s: Seq<char>) -> Seq<char> {
    trimmed_end(trimmed_start(s))
}

fn skip_space(cs: &[char]) -> (r: usize)
    ensures
        r <= cs@.len(),
        cs@.skip(r as int) == trimmed_start(cs@),
{
    let mut i: usize = 0;
    assert(cs@.skip(0) =~= cs@);
    while i < cs.len() && space(cs[i])
        invariant
            i <= cs@.len(),
            trimmed_start(cs@.skip(i as int)) == trimmed_start(cs@),
        decreases cs.len() - i,
    {
        assert(cs@.skip(i as int).drop_first() =~= cs@.skip(i as int + 1));
        i += 1;
    }
    i
}

fn drop_space(cs: &[char]) -> (r: usize)
    ensures
        r <= cs@.len(),
        cs@.take(r as int) == trimmed_end(cs@),
{
    let mut i: usize = cs.len();
    assert(cs@.take(i as int) =~= cs@);
    while i > 0 && space(cs[i - 1])
        invariant
            i <= cs@.len(),
            trimmed_end(cs@.take(i as int)) == trimmed_end(cs@),
        decreases i,
    {
        assert(cs@.take(i as int).drop_last() =~= cs@.take(i as int - 1));
        i -= 1;
    }
    i
}

pub fn trim_start(s: &str) -> (r: String)
    ensures
        r@ == trimmed_start(s@),
{
    let cs = chars(s);
    let i = skip_space(&cs);
    let r = text(slice_subrange(&cs, i, cs.len()));
    assert(r@ =~= cs@.skip(i as int));
    r
}

pub fn trim(s: &str) -> (r: String)
    ensures
        r@ == trimmed(s@),
{
    let cs = chars(s);
    let i = skip_space(&cs);
    let rest = slice_subrange(&cs, i, cs.len());
    assert(rest@ =~= cs@.skip(i as int));
    let j = drop_space(rest);
    let r = text(slice_subrange(rest, 0, j));
    assert(r@ =~= rest@.take(j as int));
    r
}

/// `s` without the `c`s it ends in.
pub open spec fn without_trailing(s: Seq<char>, c: char) -> Seq<char>
    decreases s.len(),
{
    if s.len() > 0 && s.last() == c {
        without_trailing(s.drop_last(), c)
    } else {
        s
    }
}

pub fn trim_end_matches(s: &str, c: char) -> (r: String)
    ensures
        r@ == without_trailing(s@, c),
{
    let cs = chars(s);
    let mut i: usize = cs.len();
    assert(cs@.take(i as int) =~= cs@);
    while i > 0 && cs[i - 1] == c
        invariant
            i <= cs@.len(),
            without_trailing(cs@.take(i as int), c) == without_trailing(cs@, c),
        decreases i,
    {
        assert(cs@.take(i as int).drop_last() =~= cs@.take(i as int - 1));
        i -= 1;
    }
    let r = text(slice_subrange(&cs, 0, i));
    assert(r@ =~= cs@.take(i as int));
    r
}

/// `p` stands in `s` at place `i`.
pub open spec fn stands_at(s: Seq<char>, p: Seq<char>, i: int) -> bool {
    0 <= i && i + p.len() <= s.len() && s.subrange(i, i + p.len()) == p
}

/// What follows the prefix `p`, if `s` starts with it.
pub open spec fn after_prefix(s: Seq<char>, p: Seq<char>) -> Option<Seq<char>> {
    if stands_at(s, p, 0) {
        Some(s.skip(p.len() as int))
    } else {
        None
    }
}

/// `p` stands somewhere in `s`.
pub open spec fn contains_text(s: Seq<char>, p: Seq<char>) -> bool {
    exists|i: int| stands_at(s, p, i)
}

fn matches_at(cs: &[char], p: &[char], at: usize) -> (r: bool)
    requires
        at + p@.len() <= cs@.len(),
    ensures
        r == stands_at(cs@, p@, at as int),
{
    let n = cs.len();
    let mut j: usize = 0;
    while j < p.len()
        invariant
            n == cs@.len(),
            at + p@.len() <= cs@.len(),
            j <= p@.len(),
            forall|k: int| 0 <= k < j ==> cs@[at + k] == #[trigger] p@[k],
        decreases p.len() - j,
    {
        if cs[at + j] != p[j] {
            assert(cs@.subrange(at as int, at + p@.len())[j as int] == cs@[at + j]);
            return false;
        }
        j += 1;
    }
    assert(cs@.subrange(at as int, at + p@.len()) =~= p@);
    true
}

pub fn strip_prefix(s: &str, p: &str) -> (r: Option<String>)
    ensures
        match r {
            Some(t) => after_prefix(s@, p@) == Some(t@),
            None => after_prefix(s@, p@) is None,
        },
{
    let cs = chars(s);
    let ps = chars(p);
    if ps.len() <= cs.len() && matches_at(&cs, &ps, 0) {
        let r = text(slice_subrange(&cs, ps.len(), cs.len()));
        assert(r@ =~= cs@.skip(ps@.len() as int));
        Some(r)
    } else {
        None
    }
}

pub fn contains(s: &str, p: &str) -> (r: bool)
    ensures
        r == contains_text(s@, p@),
{
    let cs = chars(s);
    let ps = chars(p);
    let mut i: usize = 0;
    while i <= cs.len() && ps.len() <= cs.len() - i
        invariant
            cs@ == s@,
            ps@ == p@,
            i <= cs@.len() + 1,
            forall|k: int| 0 <= k < i ==> !stands_at(cs@, ps@, k),
        decreases cs.len() + 1 - i,
    {
        if matches_at(&cs, &ps, i) {
            assert(stands_at(cs@, ps@, i as int));
            return true;
        }
        if i == cs.len() {
            assert(forall|k: int| !stands_at(cs@, ps@, k));
            return false;
        }
        i += 1;
    }
    assert(forall|k: int| !stands_at(cs@, ps@, k));
    false
}

/// The code of a character, an ASCII capital taken as its small letter.
pub open spec fn folded(c: char) -> u32 {
    if 'A' <= c && c <= 'Z' {
        (c as u32 + 32) as u32
    } else {
        c as u32
    }
}

fn fold(c: char) -> (r: u32)
    ensures
        r == folded(c),
{
    let u: u32 = c as u32;
    if 0x41 <= u && u <= 0x5a {
        u + 32
    } else {
        u
    }
}

/// Equal but for ASCII case.
pub open spec fn same_ignoring_case(a: Seq<char>, b: Seq<char>) -> bool {
    a.len() == b.len() && forall|i: int|
        0 <= i < a.len() ==> folded(#[trigger] a[i]) == folded(b[i])
}

pub fn eq_ignore_ascii_case(a: &str, b: &str) -> (r: bool)
    ensures
        r == same_ignoring_case(a@, b@),
{
    let x = chars(a);
    let y = chars(b);
    if x.len() != y.len() {
        return false;
    }
    let mut i: usize = 0;
    while i < x.len()
        invariant
            x@ == a@,
            y@ == b@,
            x@.len() == y@.len(),
            i <= x@.len(),
            forall|k: int| 0 <= k < i ==> folded(#[trigger] x@[k]) == folded(y@[k]),
        decreases x.len() - i,
    {
        if fold(x[i]) != fold(y[i]) {
            assert(folded(x@[i as int]) != folded(y@[i as int]));
            return false;
        }
        i += 1;
    }
    true
}

/// `s` with every `from` turned into `to`.
pub open spec fn replaced(s: Seq<char>, from: char, to: char) -> Seq<char> {
    Seq::new(
        s.len(),
        |i: int|
            if s[i] == from {
                to
            } else {
                s[i]
            },
    )
}

pub fn replace(s: &str, from: char, to: char) -> (r: String)
    ensures
        r@ == replaced(s@, from, to),
{
    let cs = chars(s);
    let mut out = String::new();
    let mut i: usize = 0;
    while i < cs.len()
        invariant
            i <= cs@.len(),
            out@ == replaced(cs@, from, to).take(i as int),
        decreases cs.len() - i,
    {
        let c = cs[i];
        if c == from {
            out.push(to);
        } else {
            out.push(c);
        }
        let ghost all = replaced(cs@, from, to);
        assert(all.take(i as int + 1) =~= all.take(i as int).push(all[i as int]));
        i += 1;
    }
    assert(out@ =~= replaced(cs@, from, to));
    out
}

/// The two texts are the same.
pub fn same(a: &str, b: &str) -> (r: bool)
    ensures
        r == (a@ == b@),
{
    let x = chars(a);
    let y = chars(b);
    if x.len() != y.len() {
        return false;
    }
    let mut i: usize = 0;
    while i < x.len()
        invariant
            x@ == a@,
            y@ == b@,
            x@.len() == y@.len(),
            i <= x@.len(),
            forall|k: int| 0 <= k < i ==> #[trigger] x@[k] == y@[k],
        decreases x.len() - i,
    {
        if x[i] != y[i] {
            assert(x@[i as int] != y@[i as int]);
            return false;
        }
        i += 1;
    }
    assert(x@ =~= y@);
    true
}

} // verus!

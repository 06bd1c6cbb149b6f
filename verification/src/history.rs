//! Metrics history: snapshots of the metrics text at regular times, kept in
//! memory and, where there is a file for them, one JSON line each. Retention is
//! a number of days, and zero keeps everything.

use vstd::prelude::*;
use vstd::slice::slice_subrange;

use crate::digits;
use crate::json;
use crate::json::Tree;
use crate::utf8;

verus! {

/// Seconds between two snapshots.
pub const SAMPLE_SECS: u64 = 300;

/// The file is rewritten once more than a day's worth of snapshots expired.
pub const COMPACT_AFTER: usize = 288;

pub const SECS_PER_DAY: u64 = 86_400;

/// A snapshot: its time and its text.
pub type Point = (u64, Seq<char>);

/// The snapshots that a list holds.
pub open spec fn points_of(v: Seq<(u64, String)>) -> Seq<Point> {
    v.map_values(|p: (u64, String)| (p.0, p.1@))
}

/// The snapshots of one time, in the order in which they stand.
pub open spec fn at_time(s: Seq<Point>, t: u64) -> Seq<Point> {
    s.filter(|p: Point| p.0 == t)
}

pub open spec fn in_time_order(s: Seq<Point>) -> bool {
    forall|i: int, j: int| 0 <= i <= j < s.len() ==> s[i].0 <= s[j].0
}

/// `r` is `s` in the order of time, snapshots of one time keeping theirs.
pub open spec fn sorted_by_time(s: Seq<Point>, r: Seq<Point>) -> bool {
    &&& in_time_order(r)
    &&& forall|t: u64| #[trigger] at_time(r, t) == at_time(s, t)
}

/// The JSON of a snapshot.
pub open spec fn point_tree(p: Point) -> Tree {
    Tree::Object(Map::empty().insert("t"@, Tree::UInt(p.0)).insert("m"@, Tree::Str(p.1)))
}

/// The line of a snapshot, with its line break.
pub open spec fn point_line(p: Point) -> Seq<char> {
    json::rendering(point_tree(p)).push('\n')
}

/// The lines of a row of snapshots.
pub open spec fn file_text(s: Seq<Point>) -> Seq<char>
    decreases s.len(),
{
    if s.len() == 0 {
        Seq::empty()
    } else {
        file_text(s.drop_last()) + point_line(s.last())
    }
}

/// The snapshot that a document is, if it is one.
pub open spec fn point_of_tree(v: Tree) -> Option<Point> {
    match (json::member(v, "t"@), json::member(v, "m"@)) {
        (Some(t), Some(m)) => match (json::whole(t), json::string(m)) {
            (Some(t), Some(m)) => Some((t, m)),
            _ => None,
        },
        _ => None,
    }
}

/// The snapshot that a line holds, if it holds one.
pub open spec fn point_in(line: Seq<u8>) -> Option<Point> {
    match json::document(line) {
        Some(v) => point_of_tree(v),
        None => None,
    }
}

/// The first line break, or the length if there is none.
pub open spec fn line_end(b: Seq<u8>) -> int
    decreases b.len(),
{
    if b.len() == 0 || b[0] == 10 {
        0
    } else {
        1 + line_end(b.drop_first())
    }
}

/// A finished line without the carriage return that may stand at its end.
pub open spec fn chomped(b: Seq<u8>) -> Seq<u8> {
    if b.len() > 0 && b.last() == 13 {
        b.drop_last()
    } else {
        b
    }
}

/// The lines of a file. A last one without a line break counts, an empty one
/// after the last line break does not.
pub open spec fn lines(b: Seq<u8>) -> Seq<Seq<u8>>
    decreases b.len(),
{
    let i = line_end(b);
    if b.len() == 0 {
        Seq::empty()
    } else if i < b.len() {
        proof {
            lemma_line_end(b);
        }
        seq![chomped(b.take(i))] + lines(b.skip(i + 1))
    } else {
        seq![b]
    }
}

/// The snapshots that some lines hold. Lines that hold none are passed over,
/// and the first that is not UTF-8 ends the reading.
pub open spec fn points_in(lines: Seq<Seq<u8>>) -> Seq<Point>
    decreases lines.len(),
{
    if lines.len() == 0 || !vstd::utf8::valid_utf8(lines[0]) {
        Seq::empty()
    } else {
        let rest = points_in(lines.drop_first());
        match point_in(lines[0]) {
            Some(p) => seq![p] + rest,
            None => rest,
        }
    }
}

/// The first line break is the first.
pub proof fn lemma_line_end(b: Seq<u8>)
    ensures
        0 <= line_end(b) <= b.len(),
        line_end(b) < b.len() ==> b[line_end(b)] == 10,
        forall|i: int| 0 <= i < line_end(b) ==> #[trigger] b[i] != 10,
    decreases b.len(),
{
    if b.len() > 0 && b[0] != 10 {
        let rest = b.drop_first();
        lemma_line_end(rest);
        assert forall|i: int| 0 <= i < line_end(b) implies #[trigger] b[i] != 10 by {
            if i > 0 {
                assert(rest[i - 1] == b[i]);
            }
        }
    }
}

/// Nothing else is.
proof fn lemma_line_end_is(b: Seq<u8>, p: int)
    requires
        0 <= p <= b.len(),
        p < b.len() ==> b[p] == 10,
        forall|i: int| 0 <= i < p ==> #[trigger] b[i] != 10,
    ensures
        line_end(b) == p,
{
    lemma_line_end(b);
    let f = line_end(b);
    if f < p {
        assert(b[f] != 10);
    } else if p < f {
        assert(b[p] != 10);
    }
}

/// Lines read one after the other show the snapshots of the first lines, then
/// those of the others.
proof fn lemma_points_in_concat(a: Seq<Seq<u8>>, b: Seq<Seq<u8>>)
    requires
        forall|i: int| 0 <= i < a.len() ==> vstd::utf8::valid_utf8(#[trigger] a[i]),
    ensures
        points_in(a + b) == points_in(a) + points_in(b),
    decreases a.len(),
{
    if a.len() == 0 {
        assert(a + b =~= b);
        assert(points_in(a) + points_in(b) =~= points_in(b));
    } else {
        let rest = a.drop_first();
        assert forall|i: int| 0 <= i < rest.len() implies vstd::utf8::valid_utf8(
            #[trigger] rest[i],
        ) by {
            assert(rest[i] == a[i + 1]);
        }
        lemma_points_in_concat(rest, b);
        assert((a + b).drop_first() =~= rest + b);
        assert((a + b)[0] == a[0]);
        assert(points_in(a + b) =~= points_in(a) + points_in(b));
    }
}

/// A file that ends in a line break, with more after it, has its own lines and
/// then the others.
proof fn lemma_lines_concat(a: Seq<u8>, b: Seq<u8>)
    requires
        a.len() > 0 ==> a.last() == 10,
    ensures
        lines(a + b) == lines(a) + lines(b),
    decreases a.len(),
{
    if a.len() == 0 {
        assert(a + b =~= b);
        assert(lines(a) + lines(b) =~= lines(b));
    } else {
        let all = a + b;
        lemma_line_end(a);
        let i = line_end(a);
        if i == a.len() {
            assert(a[a.len() - 1] != 10);
        }
        assert forall|j: int| 0 <= j < i implies #[trigger] all[j] != 10 by {
            assert(all[j] == a[j]);
        }
        lemma_line_end_is(all, i);
        assert(all.take(i) =~= a.take(i));
        assert(all.skip(i + 1) =~= a.skip(i + 1) + b);
        lemma_lines_concat(a.skip(i + 1), b);
        assert(lines(all) =~= lines(a) + lines(b));
    }
}

/// Bytes without a control character, ended by a line break, are one line.
proof fn lemma_single_line(b: Seq<u8>)
    requires
        forall|i: int| 0 <= i < b.len() ==> 0x20 <= #[trigger] b[i],
    ensures
        lines(b.push(10)) == seq![b],
{
    let all = b.push(10);
    lemma_line_end_is(all, b.len() as int);
    assert(all.take(b.len() as int) =~= b);
    assert(all.skip(b.len() as int + 1) =~= Seq::<u8>::empty());
    assert(chomped(b) == b);
    reveal_with_fuel(lines, 2);
    assert(lines(all) =~= seq![b]);
}

/// A file that can be added to: each of its lines is finished, and is text.
pub open spec fn intact(file: Seq<u8>) -> bool {
    &&& file.len() > 0 ==> file.last() == 10
    &&& forall|i: int|
        0 <= i < lines(file).len() ==> vstd::utf8::valid_utf8(#[trigger] lines(file)[i])
}

/// The line of a snapshot reads back as the snapshot.
pub open spec fn reads_back(line: Seq<char>, p: Point) -> bool {
    let bytes = vstd::utf8::encode_utf8(line);
    &&& bytes.len() > 0 && bytes.last() == 10
    &&& lines(bytes).len() == 1
    &&& vstd::utf8::valid_utf8(lines(bytes)[0])
    &&& points_in(lines(bytes)) == seq![p]
}

/// What is written of a snapshot.
fn line_of(t: u64, m: &str) -> (r: String)
    ensures
        r@ == point_line((t, m@)),
        reads_back(r@, (t, m@)),
{
    let mut v = json::empty_object();
    json::set(&mut v, "t", json::from_u64(t));
    json::set(&mut v, "m", json::from_str(m));
    proof {
        reveal_strlit("t");
        reveal_strlit("m");
        assert("t"@[0] != "m"@[0]);
        assert("t"@[0] != '$' && "m"@[0] != '$');
        assert(json::contents(v) == point_tree((t, m@)));
    }
    let mut r = json::to_text(&v);
    let ghost body = r@;
    r.push('\n');
    proof {
        let p: Point = (t, m@);
        let bytes = vstd::utf8::encode_utf8(body);
        vstd::utf8::encode_utf8_valid_utf8(body);
        utf8::lemma_no_control_bytes(body);
        utf8::lemma_encode_push(body, '\n');
        utf8::lemma_encode_line_break();
        assert(vstd::utf8::encode_utf8(r@) =~= bytes.push(10));
        lemma_single_line(bytes);
        assert(point_in(bytes) == Some(p));
        reveal_with_fuel(points_in, 2);
        assert(seq![bytes].drop_first() =~= Seq::<Seq<u8>>::empty());
        assert(points_in(seq![bytes]) =~= seq![p]);
    }
    r
}

/// The snapshot that a document is.
pub fn point_of(v: &serde_json::Value) -> (r: Option<(u64, String)>)
    ensures
        match r {
            Some(p) => point_of_tree(json::contents(*v)) == Some((p.0, p.1@)),
            None => point_of_tree(json::contents(*v)) is None,
        },
{
    let t = json::as_u64(json::get(v, "t")?)?;
    let m = json::as_str(json::get(v, "m")?)?;
    Some((t, m.to_owned()))
}

/// The snapshot that a line holds.
fn read_point(line: &[u8]) -> (r: Option<(u64, String)>)
    ensures
        match r {
            Some(p) => point_in(line@) == Some((p.0, p.1@)),
            None => point_in(line@) is None,
        },
{
    let v = json::parse(line)?;
    point_of(&v)
}

/// The snapshots, how long they are kept, how many have expired since the file
/// was last rewritten, and whether there is a file.
pub struct History {
    pub points: Vec<(u64, String)>,
    /// Retention in days (0 = keep forever).
    pub days: u64,
    pub dropped_since_compact: usize,
    /// The snapshots are written to a file too.
    pub persistent: bool,
}

/// What a history is, apart from how it is stored.
pub struct HistoryView {
    pub points: Seq<Point>,
    pub days: u64,
    pub dropped: usize,
    pub persistent: bool,
}

impl View for History {
    type V = HistoryView;

    open spec fn view(&self) -> HistoryView {
        HistoryView {
            points: points_of(self.points@),
            days: self.days,
            dropped: self.dropped_since_compact,
            persistent: self.persistent,
        }
    }
}

/// What is to be written to the history's file.
pub enum Write {
    /// There is no file.
    Nothing,
    /// Add this at its end.
    Append(String),
    /// Put this in place of all it holds.
    Rewrite(String),
}

/// The first time that is still kept at `t`.
pub open spec fn cutoff(t: u64, days: u64) -> int {
    if t >= days * SECS_PER_DAY {
        t - days * SECS_PER_DAY
    } else {
        0
    }
}

/// The snapshots that are still kept at `t`.
pub open spec fn retained(s: Seq<Point>, t: u64, days: u64) -> Seq<Point> {
    if days > 0 {
        s.filter(|p: Point| p.0 >= cutoff(t, days))
    } else {
        s
    }
}

/// The sum, or the largest count there is.
pub open spec fn capped_sum(a: usize, b: int) -> int {
    if a + b <= usize::MAX {
        a + b
    } else {
        usize::MAX as int
    }
}

impl HistoryView {
    /// The snapshots after one more.
    pub open spec fn grown(self, t: u64, m: Seq<char>) -> Seq<Point> {
        retained(self.points, t, self.days).push((t, m))
    }

    /// The number of snapshots that have expired after one more.
    pub open spec fn expired(self, t: u64) -> int {
        capped_sum(
            self.dropped,
            self.points.len() - retained(self.points, t, self.days).len(),
        )
    }

    /// What [`History::append`] does.
    pub open spec fn appended(self, t: u64, m: Seq<char>, after: HistoryView, w: Write) -> bool {
        &&& after.points == self.grown(t, m)
        &&& after.days == self.days
        &&& after.persistent == self.persistent
        &&& if !self.persistent {
            w is Nothing && after.dropped == self.expired(t)
        } else if self.expired(t) > COMPACT_AFTER {
            &&& w matches Write::Rewrite(all)
            &&& all@ == file_text(after.points)
            &&& intact(vstd::utf8::encode_utf8(all@))
            &&& points_in(lines(vstd::utf8::encode_utf8(all@))) == after.points
            &&& after.dropped == 0
        } else {
            &&& w matches Write::Append(line)
            &&& line@ == point_line((t, m))
            &&& reads_back(line@, (t, m))
            &&& after.dropped == self.expired(t)
        }
    }
}

/// The places that are sampled out of `n`: every `stride`th, and the last.
pub open spec fn sampled_places(n: int, stride: int) -> Seq<int> {
    Seq::new(n as nat, |i: int| i).filter(|i: int| i % stride == 0 || i == n - 1)
}

/// `n` divided by `d`, rounded up.
pub open spec fn ceiling(n: int, d: int) -> int {
    (n + d - 1) / d
}

/// The distance between samples when `n` are sampled down to about `max`.
pub open spec fn stride_for(n: int, max: int) -> int {
    ceiling(
        n,
        if max < 2 {
            2
        } else {
            max
        },
    )
}

/// The snapshots from `from` to `to`, both included.
pub open spec fn within(s: Seq<Point>, from: u64, to: u64) -> Seq<Point> {
    s.filter(|p: Point| from <= p.0 <= to)
}

/// Those of `hits` that are sampled.
pub open spec fn sampled(hits: Seq<Point>, max: int) -> Seq<Point> {
    sampled_places(hits.len() as int, stride_for(hits.len() as int, max)).map_values(
        |i: int| hits[i],
    )
}

/// Of a row with one more in front of what follows all that came before.
proof fn lemma_sorted_insert(s: Seq<Point>, r: Seq<Point>, p: Point, k: int)
    requires
        sorted_by_time(s, r),
        0 <= k <= r.len(),
        k > 0 ==> r[k - 1].0 <= p.0,
        k < r.len() ==> p.0 < r[k].0,
    ensures
        sorted_by_time(s.push(p), r.insert(k, p)),
{
    let out = r.insert(k, p);
    let a = r.take(k);
    let b = r.skip(k);
    assert(r =~= a + b);
    assert(out =~= a + seq![p] + b);
    assert(s.push(p) =~= s + seq![p]);
    assert forall|t: u64| #[trigger] at_time(out, t) == at_time(s.push(p), t) by {
        let f = |q: Point| q.0 == t;
        assert(at_time(r, t) == at_time(s, t));
        Seq::filter_distributes_over_add(a, b, f);
        Seq::filter_distributes_over_add(a + seq![p], b, f);
        Seq::filter_distributes_over_add(a, seq![p], f);
        Seq::filter_distributes_over_add(s, seq![p], f);
        reveal(Seq::filter);
        assert(seq![p].drop_last() =~= Seq::<Point>::empty());
        if t == p.0 {
            assert(seq![p].filter(f) =~= seq![p]);
            lemma_filter_none(b, f);
            assert(at_time(out, t) =~= at_time(s.push(p), t));
        } else {
            lemma_filter_none(seq![p], f);
            assert(at_time(out, t) =~= at_time(s.push(p), t));
        }
    }
    assert forall|i: int, j: int| 0 <= i <= j < out.len() implies out[i].0 <= out[j].0 by {
        if i < k {
            assert(out[i] == r[i]);
            assert(r[i].0 <= r[k - 1].0);
        }
        if j > k {
            assert(out[j] == r[j - 1]);
            assert(r[k].0 <= r[j - 1].0);
        }
        if i < k && j < k {
            assert(out[j] == r[j]);
        }
        if i > k {
            assert(out[i] == r[i - 1]);
        }
    }
}

/// A filter that nothing passes leaves nothing.
proof fn lemma_filter_none<A>(s: Seq<A>, f: spec_fn(A) -> bool)
    requires
        forall|i: int| 0 <= i < s.len() ==> !f(#[trigger] s[i]),
    ensures
        s.filter(f) == Seq::<A>::empty(),
    decreases s.len(),
{
    reveal(Seq::filter);
    if s.len() > 0 {
        let rest = s.drop_last();
        assert forall|i: int| 0 <= i < rest.len() implies !f(#[trigger] rest[i]) by {
            assert(rest[i] == s[i]);
        }
        lemma_filter_none(rest, f);
        assert(!f(s[s.len() - 1]));
    }
}

/// Put a snapshot behind all that are no later.
fn place(points: &mut Vec<(u64, String)>, t: u64, m: String, Ghost(s): Ghost<Seq<Point>>)
    requires
        sorted_by_time(s, points_of(old(points)@)),
    ensures
        sorted_by_time(s.push((t, m@)), points_of(final(points)@)),
{
    let ghost before = points_of(points@);
    let ghost p: Point = (t, m@);
    let mut k: usize = points.len();
    while k > 0 && points[k - 1].0 > t
        invariant
            k <= points@.len(),
            before == points_of(points@),
            k < points@.len() ==> t < points@[k as int].0,
        decreases k,
    {
        k -= 1;
    }
    points.insert(k, (t, m));
    proof {
        assert(points_of(points@) =~= before.insert(k as int, p));
        lemma_sorted_insert(s, before, p, k as int);
    }
}

impl History {
    /// Take up the snapshots of a file.
    pub fn load(data: &[u8], persistent: bool, days: u64) -> (r: Self)
        ensures
            sorted_by_time(points_in(lines(data@)), r@.points),
            r@.days == days,
            r@.dropped == 0,
            r@.persistent == persistent,
    {
        let mut points: Vec<(u64, String)> = Vec::new();
        let mut start: usize = 0;
        let ghost all = points_in(lines(data@));
        let ghost mut seen: Seq<Point> = Seq::empty();
        proof {
            assert(data@.skip(0) =~= data@);
            assert(points_of(points@) =~= Seq::<Point>::empty());
            assert(seen + all =~= all);
        }
        while start < data.len()
            invariant
                start <= data@.len(),
                all == points_in(lines(data@)),
                sorted_by_time(seen, points_of(points@)),
                seen + points_in(lines(data@.skip(start as int))) == all,
            decreases data.len() - start,
        {
            let ghost rest = data@.skip(start as int);
            let mut end: usize = start;
            while end < data.len() && data[end] != 10
                invariant
                    start <= end <= data@.len(),
                    forall|i: int| start <= i < end ==> #[trigger] data@[i] != 10,
                decreases data.len() - end,
            {
                end += 1;
            }
            proof {
                lemma_line_end_is(rest, end - start);
            }
            let next: usize;
            let stop: usize;
            if end < data.len() {
                next = end + 1;
                if end > start && data[end - 1] == 13 {
                    stop = end - 1;
                } else {
                    stop = end;
                }
                assert(data@.subrange(start as int, stop as int) =~= chomped(
                    rest.take(end - start),
                ));
                assert(rest.skip(end - start + 1) =~= data@.skip(next as int));
            } else {
                next = end;
                stop = end;
                assert(data@.subrange(start as int, stop as int) =~= rest);
                assert(data@.skip(next as int) =~= Seq::<u8>::empty());
            }
            let line = slice_subrange(data, start, stop);
            assert(lines(rest) =~= seq![line@] + lines(data@.skip(next as int)));
            assert(lines(rest).drop_first() =~= lines(data@.skip(next as int)));
            if !utf8::is_utf8(line) {
                assert(seen + points_in(lines(rest)) =~= seen);
                return History { points, days, dropped_since_compact: 0, persistent };
            }
            if let Some((t, m)) = read_point(line) {
                let ghost p: Point = (t, m@);
                place(&mut points, t, m, Ghost(seen));
                proof {
                    assert(seen.push(p) + points_in(lines(data@.skip(next as int))) =~= seen + (
                    seq![p] + points_in(lines(data@.skip(next as int)))));
                    seen = seen.push(p);
                }
            }
            start = next;
        }
        assert(data@.skip(start as int) =~= Seq::<u8>::empty());
        assert(seen + points_in(lines(data@.skip(start as int))) =~= seen);
        History { points, days, dropped_since_compact: 0, persistent }
    }

    /// Retune retention; it applies from the next snapshot on.
    pub fn set_days(&mut self, days: u64)
        ensures
            final(self)@ == (HistoryView { days, ..old(self)@ }),
    {
        self.days = days;
    }

    /// Forget the snapshots before `cutoff`.
    fn retain(&mut self, cutoff: u64)
        ensures
            final(self)@ == (HistoryView {
                points: old(self)@.points.filter(|p: Point| p.0 >= cutoff),
                ..old(self)@
            }),
    {
        let ghost before = self@.points;
        let ghost f = |p: Point| p.0 >= cutoff;
        let ghost mut seen: int = 0;
        let mut i: usize = 0;
        proof {
            reveal(Seq::filter);
            assert(before.take(0) =~= Seq::<Point>::empty());
            assert(before =~= before.take(0).filter(f) + before.skip(0));
        }
        while i < self.points.len()
            invariant
                f == (|p: Point| p.0 >= cutoff),
                0 <= seen <= before.len(),
                i == before.take(seen).filter(f).len(),
                self@.points == before.take(seen).filter(f) + before.skip(seen),
                self@ == (HistoryView { points: self@.points, ..old(self)@ }),
            decreases self.points.len() - i,
        {
            let ghost mid = self@.points;
            proof {
                assert(mid[i as int] == before.skip(seen)[0]);
                assert(before.take(seen + 1).drop_last() =~= before.take(seen));
                reveal(Seq::filter);
            }
            if self.points[i].0 < cutoff {
                self.points.remove(i);
                assert(self@.points =~= mid.remove(i as int));
                assert(self@.points =~= before.take(seen + 1).filter(f) + before.skip(seen + 1));
            } else {
                i += 1;
                assert(self@.points =~= before.take(seen + 1).filter(f) + before.skip(seen + 1));
            }
            proof {
                seen = seen + 1;
            }
        }
        proof {
            assert(before.skip(seen).len() == 0);
            assert(before.take(seen) =~= before);
            assert(self@.points =~= before.filter(f));
        }
    }

    /// Add a snapshot, let go of those that have expired, and say what is to
    /// be written to the file: the new line, or everything anew once a day's
    /// worth of snapshots has expired.
    pub fn append(&mut self, t: u64, snapshot: String) -> (w: Write)
        ensures
            old(self)@.appended(t, snapshot@, final(self)@, w),
    {
        let ghost before = self@;
        if self.days > 0 {
            let cutoff: u64 = match self.days.checked_mul(SECS_PER_DAY) {
                Some(span) if span <= t => t - span,
                _ => 0,
            };
            let n = self.points.len();
            self.retain(cutoff);
            proof {
                assert(cutoff == self::cutoff(t, before.days));
                let f = |p: Point| p.0 >= cutoff;
                let g = |p: Point| p.0 >= self::cutoff(t, before.days);
                assert(f =~= g);
                before.points.lemma_filter_len(f);
            }
            let gone = n - self.points.len();
            self.dropped_since_compact = match self.dropped_since_compact.checked_add(gone) {
                Some(d) => d,
                None => usize::MAX,
            };
        }
        let line = line_of(t, snapshot.as_str());
        let ghost kept = self@.points;
        let ghost p: Point = (t, snapshot@);
        self.points.push((t, snapshot));
        assert(self@.points =~= kept.push(p));
        if !self.persistent {
            return Write::Nothing;
        }
        if self.dropped_since_compact > COMPACT_AFTER {
            self.dropped_since_compact = 0;
            Write::Rewrite(self.all_lines())
        } else {
            Write::Append(line)
        }
    }

    /// Every snapshot's line.
    fn all_lines(&self) -> (r: String)
        ensures
            r@ == file_text(self@.points),
            intact(vstd::utf8::encode_utf8(r@)),
            points_in(lines(vstd::utf8::encode_utf8(r@))) == self@.points,
    {
        let mut out = String::new();
        let mut i: usize = 0;
        let ghost all = self@.points;
        assert(all.take(0) =~= Seq::<Point>::empty());
        while i < self.points.len()
            invariant
                i <= self.points@.len(),
                all == points_of(self.points@),
                out@ == file_text(all.take(i as int)),
                ({
                    let bytes = vstd::utf8::encode_utf8(out@);
                    &&& intact(bytes)
                    &&& points_in(lines(bytes)) == all.take(i as int)
                }),
            decreases self.points.len() - i,
        {
            let line = line_of(self.points[i].0, self.points[i].1.as_str());
            let ghost head = out@;
            out.append(line.as_str());
            proof {
                let p = all[i as int];
                assert(all.take(i as int + 1).drop_last() =~= all.take(i as int));
                utf8::lemma_encode_concat(head, line@);
                law_log_grows(
                    vstd::utf8::encode_utf8(head),
                    vstd::utf8::encode_utf8(line@),
                );
                assert(all.take(i as int + 1) =~= all.take(i as int) + seq![p]);
            }
            i += 1;
        }
        assert(all.take(i as int) =~= all);
        out
    }

    /// Snapshots in `[from, to]`, stride-sampled down to at most `max` plus
    /// the range's endpoints.
    pub fn range(&self, from: u64, to: u64, max: usize) -> (r: Vec<(u64, String)>)
        ensures
            points_of(r@) == sampled(within(self@.points, from, to), max as int),
    {
        let ghost all = self@.points;
        let ghost f = |p: Point| from <= p.0 <= to;
        let mut hits: Vec<usize> = Vec::new();
        let mut i: usize = 0;
        proof {
            reveal(Seq::filter);
            assert(all.take(0) =~= Seq::<Point>::empty());
        }
        while i < self.points.len()
            invariant
                f == (|p: Point| from <= p.0 <= to),
                i <= self.points@.len(),
                all == points_of(self.points@),
                hits@.len() <= i,
                forall|j: int| 0 <= j < hits@.len() ==> #[trigger] hits@[j] < i,
                all.take(i as int).filter(f) == hits@.map_values(|k: usize| all[k as int]),
            decreases self.points.len() - i,
        {
            proof {
                assert(all.take(i as int + 1).drop_last() =~= all.take(i as int));
                reveal(Seq::filter);
            }
            let ghost before = hits@;
            let t = self.points[i].0;
            if from <= t && t <= to {
                hits.push(i);
                assert(hits@.map_values(|k: usize| all[k as int]) =~= before.map_values(
                    |k: usize| all[k as int],
                ).push(all[i as int]));
            }
            i += 1;
        }
        let ghost found = within(all, from, to);
        proof {
            assert(all.take(i as int) =~= all);
            assert(found == hits@.map_values(|k: usize| all[k as int]));
        }
        let n = hits.len();
        let mut out: Vec<(u64, String)> = Vec::new();
        if n == 0 {
            proof {
                reveal(Seq::filter);
                assert(points_of(out@) =~= sampled(found, max as int));
            }
            return out;
        }
        let per: usize = if max < 2 {
            2
        } else {
            max
        };
        let stride = (n - 1) / per + 1;
        let ghost places = Seq::new(n as nat, |i: int| i);
        let ghost g = |i: int| i % stride_for(n as int, max as int) == 0 || i == n - 1;
        proof {
            lemma_ceiling(n as int, per as int);
            assert(stride == stride_for(n as int, max as int));
            reveal(Seq::filter);
            assert(places.take(0) =~= Seq::<int>::empty());
            assert(points_of(out@) =~= Seq::<int>::empty().map_values(|i: int| found[i]));
        }
        let mut j: usize = 0;
        while j < n
            invariant
                j <= n,
                n == hits@.len(),
                n >= 1,
                stride >= 1,
                stride == stride_for(n as int, max as int),
                places == Seq::new(n as nat, |i: int| i),
                g == (|i: int| i % stride_for(n as int, max as int) == 0 || i == n - 1),
                all == points_of(self.points@),
                forall|k: int| 0 <= k < hits@.len() ==> #[trigger] hits@[k] < self.points@.len(),
                found == hits@.map_values(|k: usize| all[k as int]),
                points_of(out@) == places.take(j as int).filter(g).map_values(|i: int| found[i]),
            decreases n - j,
        {
            proof {
                assert(places.take(j as int + 1).drop_last() =~= places.take(j as int));
                assert(places.take(j as int + 1).last() == j as int);
                reveal(Seq::filter);
            }
            let ghost before = places.take(j as int).filter(g);
            if j % stride == 0 || j == n - 1 {
                let k = hits[j];
                let p = &self.points[k];
                let ghost head = points_of(out@);
                out.push((p.0, p.1.clone()));
                proof {
                    assert(g(j as int));
                    assert(places.take(j as int + 1).filter(g) == before.push(j as int));
                    assert(points_of(out@) =~= head.push(found[j as int]));
                    assert(before.push(j as int).map_values(|i: int| found[i])
                        =~= before.map_values(|i: int| found[i]).push(found[j as int]));
                }
            } else {
                assert(!g(j as int));
            }
            j += 1;
        }
        proof {
            assert(places.take(n as int) =~= places);
        }
        out
    }
}

/// Division rounded up, without leaving the range of the dividend.
proof fn lemma_ceiling(n: int, d: int)
    requires
        n >= 1,
        d >= 1,
    ensures
        ceiling(n, d) == (n - 1) / d + 1,
        ceiling(n, d) >= 1,
        ceiling(n, d) * d >= n,
        (ceiling(n, d) - 1) * d < n,
{
    assert((n + d - 1) / d == (n - 1) / d + 1) by (nonlinear_arith)
        requires
            d >= 1,
    ;
    let q = (n - 1) / d;
    assert(q >= 0 && q * d <= n - 1 < (q + 1) * d) by (nonlinear_arith)
        requires
            d >= 1,
            n >= 1,
            q == (n - 1) / d,
    ;
}

/// A file that is written to line by line reads back as what was written: more
/// lines at its end add their snapshots and change nothing before them.
pub proof fn law_log_grows(file: Seq<u8>, more: Seq<u8>)
    requires
        intact(file),
    ensures
        lines(file + more) == lines(file) + lines(more),
        points_in(lines(file + more)) == points_in(lines(file)) + points_in(lines(more)),
{
    lemma_lines_concat(file, more);
    lemma_points_in_concat(lines(file), lines(more));
}

/// The places sampled among the first `k`.
proof fn lemma_places(n: int, stride: int, k: int)
    requires
        n >= 1,
        stride >= 1,
        0 <= k <= n,
    ensures
        ({
            let f = |i: int| i % stride == 0 || i == n - 1;
            let s = Seq::new(n as nat, |i: int| i).take(k).filter(f);
            &&& forall|i: int| 0 <= i < s.len() ==> 0 <= #[trigger] s[i] < k
            &&& forall|i: int, j: int| 0 <= i < j < s.len() ==> s[i] < s[j]
            &&& k >= 1 ==> s.len() >= 1 && s[0] == 0
            &&& k == n ==> s.last() == n - 1
            &&& s.len() <= ceiling(k, stride) + if k == n {
                1int
            } else {
                0
            }
        }),
    decreases k,
{
    let f = |i: int| i % stride == 0 || i == n - 1;
    let all = Seq::new(n as nat, |i: int| i);
    let s = all.take(k).filter(f);
    reveal(Seq::filter);
    if k == 0 {
        assert(all.take(0) =~= Seq::<int>::empty());
        assert(ceiling(0, stride) >= 0) by {
            assert((0 + stride - 1) / stride >= 0) by (nonlinear_arith)
                requires
                    stride >= 1,
            ;
        }
    } else {
        lemma_places(n, stride, k - 1);
        assert(all.take(k).drop_last() =~= all.take(k - 1));
        assert(all.take(k).last() == k - 1);
        let before = all.take(k - 1).filter(f);
        assert(s == if f(k - 1) {
            before.push(k - 1)
        } else {
            before
        });
        assert(ceiling(k, stride) == ceiling(k - 1, stride) + if (k - 1) % stride == 0 {
            1int
        } else {
            0
        }) by {
            let q = (k - 1) / stride;
            let m = (k - 1) % stride;
            assert((k - 1) == q * stride + m && 0 <= m < stride) by (nonlinear_arith)
                requires
                    stride >= 1,
                    q == (k - 1) / stride,
                    m == (k - 1) % stride,
            ;
            assert((k + stride - 1) / stride == q + 1) by (nonlinear_arith)
                requires
                    stride >= 1,
                    k - 1 == q * stride + m,
                    0 <= m < stride,
            ;
            if m == 0 {
                assert((k - 1 + stride - 1) / stride == q) by (nonlinear_arith)
                    requires
                        stride >= 1,
                        k - 1 == q * stride,
                ;
            } else {
                assert((k - 1 + stride - 1) / stride == q + 1) by (nonlinear_arith)
                    requires
                        stride >= 1,
                        k - 1 == q * stride + m,
                        0 < m < stride,
                ;
            }
        }
        if k == 1 {
            assert(0int % stride == 0) by (nonlinear_arith)
                requires
                    stride >= 1,
            ;
            assert(all.take(0) =~= Seq::<int>::empty());
        }
    }
}

/// A range query answers with snapshots of the range in their order, the first
/// and the last of the range among them, and never more than the number asked
/// for plus one (asked for fewer than two, as if for two). A range that is no
/// longer than that is answered whole.
pub proof fn law_range_is_sampled(hits: Seq<Point>, max: usize)
    requires
        hits.len() > 0,
    ensures
        ({
            let r = sampled(hits, max as int);
            let places = sampled_places(hits.len() as int, stride_for(hits.len() as int, max as int));
            let most = if max < 2 {
                2int
            } else {
                max as int
            };
            &&& 1 <= r.len() <= most + 1
            &&& r.first() == hits.first()
            &&& r.last() == hits.last()
            &&& places.len() == r.len()
            &&& forall|i: int|
                0 <= i < r.len() ==> 0 <= #[trigger] places[i] < hits.len() && r[i] == hits[places[i]]
            &&& forall|i: int, j: int| 0 <= i < j < r.len() ==> places[i] < places[j]
            &&& hits.len() <= most ==> r == hits
        }),
{
    let n = hits.len() as int;
    let most = if max < 2 {
        2int
    } else {
        max as int
    };
    let stride = stride_for(n, max as int);
    lemma_ceiling(n, most);
    lemma_places(n, stride, n);
    let all = Seq::new(n as nat, |i: int| i);
    assert(all.take(n) =~= all);
    let places = sampled_places(n, stride);
    lemma_ceiling(n, stride);
    assert(ceiling(n, stride) <= most) by (nonlinear_arith)
        requires
            stride * most >= n,
            (ceiling(n, stride) - 1) * stride < n,
            stride >= 1,
    ;
    if n <= most {
        assert(stride == 1) by {
            assert(stride <= 1) by (nonlinear_arith)
                requires
                    (stride - 1) * most < n,
                    n <= most,
                    most >= 1,
            ;
        }
        lemma_filter_all(all, |i: int| i % stride == 0 || i == n - 1);
        assert(sampled(hits, max as int) =~= hits);
    }
}

/// The multiples of a stride below `k`, in their order.
proof fn lemma_multiples(n: int, stride: int, k: int)
    requires
        n >= 1,
        stride >= 1,
        0 <= k <= n - 1,
    ensures
        ({
            let s = Seq::new(n as nat, |i: int| i).take(k).filter(
                |i: int| i % stride == 0 || i == n - 1,
            );
            &&& s.len() * stride >= k
            &&& (s.len() - 1) * stride < k
            &&& forall|j: int| 0 <= j < s.len() ==> #[trigger] s[j] == j * stride
        }),
    decreases k,
{
    reveal(Seq::filter);
    let all = Seq::new(n as nat, |i: int| i);
    let f = |i: int| i % stride == 0 || i == n - 1;
    let s = all.take(k).filter(f);
    if k == 0 {
        assert(all.take(0) =~= Seq::<int>::empty());
        assert(s.len() == 0);
        assert(0 * stride == 0 && -1 * stride < 0) by (nonlinear_arith)
            requires
                stride >= 1,
        ;
    } else {
        lemma_multiples(n, stride, k - 1);
        let before = all.take(k - 1).filter(f);
        let l = before.len() as int;
        assert(all.take(k).drop_last() =~= all.take(k - 1));
        assert(all.take(k).last() == k - 1);
        assert(s == if f(k - 1) {
            before.push(k - 1)
        } else {
            before
        });
        let q = (k - 1) / stride;
        assert(k - 1 == q * stride + (k - 1) % stride && 0 <= (k - 1) % stride < stride) by (
        nonlinear_arith)
            requires
                stride >= 1,
                q == (k - 1) / stride,
        ;
        if (k - 1) % stride == 0 {
            assert(l == q) by (nonlinear_arith)
                requires
                    stride >= 1,
                    l * stride >= k - 1,
                    (l - 1) * stride < k - 1,
                    k - 1 == q * stride,
            ;
            assert((l + 1) * stride >= k) by (nonlinear_arith)
                requires
                    stride >= 1,
                    l * stride == k - 1,
            ;
        } else {
            assert(l * stride != k - 1) by (nonlinear_arith)
                requires
                    stride >= 1,
                    k - 1 == q * stride + (k - 1) % stride,
                    0 < (k - 1) % stride < stride,
            ;
        }
    }
}

/// A range that is sampled holds the snapshots at multiples of the stride, and the last.
pub proof fn lemma_sampled_evenly(hits: Seq<Point>, max: usize)
    requires
        hits.len() > 0,
    ensures
        ({
            let n = hits.len() as int;
            let r = sampled(hits, max as int);
            let stride = stride_for(n, max as int);
            let most = if max < 2 {
                2int
            } else {
                max as int
            };
            &&& stride * most >= n > (stride - 1) * most
            &&& r.len() > 0
            &&& (r.len() - 2) * stride < n - 1 <= (r.len() - 1) * stride
            &&& r.last() == hits.last()
            &&& forall|j: int| 0 <= j < r.len() - 1 ==> #[trigger] r[j] == hits[j * stride]
        }),
{
    reveal(Seq::filter);
    let n = hits.len() as int;
    let stride = stride_for(n, max as int);
    let most = if max < 2 {
        2int
    } else {
        max as int
    };
    lemma_ceiling(n, most);
    lemma_multiples(n, stride, n - 1);
    let all = Seq::new(n as nat, |i: int| i);
    assert(all.drop_last() =~= all.take(n - 1));
    let f = |i: int| i % stride == 0 || i == n - 1;
    let s = all.take(n - 1).filter(f);
    assert(all.filter(f) == s.push(n - 1));
    assert(sampled_places(n, stride) == s.push(n - 1));
}

pub proof fn lemma_nothing_sampled(hits: Seq<Point>, max: usize)
    requires
        hits.len() == 0,
    ensures
        sampled(hits, max as int) == hits,
{
    reveal(Seq::filter);
    assert(Seq::new(0, |i: int| i) =~= Seq::<int>::empty());
    assert(sampled(hits, max as int) =~= hits);
}

/// A filter that everything passes changes nothing.
proof fn lemma_filter_all<A>(s: Seq<A>, f: spec_fn(A) -> bool)
    requires
        forall|i: int| 0 <= i < s.len() ==> f(#[trigger] s[i]),
    ensures
        s.filter(f) == s,
    decreases s.len(),
{
    reveal(Seq::filter);
    if s.len() > 0 {
        let rest = s.drop_last();
        assert forall|i: int| 0 <= i < rest.len() implies f(#[trigger] rest[i]) by {
            assert(rest[i] == s[i]);
        }
        lemma_filter_all(rest, f);
        assert(f(s[s.len() - 1]));
        assert(s.filter(f) =~= s);
    }
}

/// After a snapshot at `t` nothing older than the retention is left, what is
/// not that old is, and with no retention set everything is.
pub proof fn law_retention(h: HistoryView, t: u64, m: Seq<char>)
    ensures
        ({
            let after = h.grown(t, m);
            &&& h.days > 0 ==> forall|i: int|
                0 <= i < after.len() ==> (#[trigger] after[i]).0 >= cutoff(t, h.days)
            &&& forall|i: int|
                0 <= i < h.points.len() && (h.days == 0 || h.points[i].0 >= cutoff(t, h.days))
                    ==> after.contains(#[trigger] h.points[i])
            &&& after.last() == (t, m)
        }),
{
    broadcast use vstd::seq_lib::group_filter_ensures;

    let after = h.grown(t, m);
    let kept = retained(h.points, t, h.days);
    assert(after.last() == (t, m));
    assert forall|i: int|
        0 <= i < h.points.len() && (h.days == 0 || h.points[i].0 >= cutoff(
            t,
            h.days,
        )) implies after.contains(#[trigger] h.points[i]) by {
        assert(kept.contains(h.points[i]));
        let k = choose|k: int| 0 <= k < kept.len() && kept[k] == h.points[i];
        assert(after[k] == h.points[i]);
    }
}

/// The span that a history query asks for: a day up to now, where it does not
/// say otherwise.
pub open spec fn asked(value: Option<Seq<char>>, otherwise: u64) -> u64 {
    match value {
        Some(v) => match digits::parsed(v, 10) {
            Some(n) => n,
            None => otherwise,
        },
        None => otherwise,
    }
}

fn ask(value: &Option<String>, otherwise: u64) -> (r: u64)
    ensures
        r == asked(
            match *value {
                Some(v) => Some(v@),
                None => None,
            },
            otherwise,
        ),
{
    match value {
        Some(v) => match digits::parse(v.as_str(), 10) {
            Some(n) => n,
            None => otherwise,
        },
        None => otherwise,
    }
}

/// The first and last second of a history query.
pub fn query_span(now: u64, from: &Option<String>, to: &Option<String>) -> (r: (u64, u64))
    ensures
        r.0 == asked(
            match *from {
                Some(v) => Some(v@),
                None => None,
            },
            if now >= SECS_PER_DAY {
                (now - SECS_PER_DAY) as u64
            } else {
                0
            },
        ),
        r.1 == asked(
            match *to {
                Some(v) => Some(v@),
                None => None,
            },
            now,
        ),
{
    let day_ago: u64 = if now >= SECS_PER_DAY {
        now - SECS_PER_DAY
    } else {
        0
    };
    (ask(from, day_ago), ask(to, now))
}

/// The answer to a history query: a JSON array of snapshots.
pub fn query_answer(points: &Vec<(u64, String)>) -> (r: String)
    ensures
        r@ == json::rendering(
            Tree::Array(points_of(points@).map_values(|p: Point| point_tree(p))),
        ),
{
    let mut out: Vec<serde_json::Value> = Vec::new();
    let mut i: usize = 0;
    let ghost trees = points_of(points@).map_values(|p: Point| point_tree(p));
    assert(out@.map_values(|x: serde_json::Value| json::contents(x)) =~= trees.take(0));
    while i < points.len()
        invariant
            i <= points@.len(),
            trees == points_of(points@).map_values(|p: Point| point_tree(p)),
            out@.map_values(|x: serde_json::Value| json::contents(x)) == trees.take(i as int),
        decreases points.len() - i,
    {
        let mut v = json::empty_object();
        json::set(&mut v, "t", json::from_u64(points[i].0));
        json::set(&mut v, "m", json::from_str(points[i].1.as_str()));
        let ghost before = out@;
        out.push(v);
        proof {
            assert(trees.take(i as int + 1) =~= trees.take(i as int).push(trees[i as int]));
            assert(out@.map_values(|x: serde_json::Value| json::contents(x))
                =~= before.map_values(|x: serde_json::Value| json::contents(x)).push(
                json::contents(v),
            ));
        }
        i += 1;
    }
    assert(trees.take(i as int) =~= trees);
    json::to_text(&json::from_array(out))
}

/// There is only one way to put snapshots in the order of time, and snapshots
/// already in it stay as they are: a file written in the order of time loads as
/// it was written.
pub proof fn law_time_order_is_unique(s: Seq<Point>, r: Seq<Point>, q: Seq<Point>)
    requires
        sorted_by_time(s, r),
        sorted_by_time(s, q),
    ensures
        r == q,
        in_time_order(s) ==> r == s,
{
    assert forall|t: u64| #[trigger] at_time(r, t) == at_time(q, t) by {
        assert(at_time(r, t) == at_time(s, t));
        assert(at_time(q, t) == at_time(s, t));
    }
    lemma_same_order(r, q);
    if in_time_order(s) {
        lemma_same_order(r, s);
    }
}

proof fn lemma_same_order(r: Seq<Point>, q: Seq<Point>)
    requires
        in_time_order(r),
        in_time_order(q),
        forall|t: u64| #[trigger] at_time(r, t) == at_time(q, t),
    ensures
        r == q,
    decreases r.len() + q.len(),
{
    reveal(Seq::filter);
    if r.len() == 0 {
        if q.len() > 0 {
            let t = q.last().0;
            assert(at_time(r, t) == at_time(q, t));
            assert(at_time(q, t).len() > 0);
        }
        assert(r =~= q);
    } else if q.len() == 0 {
        let t = r.last().0;
        assert(at_time(r, t) == at_time(q, t));
        assert(at_time(r, t).len() > 0);
    } else {
        let a = r.last().0;
        let b = q.last().0;
        lemma_at_time_bound(r, b);
        lemma_at_time_bound(q, a);
        assert(at_time(r, b) == at_time(q, b));
        assert(at_time(r, a) == at_time(q, a));
        assert(a == b);
        assert(at_time(r, a).last() == r.last());
        assert(at_time(q, a).last() == q.last());
        let r1 = r.drop_last();
        let q1 = q.drop_last();
        assert forall|t: u64| #[trigger] at_time(r1, t) == at_time(q1, t) by {
            assert(at_time(r, t) == at_time(q, t));
            if t == a {
                assert(at_time(r, t).drop_last() =~= at_time(r1, t));
                assert(at_time(q, t).drop_last() =~= at_time(q1, t));
            }
        }
        assert forall|i: int, j: int| 0 <= i <= j < r1.len() implies r1[i].0 <= r1[j].0 by {
            assert(r1[i] == r[i] && r1[j] == r[j]);
        }
        assert forall|i: int, j: int| 0 <= i <= j < q1.len() implies q1[i].0 <= q1[j].0 by {
            assert(q1[i] == q[i] && q1[j] == q[j]);
        }
        lemma_same_order(r1, q1);
        assert(r =~= r1.push(r.last()));
        assert(q =~= q1.push(q.last()));
    }
}

/// A time that occurs is no later than the last.
proof fn lemma_at_time_bound(s: Seq<Point>, t: u64)
    requires
        in_time_order(s),
        s.len() > 0,
    ensures
        at_time(s, t).len() > 0 ==> t <= s.last().0,
    decreases s.len(),
{
    reveal(Seq::filter);
    let rest = s.drop_last();
    if s.last().0 != t && rest.len() > 0 {
        assert forall|i: int, j: int| 0 <= i <= j < rest.len() implies rest[i].0
            <= rest[j].0 by {
            assert(rest[i] == s[i] && rest[j] == s[j]);
        }
        lemma_at_time_bound(rest, t);
        assert(at_time(s, t) == at_time(rest, t));
        assert(s[s.len() - 2].0 <= s[s.len() - 1].0);
    } else if s.last().0 != t {
        assert(at_time(s, t) == at_time(rest, t));
        assert(at_time(rest, t).len() == 0);
    }
}

/// The file after a write that succeeded.
pub open spec fn written(file: Seq<u8>, w: Write) -> Seq<u8> {
    match w {
        Write::Nothing => file,
        Write::Append(line) => file + vstd::utf8::encode_utf8(line@),
        Write::Rewrite(all) => vstd::utf8::encode_utf8(all@),
    }
}

/// One snapshot of a run: the retention it was taken under, the snapshot, and what
/// was to be written of it.
pub struct Round {
    pub days: u64,
    pub point: Point,
    pub write: Write,
}

/// The snapshots of a run.
pub open spec fn points_taken(run: Seq<Round>) -> Seq<Point> {
    run.map_values(|r: Round| r.point)
}

/// The file after a run whose writes all succeeded.
pub open spec fn file_after(file: Seq<u8>, run: Seq<Round>) -> Seq<u8>
    decreases run.len(),
{
    if run.len() == 0 {
        file
    } else {
        written(file_after(file, run.drop_last()), run.last().write)
    }
}

/// A run of [`History::append`], one state to the next; retention may be retuned
/// in between.
pub open spec fn run_of(run: Seq<Round>, states: Seq<HistoryView>) -> bool {
    &&& states.len() == run.len() + 1
    &&& forall|i: int|
        0 <= i < run.len() ==> (HistoryView { days: run[i].days, ..states[i] }).appended(
            run[i].point.0,
            run[i].point.1,
            states[i + 1],
            (#[trigger] run[i]).write,
        )
}

/// A snapshot that no retention of a run lets go of.
pub open spec fn outlasts(run: Seq<Round>, p: Point) -> bool {
    forall|i: int|
        0 <= i < run.len() && (#[trigger] run[i]).days > 0 ==> p.0 >= cutoff(
            run[i].point.0,
            run[i].days,
        )
}

/// How often a row holds a snapshot.
pub open spec fn times_held(s: Seq<Point>, p: Point) -> nat
    decreases s.len(),
{
    if s.len() == 0 {
        0
    } else {
        times_held(s.drop_last(), p) + if s.last() == p {
            1nat
        } else {
            0
        }
    }
}

proof fn lemma_held_push(s: Seq<Point>, q: Point, p: Point)
    ensures
        times_held(s.push(q), p) == times_held(s, p) + if q == p {
            1nat
        } else {
            0
        },
{
    assert(s.push(q).drop_last() =~= s);
}

/// A filter keeps every copy of what passes it, and no other.
proof fn lemma_held_filter(s: Seq<Point>, f: spec_fn(Point) -> bool, p: Point)
    ensures
        times_held(s.filter(f), p) == if f(p) {
            times_held(s, p)
        } else {
            0
        },
    decreases s.len(),
{
    reveal(Seq::filter);
    if s.len() > 0 {
        lemma_held_filter(s.drop_last(), f, p);
        lemma_held_push(s.drop_last().filter(f), s.last(), p);
    }
}

/// Putting snapshots in the order of time neither adds nor loses any.
proof fn lemma_held_sorted(s: Seq<Point>, r: Seq<Point>, p: Point)
    requires
        sorted_by_time(s, r),
    ensures
        times_held(r, p) == times_held(s, p),
{
    let f = |q: Point| q.0 == p.0;
    assert(at_time(r, p.0) == at_time(s, p.0));
    lemma_held_filter(s, f, p);
    lemma_held_filter(r, f, p);
}

proof fn lemma_held_retained(s: Seq<Point>, t: u64, days: u64, p: Point)
    ensures
        times_held(retained(s, t, days), p) <= times_held(s, p),
        days == 0 || p.0 >= cutoff(t, days) ==> times_held(retained(s, t, days), p) == times_held(
            s,
            p,
        ),
{
    if days > 0 {
        lemma_held_filter(s, |q: Point| q.0 >= cutoff(t, days), p);
    }
}

/// What the file and the memory hold after a run.
proof fn lemma_run(file: Seq<u8>, run: Seq<Round>, states: Seq<HistoryView>, p: Point)
    requires
        intact(file),
        run_of(run, states),
        states[0].persistent,
        sorted_by_time(points_in(lines(file)), states[0].points),
    ensures
        ({
            let found = times_held(points_in(lines(file_after(file, run))), p);
            let kept = times_held(states.last().points, p);
            let all = times_held(points_in(lines(file)), p) + times_held(points_taken(run), p);
            &&& states.last().persistent
            &&& intact(file_after(file, run))
            &&& kept <= found <= all
            &&& outlasts(run, p) ==> kept == all
        }),
    decreases run.len(),
{
    if run.len() == 0 {
        lemma_held_sorted(points_in(lines(file)), states[0].points, p);
        assert(points_taken(run) =~= Seq::<Point>::empty());
    } else {
        let front = run.drop_last();
        let last = run.last();
        let before = states.drop_last();
        assert(run_of(front, before)) by {
            assert forall|i: int| 0 <= i < front.len() implies (HistoryView {
                days: front[i].days,
                ..before[i]
            }).appended(
                front[i].point.0,
                front[i].point.1,
                before[i + 1],
                (#[trigger] front[i]).write,
            ) by {
                assert(front[i] == run[i]);
            }
        }
        assert(before[0] == states[0]);
        lemma_run(file, front, before, p);
        assert(outlasts(run, p) ==> outlasts(front, p)) by {
            if outlasts(run, p) {
                assert forall|i: int| 0 <= i < front.len() && (
                #[trigger] front[i]).days > 0 implies p.0 >= cutoff(
                    front[i].point.0,
                    front[i].days,
                ) by {
                    assert(front[i] == run[i]);
                }
            }
        }
        let n = run.len() - 1;
        assert(run[n] == last);
        let h = HistoryView { days: last.days, ..states[n] };
        let after = states[n + 1];
        assert(h.appended(last.point.0, last.point.1, after, last.write));
        assert(before.last() == states[n]);
        assert(states.last() == after);
        assert(points_taken(run) =~= points_taken(front).push(last.point));
        lemma_held_push(points_taken(front), last.point, p);
        let kept = retained(h.points, last.point.0, last.days);
        lemma_held_retained(h.points, last.point.0, last.days, p);
        lemma_held_push(kept, last.point, p);
        assert(last.point == (last.point.0, last.point.1));
        let f = file_after(file, front);
        match last.write {
            Write::Append(line) => {
                let more = vstd::utf8::encode_utf8(line@);
                law_log_grows(f, more);
                assert((f + more).last() == more.last());
                let shown = points_in(lines(f));
                assert(points_in(lines(f + more)) =~= shown.push(last.point));
                lemma_held_push(shown, last.point, p);
                assert forall|i: int| 0 <= i < lines(f + more).len() implies
                    vstd::utf8::valid_utf8(#[trigger] lines(f + more)[i]) by {
                    if i < lines(f).len() {
                        assert(lines(f + more)[i] == lines(f)[i]);
                    } else {
                        assert(lines(f + more)[i] == lines(more)[0]);
                    }
                }
            },
            Write::Rewrite(all) => {},
            Write::Nothing => {},
        }
    }
}

/// What was written is read back, over any run of snapshots whose writes
/// succeeded, whatever was appended, rewritten or let go of on the way: started on
/// an intact file and loaded again, the history is in the order of time and holds
/// every snapshot as often as it did before, each that no retention has let go of
/// exactly as often as it stood in the file at first or was taken since, and
/// nothing that was neither.
pub proof fn law_runs_are_read_back(
    file: Seq<u8>,
    run: Seq<Round>,
    states: Seq<HistoryView>,
    again: Seq<Point>,
)
    requires
        intact(file),
        run_of(run, states),
        states[0].persistent,
        sorted_by_time(points_in(lines(file)), states[0].points),
        sorted_by_time(points_in(lines(file_after(file, run))), again),
    ensures
        in_time_order(again),
        intact(file_after(file, run)),
        forall|p: Point|
            {
                let all = times_held(points_in(lines(file)), p) + times_held(points_taken(run), p);
                &&& times_held(states.last().points, p) <= #[trigger] times_held(again, p) <= all
                &&& outlasts(run, p) ==> times_held(again, p) == all
            },
{
    lemma_run(file, run, states, (0u64, Seq::empty()));
    assert forall|p: Point|
        {
            let all = times_held(points_in(lines(file)), p) + times_held(points_taken(run), p);
            &&& times_held(states.last().points, p) <= #[trigger] times_held(again, p) <= all
            &&& outlasts(run, p) ==> times_held(again, p) == all
        } by {
        lemma_run(file, run, states, p);
        lemma_held_sorted(points_in(lines(file_after(file, run))), again, p);
    }
}

/// With a retention of `d` days, a snapshot of time `p` is kept after one at `t` exactly
/// if `p + d * 86_400 >= t`; without a retention every snapshot is.
pub proof fn law_retention_in_seconds(
    h: HistoryView,
    t: u64,
    m: Seq<char>,
    after: HistoryView,
    w: Write,
    p: Point,
)
    requires
        h.appended(t, m, after, w),
        h.points.contains(p),
        p != (t, m),
    ensures
        h.days > 0 ==> (after.points.contains(p) <==> p.0 + h.days * 86_400 >= t),
        h.days == 0 ==> after.points.contains(p),
        after.points.contains((t, m)),
{
    broadcast use vstd::seq_lib::group_filter_ensures;

    let kept = retained(h.points, t, h.days);
    let f = |q: Point| q.0 >= cutoff(t, h.days);
    assert(after.points == kept.push((t, m)));
    assert(after.points[kept.len() as int] == (t, m));
    if kept.contains(p) {
        let k = choose|k: int| 0 <= k < kept.len() && kept[k] == p;
        assert(after.points[k] == p);
    }
    if after.points.contains(p) {
        let k = choose|k: int| 0 <= k < after.points.len() && after.points[k] == p;
        assert(kept[k] == p);
    }
    if h.days > 0 && kept.contains(p) {
        let k = choose|k: int| 0 <= k < kept.len() && kept[k] == p;
        assert(kept == h.points.filter(f));
        assert(f(kept[k]));
    }
}

} // verus!

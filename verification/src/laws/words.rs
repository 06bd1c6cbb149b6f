//! Promises about text and numerals.

use vstd::prelude::*;

use crate::base64;
use crate::digits;
use crate::form;
use crate::text;

verus! {

/// The white space of ASCII.
pub open spec fn blank(c: char) -> bool {
    c == ' ' || c == '\t' || c == '\n' || c == '\r' || c == '\u{0b}' || c == '\u{0c}'
}

/// Of ASCII, exactly the blanks are white space.
pub proof fn law_blanks_are_space(c: char)
    requires
        (c as u32) < 0x80,
    ensures
        text::is_space(c) <==> blank(c),
{
}

/// White space is what Unicode calls so.
pub proof fn law_white_space(c: char)
    ensures
        text::is_space(c) <==> c == '\u{9}' || c == '\u{a}' || c == '\u{b}' || c == '\u{c}' || c
            == '\u{d}' || c == ' ' || c == '\u{85}' || c == '\u{a0}' || c == '\u{1680}' || (
        '\u{2000}' <= c <= '\u{200a}') || c == '\u{2028}' || c == '\u{2029}' || c == '\u{202f}'
            || c == '\u{205f}' || c == '\u{3000}',
{
}

pub proof fn lemma_trimmed_start(s: Seq<char>) -> (n: int)
    ensures
        0 <= n <= s.len(),
        text::trimmed_start(s) == s.skip(n),
        forall|i: int| 0 <= i < n ==> text::is_space(#[trigger] s[i]),
        n < s.len() ==> !text::is_space(s[n]),
    decreases s.len(),
{
    if s.len() > 0 && text::is_space(s[0]) {
        let rest = s.drop_first();
        let k = lemma_trimmed_start(rest);
        assert(rest.skip(k) =~= s.skip(k + 1));
        assert forall|i: int| 0 <= i < k + 1 implies text::is_space(#[trigger] s[i]) by {
            if i > 0 {
                assert(rest[i - 1] == s[i]);
            }
        }
        k + 1
    } else {
        assert(s.skip(0) =~= s);
        0
    }
}

pub proof fn lemma_trimmed_end(s: Seq<char>) -> (n: int)
    ensures
        0 <= n <= s.len(),
        text::trimmed_end(s) == s.take(n),
        forall|i: int| n <= i < s.len() ==> text::is_space(#[trigger] s[i]),
        n > 0 ==> !text::is_space(s[n - 1]),
    decreases s.len(),
{
    if s.len() > 0 && text::is_space(s.last()) {
        let rest = s.drop_last();
        let k = lemma_trimmed_end(rest);
        assert(rest.take(k) =~= s.take(k));
        assert forall|i: int| k <= i < s.len() implies text::is_space(#[trigger] s[i]) by {
            if i < rest.len() {
                assert(rest[i] == s[i]);
            }
        }
        k
    } else {
        assert(s.take(s.len() as int) =~= s);
        s.len() as int
    }
}

/// Trimming takes white space off both ends of a text, all of it, and nothing else.
pub proof fn law_trimming(s: &str, r: String)
    requires
        call_ensures(text::trim, (s,), r),
    ensures
        exists|a: int, b: int|
            #![trigger s@.subrange(a, b)]
            {
                &&& 0 <= a <= b <= s@.len()
                &&& r@ == s@.subrange(a, b)
                &&& forall|i: int|
                    0 <= i < a || b <= i < s@.len() ==> text::is_space(#[trigger] s@[i])
                &&& a < b ==> !text::is_space(s@[a]) && !text::is_space(s@[b - 1])
            },
{
    let a = lemma_trimmed_start(s@);
    let rest = s@.skip(a);
    let n = lemma_trimmed_end(rest);
    let b = a + n;
    assert(rest.take(n) =~= s@.subrange(a, b));
    assert forall|i: int| 0 <= i < a || b <= i < s@.len() implies text::is_space(
        #[trigger] s@[i],
    ) by {
        if i >= b {
            assert(rest[i - a] == s@[i]);
        }
    }
    if a < b {
        assert(rest[n - 1] == s@[b - 1]);
    }
}

/// A text without white space at its ends stays as it is, and white space round it
/// is taken off.
pub proof fn lemma_trimmed_core(pre: Seq<char>, core: Seq<char>, post: Seq<char>)
    requires
        forall|i: int| 0 <= i < pre.len() ==> text::is_space(#[trigger] pre[i]),
        forall|i: int| 0 <= i < post.len() ==> text::is_space(#[trigger] post[i]),
        core.len() > 0,
        !text::is_space(core[0]),
        !text::is_space(core.last()),
    ensures
        text::trimmed(pre + core + post) == core,
        text::trimmed_start(pre + core) == core,
{
    let s = pre + core + post;
    let a = lemma_trimmed_start(s);
    assert(s[pre.len() as int] == core[0]);
    assert(a <= pre.len());
    if a < pre.len() {
        assert(s[a] == pre[a]);
    }
    let rest = s.skip(a);
    assert(rest =~= core + post);
    let n = lemma_trimmed_end(rest);
    assert(rest[core.len() - 1] == core.last());
    assert(n >= core.len());
    if n > core.len() {
        assert(rest[n - 1] == post[n - 1 - core.len()]);
    }
    assert(rest.take(n) =~= core);
    let t = pre + core;
    let k = lemma_trimmed_start(t);
    assert(t[pre.len() as int] == core[0]);
    if k < pre.len() {
        assert(t[k] == pre[k]);
    }
    assert(t.skip(k) =~= core);
}

/// A text holds another exactly if the other stands at some place in it.
pub proof fn law_containing(s: &str, p: &str, r: bool)
    requires
        call_ensures(text::contains, (s, p), r),
    ensures
        r <==> exists|a: Seq<char>, b: Seq<char>| s@ == #[trigger] (a + p@ + b),
{
    if r {
        let i = choose|i: int| text::stands_at(s@, p@, i);
        let a = s@.take(i);
        let b = s@.skip(i + p@.len());
        assert(s@ =~= a + p@ + b);
    }
    if exists|a: Seq<char>, b: Seq<char>| s@ == #[trigger] (a + p@ + b) {
        let (a, b) = choose|a: Seq<char>, b: Seq<char>| s@ == #[trigger] (a + p@ + b);
        assert(s@.subrange(a.len() as int, (a.len() + p@.len()) as int) =~= p@);
        assert(text::stands_at(s@, p@, a.len() as int));
    }
}

/// What follows a prefix makes the text again with the prefix before it.
pub proof fn law_prefixes(s: &str, p: &str, r: Option<String>, rest: Seq<char>)
    requires
        call_ensures(text::strip_prefix, (s, p), r),
    ensures
        r matches Some(t) ==> s@ == p@ + t@,
        s@ == p@ + rest ==> (r matches Some(t) && t@ == rest),
{
    if let Some(t) = r {
        assert(s@ =~= s@.subrange(0, p@.len() as int) + s@.skip(p@.len() as int));
    }
    if s@ == p@ + rest {
        assert(s@.subrange(0, p@.len() as int) =~= p@);
        assert(s@.skip(p@.len() as int) =~= rest);
    }
}

/// A text splits at the first of a character into what stands before and after.
pub proof fn law_splitting_once(s: &str, c: char, r: Option<(String, String)>)
    requires
        call_ensures(text::split_once, (s, c), r),
    ensures
        match r {
            Some((a, b)) => s@ == a@ + seq![c] + b@ && !a@.contains(c),
            None => !s@.contains(c),
        },
{
    text::lemma_find(s@, c);
    if let Some((a, b)) = r {
        let i = text::find(s@, c);
        assert(s@ =~= s@.take(i) + seq![c] + s@.skip(i + 1));
    }
}

/// The parts of a text with a character put between them.
pub open spec fn joined(parts: Seq<Seq<char>>, c: char) -> Seq<char>
    decreases parts.len(),
{
    if parts.len() == 0 {
        Seq::empty()
    } else if parts.len() == 1 {
        parts[0]
    } else {
        parts[0] + seq![c] + joined(parts.drop_first(), c)
    }
}

proof fn lemma_split_joined_back(s: Seq<char>, c: char)
    ensures
        text::split_at_each(s, c).len() >= 1,
        joined(text::split_at_each(s, c), c) == s,
        forall|i: int|
            0 <= i < text::split_at_each(s, c).len() ==> !(#[trigger] text::split_at_each(
                s,
                c,
            )[i]).contains(c),
    decreases s.len(),
{
    let i = text::find(s, c);
    text::lemma_find(s, c);
    if i < s.len() {
        let rest = s.skip(i + 1);
        lemma_split_joined_back(rest, c);
        let parts = text::split_at_each(s, c);
        assert(parts.drop_first() =~= text::split_at_each(rest, c));
        assert(s =~= s.take(i) + seq![c] + rest);
        assert forall|k: int| 0 <= k < parts.len() implies !(#[trigger] parts[k]).contains(c) by {
            if k > 0 {
                assert(parts[k] == text::split_at_each(rest, c)[k - 1]);
            }
        }
    }
}

/// A text splits at every one of a character into parts that have none, and that
/// make the text again when they are joined.
pub proof fn law_splitting(s: &str, c: char, r: Vec<String>)
    requires
        call_ensures(text::split, (s, c), r),
    ensures
        r@.len() >= 1,
        joined(text::views(r@), c) == s@,
        forall|i: int| 0 <= i < r@.len() ==> !(#[trigger] r@[i])@.contains(c),
{
    lemma_split_joined_back(s@, c);
    assert forall|i: int| 0 <= i < r@.len() implies !(#[trigger] r@[i])@.contains(c) by {
        assert(text::views(r@)[i] == r@[i]@);
    }
}

/// Taking a character off the end takes all of it there, and nothing else.
pub proof fn law_trimming_one_character(s: &str, c: char, r: String)
    requires
        call_ensures(text::trim_end_matches, (s, c), r),
    ensures
        r@.len() <= s@.len(),
        r@ == s@.take(r@.len() as int),
        forall|i: int| r@.len() <= i < s@.len() ==> #[trigger] s@[i] == c,
        r@.len() > 0 ==> r@.last() != c,
{
    lemma_without_trailing(s@, c);
}

pub proof fn lemma_without_trailing(s: Seq<char>, c: char)
    ensures
        ({
            let r = text::without_trailing(s, c);
            &&& r.len() <= s.len()
            &&& r == s.take(r.len() as int)
            &&& forall|i: int| r.len() <= i < s.len() ==> #[trigger] s[i] == c
            &&& r.len() > 0 ==> r.last() != c
        }),
    decreases s.len(),
{
    if s.len() > 0 && s.last() == c {
        let rest = s.drop_last();
        lemma_without_trailing(rest, c);
        let r = text::without_trailing(s, c);
        assert(rest.take(r.len() as int) =~= s.take(r.len() as int));
        assert forall|i: int| r.len() <= i < s.len() implies #[trigger] s[i] == c by {
            if i < rest.len() {
                assert(rest[i] == s[i]);
            }
        }
    } else {
        assert(s.take(s.len() as int) =~= s);
    }
}

/// Two texts are the same but for the case of ASCII letters.
pub open spec fn same_but_for_case(a: Seq<char>, b: Seq<char>) -> bool {
    a.len() == b.len() && forall|i: int|
        0 <= i < a.len() ==> {
            ||| #[trigger] a[i] == b[i]
            ||| 'a' <= a[i] <= 'z' && a[i] as int - b[i] as int == 32
            ||| 'A' <= a[i] <= 'Z' && b[i] as int - a[i] as int == 32
        }
}

/// Comparing without regard to case looks past the case of ASCII letters only.
pub proof fn law_case_is_ignored(a: &str, b: &str, r: bool)
    requires
        call_ensures(text::eq_ignore_ascii_case, (a, b), r),
    ensures
        r <==> same_but_for_case(a@, b@),
{
    lemma_same_ignoring_case(a@, b@);
}

proof fn lemma_folded(x: char, y: char)
    requires
        text::folded(x) == text::folded(y),
    ensures
        x == y || ('a' <= x <= 'z' && x as int - y as int == 32) || ('A' <= x <= 'Z' && y as int
            - x as int == 32),
{
    let a = x as u32;
    let b = y as u32;
    assert(a <= 0x10ffff && b <= 0x10ffff);
    if 'A' <= x && x <= 'Z' {
        assert((a + 32) as u32 == a + 32);
    }
    if 'A' <= y && y <= 'Z' {
        assert((b + 32) as u32 == b + 32);
    }
    if !('A' <= x && x <= 'Z') && !('A' <= y && y <= 'Z') {
        assert(a == b);
        assert(x == y);
    }
}

pub proof fn lemma_same_ignoring_case(a: Seq<char>, b: Seq<char>)
    ensures
        text::same_ignoring_case(a, b) <==> same_but_for_case(a, b),
{
    if text::same_ignoring_case(a, b) {
        assert forall|i: int| 0 <= i < a.len() implies {
            ||| #[trigger] a[i] == b[i]
            ||| 'a' <= a[i] <= 'z' && a[i] as int - b[i] as int == 32
            ||| 'A' <= a[i] <= 'Z' && b[i] as int - a[i] as int == 32
        } by {
            assert(text::folded(a[i]) == text::folded(b[i]));
            lemma_folded(a[i], b[i]);
        }
    }
}

/// Texts are the same exactly if they are equal.
pub proof fn law_sameness(a: &str, b: &str, r: bool)
    requires
        call_ensures(text::same, (a, b), r),
    ensures
        r <==> a@ == b@,
{
}

/// A numeral is written digit by digit, the highest first, without leading zeros.
pub proof fn law_numerals_are_positional(n: nat, d: nat)
    requires
        d < 10,
    ensures
        digits::numeral(d, 10) == seq![(0x30 + d) as char],
        n > 0 ==> digits::numeral(n * 10 + d, 10) == digits::numeral(n, 10).push(
            (0x30 + d) as char,
        ),
{
    if n > 0 {
        let m = n * 10 + d;
        assert(m / 10 == n && m % 10 == d);
    }
}

/// The same for hexadecimal numerals.
pub proof fn law_hexadecimal_numerals_are_positional(n: nat, d: nat)
    requires
        d < 16,
    ensures
        ({
            let c = if d < 10 {
                (0x30 + d) as char
            } else {
                (0x61 + (d - 10)) as char
            };
            &&& digits::numeral(d, 16) == seq![c]
            &&& n > 0 ==> digits::numeral(n * 16 + d, 16) == digits::numeral(n, 16).push(c)
        }),
{
    if n > 0 {
        let m = n * 16 + d;
        assert(m / 16 == n && m % 16 == d);
    }
}

/// What is written as the decimal numeral of a number is its numeral.
pub proof fn law_decimals(n: u64, r: String)
    requires
        call_ensures(digits::decimal, (n,), r),
    ensures
        r@ == digits::numeral(n as nat, 10),
{
}

/// One decimal digit more makes a number ten times as large, and adds the digit.
/// Nothing but digits makes a number, one plus sign before them aside.
pub proof fn law_numbers_are_read_digit_by_digit(
    s: &str,
    t: &str,
    c: char,
    a: Option<u64>,
    b: Option<u64>,
)
    requires
        call_ensures(digits::parse, (s, 10), a),
        call_ensures(digits::parse, (t, 10), b),
        t@ == s@.push(c),
    ensures
        s@.len() == 0 && '0' <= c <= '9' ==> b == Some((c as u32 - 0x30) as u64),
        s@ == seq!['+'] && '0' <= c <= '9' ==> b == Some((c as u32 - 0x30) as u64),
        '0' <= c <= '9' ==> (a matches Some(n) ==> b == if n * 10 + (c as u32 - 0x30) <= u64::MAX {
            Some((n * 10 + (c as u32 - 0x30)) as u64)
        } else {
            None::<u64>
        }),
        !('0' <= c <= '9') ==> b is None,
        s@.len() > 0 && s@ != seq!['+'] && a is None ==> b is None,
        s@.len() == 0 ==> a is None,
{
    let d = digits::unsigned_digits(s@);
    let e = digits::unsigned_digits(t@);
    if s@.len() == 0 {
        assert(t@ =~= seq![c]);
        reveal_with_fuel(digits::value, 2);
        if c == '+' {
            assert(e.len() == 0);
        } else {
            assert(e.drop_last() =~= Seq::<char>::empty());
            assert(e.last() == c);
        }
    } else {
        assert(t@[0] == s@[0]);
        assert(e =~= d.push(c));
        assert(e.drop_last() =~= d);
        assert(e.last() == c);
        if d.len() == 0 {
            assert(s@ =~= seq!['+']);
            reveal_with_fuel(digits::value, 2);
        } else {
            assert(digits::value(e, 10) == digits::value(d, 10) * 10 + digits::digit_value(c) as nat);
            if digits::all_digits(e, 10) {
                assert forall|i: int| 0 <= i < d.len() implies digits::digit_value(
                    #[trigger] d[i],
                ) < 10 by {
                    assert(e[i] == d[i]);
                }
                assert(digits::digit_value(e[e.len() - 1]) < 10);
            }
            if digits::all_digits(d, 10) && '0' <= c <= '9' {
                assert forall|i: int| 0 <= i < e.len() implies digits::digit_value(
                    #[trigger] e[i],
                ) < 10 by {
                    if i < d.len() {
                        assert(e[i] == d[i]);
                    }
                }
            }
        }
    }
}

/// Each byte is spelled by two hexadecimal digits, the higher first, small letters
/// after nine.
pub proof fn law_hex_digits(bytes: &[u8], r: String, i: int)
    requires
        call_ensures(digits::hex, (bytes,), r),
        0 <= i < bytes@.len(),
    ensures
        r@.len() == 2 * bytes@.len(),
        r@[2 * i] == if bytes@[i] / 16 < 10 {
            (0x30 + bytes@[i] / 16) as char
        } else {
            (0x61 + (bytes@[i] / 16 - 10)) as char
        },
        r@[2 * i + 1] == if bytes@[i] % 16 < 10 {
            (0x30 + bytes@[i] % 16) as char
        } else {
            (0x61 + (bytes@[i] % 16 - 10)) as char
        },
{
}

/// The characters that base64 passes over: padding and white space.
pub open spec fn passed_over(c: u8) -> bool {
    c == 0x3d || c == 0x20 || c == 0x09 || c == 0x0a || c == 0x0c || c == 0x0d
}

/// A letter, a digit, a plus sign or a slash.
pub open spec fn of_base64(c: u8) -> bool {
    0x41 <= c <= 0x5a || 0x61 <= c <= 0x7a || 0x30 <= c <= 0x39 || c == 0x2b || c == 0x2f
}

/// Base64 decodes to the bytes that it encodes, padded or not, and whatever white
/// space stands in it; what holds any other character, or leaves one character over,
/// does not decode.
pub proof fn law_base64(s: &str, r: Option<Vec<u8>>, b: Seq<u8>)
    requires
        call_ensures(base64::base64_decode, (s,), r),
    ensures
        ({
            let clean = vstd::utf8::encode_utf8(s@).filter(|c: u8| !passed_over(c));
            &&& clean == base64::encoded(b) ==> (r matches Some(v) && v@ == b)
            &&& r is Some <==> clean.len() % 4 != 1 && all_of_base64(clean)
        }),
{
    let f = |c: u8| !passed_over(c);
    let g = |c: u8| base64::significant(c);
    assert(f =~= g);
    let clean = vstd::utf8::encode_utf8(s@).filter(f);
    base64::lemma_encoded_reads_back(b);
    lemma_decodes(clean);
}

/// All of a row is of base64.
pub open spec fn all_of_base64(s: Seq<u8>) -> bool {
    forall|i: int| 0 <= i < s.len() ==> of_base64(#[trigger] s[i])
}

proof fn lemma_group(g: Seq<u8>)
    requires
        1 <= g.len() <= 4,
    ensures
        base64::group_value(g) is Some <==> g.len() >= 2 && all_of_base64(g),
{
    assert(forall|c: u8| #[trigger] base64::sextet(c) is Some <==> of_base64(c));
    if g.len() >= 2 && base64::group_value(g) is Some {
        assert(of_base64(g[0]) && of_base64(g[1]));
        assert(g.len() >= 3 ==> of_base64(g[2]));
        assert(g.len() >= 4 ==> of_base64(g[3]));
        assert forall|i: int| 0 <= i < g.len() implies of_base64(#[trigger] g[i]) by {
            assert(i == 0 || i == 1 || i == 2 || i == 3);
        }
    }
}

proof fn lemma_all_split(s: Seq<u8>, k: int)
    requires
        0 <= k <= s.len(),
    ensures
        all_of_base64(s) <==> all_of_base64(s.take(k)) && all_of_base64(s.skip(k)),
{
    let g = s.take(k);
    let rest = s.skip(k);
    if all_of_base64(s) {
        assert forall|i: int| 0 <= i < rest.len() implies of_base64(#[trigger] rest[i]) by {
            assert(rest[i] == s[i + k]);
        }
        assert forall|i: int| 0 <= i < g.len() implies of_base64(#[trigger] g[i]) by {
            assert(g[i] == s[i]);
        }
    }
    if all_of_base64(g) && all_of_base64(rest) {
        assert forall|i: int| 0 <= i < s.len() implies of_base64(#[trigger] s[i]) by {
            if i < k {
                assert(g[i] == s[i]);
            } else {
                assert(rest[i - k] == s[i]);
            }
        }
    }
}

proof fn lemma_decodes_step(s: Seq<u8>, k: int)
    requires
        s.len() > 0,
        k == if s.len() < 4 {
            s.len() as int
        } else {
            4
        },
    ensures
        base64::decoded(s) is Some <==> base64::group_value(s.take(k)) is Some && base64::decoded(
            s.skip(k),
        ) is Some,
{
}

#[verifier::spinoff_prover]
proof fn lemma_decodes(s: Seq<u8>)
    ensures
        base64::decoded(s) is Some <==> s.len() % 4 != 1 && all_of_base64(s),
    decreases s.len(),
{
    if s.len() > 0 {
        let k: int = if s.len() < 4 {
            s.len() as int
        } else {
            4
        };
        lemma_group(s.take(k));
        lemma_decodes(s.skip(k));
        lemma_all_split(s, k);
        lemma_decodes_step(s, k);
    }
}

/// The value of a hexadecimal digit in either case.
pub open spec fn worth(c: u8) -> Option<int> {
    if 0x30 <= c <= 0x39 {
        Some(c - 0x30)
    } else if 0x41 <= c <= 0x46 {
        Some(c - 0x41 + 10)
    } else if 0x61 <= c <= 0x66 {
        Some(c - 0x61 + 10)
    } else {
        None
    }
}

/// Escapes stand for the bytes that their digits spell, and everything else, cut-off
/// or malformed escapes too, for itself, one after the other.
pub proof fn law_escapes(b: &[u8], c: &[u8], x: Vec<u8>, y: Vec<u8>)
    requires
        call_ensures(form::percent_decode, (b,), x),
        call_ensures(form::percent_decode, (c,), y),
    ensures
        b@.len() == 0 ==> x@.len() == 0,
        ({
            let escape = b@.len() >= 3 && b@[0] == 0x25 && worth(b@[1]) is Some && worth(
                b@[2],
            ) is Some;
            &&& escape && c@ == b@.skip(3) ==> x@ == seq![
                (worth(b@[1])->0 * 16 + worth(b@[2])->0) as u8,
            ] + y@
            &&& b@.len() > 0 && !escape && c@ == b@.skip(1) ==> x@ == seq![b@[0]] + y@
        }),
{
}

/// A field of a form is the first of its name: pairs stand between ampersands, a
/// name and its value on either side of an equals sign.
pub proof fn law_form_fields(
    body: &str,
    rest: &str,
    pair: Seq<char>,
    field: &str,
    x: Option<String>,
    y: Option<String>,
    value: &str,
    v: String,
)
    requires
        call_ensures(form::form_field, (body, field), x),
        call_ensures(form::form_field, (rest, field), y),
        call_ensures(form::url_decode, (value,), v),
        !pair.contains('&'),
        !field@.contains('='),
    ensures
        body@ == pair + seq!['&'] + rest@ && pair == field@ + seq!['='] + value@ ==> (
        x matches Some(t) && t@ == v@),
        body@ == pair && pair == field@ + seq!['='] + value@ ==> (x matches Some(t) && t@ == v@),
        body@ == pair + seq!['&'] + rest@ && (forall|w: Seq<char>|
            pair != #[trigger] (field@ + seq!['='] + w)) ==> {
            &&& x is Some <==> y is Some
            &&& x is Some ==> x->0@ == y->0@
        },
        body@ == pair && (forall|w: Seq<char>| pair != #[trigger] (field@ + seq!['='] + w))
            ==> x is None,
{
    text::lemma_split_joined(pair, '&', rest@);
    text::lemma_split_single(pair, '&');
    text::lemma_split_joined(field@, '=', value@);
    let all = text::split_at_each(pair + seq!['&'] + rest@, '&');
    assert(all.drop_first() =~= text::split_at_each(rest@, '&'));
    assert(seq![pair].drop_first() =~= Seq::<Seq<char>>::empty());
    assert(form::first_value(Seq::<Seq<char>>::empty(), field@) is None);
    text::lemma_find(pair, '=');
    if let Some((k, w)) = text::split_once_at(pair, '=') {
        let i = text::find(pair, '=');
        assert(pair =~= k + seq!['='] + w);
    }
}

/// A plus sign in a form is a space.
pub proof fn law_plus_signs_are_spaces(s: &str, t: &str, x: String, y: String)
    requires
        call_ensures(form::url_decode, (s,), x),
        call_ensures(form::url_decode, (t,), y),
        s@.len() == t@.len(),
        forall|i: int|
            0 <= i < s@.len() ==> #[trigger] t@[i] == if s@[i] == '+' {
                ' '
            } else {
                s@[i]
            },
    ensures
        x@ == y@,
{
    assert(text::replaced(s@, '+', ' ') =~= t@);
    assert(text::replaced(t@, '+', ' ') =~= t@);
}

/// Taking white space off the front takes all of it there, and nothing else.
pub proof fn law_trimming_the_front(s: &str, r: String)
    requires
        call_ensures(text::trim_start, (s,), r),
    ensures
        r@.len() <= s@.len(),
        r@ == s@.skip(s@.len() - r@.len()),
        forall|i: int| 0 <= i < s@.len() - r@.len() ==> text::is_space(#[trigger] s@[i]),
        r@.len() > 0 ==> !text::is_space(r@[0]),
{
    let n = lemma_trimmed_start(s@);
}

/// Replacing a character changes it wherever it stands, and no other.
pub proof fn law_replacing(s: &str, from: char, to: char, r: String)
    requires
        call_ensures(text::replace, (s, from, to), r),
    ensures
        r@.len() == s@.len(),
        forall|i: int|
            0 <= i < s@.len() ==> #[trigger] r@[i] == if s@[i] == from {
                to
            } else {
                s@[i]
            },
{
}

/// The first place of a character from a start on, or the end.
pub proof fn law_finding(cs: &[char], start: usize, c: char, r: usize)
    requires
        start <= cs@.len(),
        call_ensures(text::find_from, (cs, start, c), r),
    ensures
        start <= r <= cs@.len(),
        r < cs@.len() ==> cs@[r as int] == c,
        forall|i: int| start <= i < r ==> #[trigger] cs@[i] != c,
{
    let rest = cs@.skip(start as int);
    text::lemma_find(rest, c);
    assert forall|i: int| start <= i < r implies #[trigger] cs@[i] != c by {
        assert(rest[i - start] == cs@[i]);
    }
}

/// The characters of a text, in their order.
pub proof fn law_characters(s: &str, r: Vec<char>)
    requires
        call_ensures(text::chars, (s,), r),
    ensures
        r@ == s@,
{
}

/// A numeral is written behind what there is.
pub proof fn law_writing_numerals(out: &mut String, n: u64, radix: u64)
    requires
        call_ensures(digits::push_numeral, (out, n, radix), ()),
    ensures
        final(out)@ == old(out)@ + digits::numeral(n as nat, radix as nat),
{
}

} // verus!

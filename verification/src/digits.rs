//! Numbers as text: hexadecimal and decimal numerals, and reading them back.

use vstd::prelude::*;

use crate::text::chars;

verus! {

/// The digit for `n`, small letters after nine.
pub open spec fn digit(n: int) -> char {
    if n < 10 {
        (0x30 + n) as char
    } else {
        (0x57 + n) as char
    }
}

fn digit_char(n: u8) -> (r: char)
    requires
        n < 16,
    ensures
        r == digit(n as int),
{
    if n < 10 {
        (0x30 + n) as char
    } else {
        (0x57 + n) as char
    }
}

/// Dividing makes a number smaller.
pub proof fn lemma_quotient_smaller(n: nat, radix: nat)
    by (nonlinear_arith)
    requires
        n >= radix,
        radix >= 2,
    ensures
        n / radix < n,
{
}

/// The number `n` in base `radix`, without leading zeros.
pub open spec fn numeral(n: nat, radix: nat) -> Seq<char>
    decreases n,
{
    if n < radix || radix < 2 {
        seq![digit(n as int)]
    } else {
        proof {
            lemma_quotient_smaller(n, radix);
        }
        numeral(n / radix, radix).push(digit((n % radix) as int))
    }
}

/// Append the numeral of `n`.
pub fn push_numeral(out: &mut String, n: u64, radix: u64)
    requires
        2 <= radix <= 16,
    ensures
        final(out)@ == old(out)@ + numeral(n as nat, radix as nat),
    decreases n,
{
    let ghost before = out@;
    if n >= radix {
        proof {
            lemma_quotient_smaller(n as nat, radix as nat);
        }
        push_numeral(out, n / radix, radix);
        let d = (n % radix) as u8;
        out.push(digit_char(d));
        assert(out@ =~= before + numeral(n as nat, radix as nat));
    } else {
        out.push(digit_char(n as u8));
        assert(out@ =~= before + numeral(n as nat, radix as nat));
    }
}

/// The decimal numeral of `n`.
pub fn decimal(n: u64) -> (r: String)
    ensures
        r@ == numeral(n as nat, 10),
{
    let mut out = String::new();
    push_numeral(&mut out, n, 10);
    assert(out@ =~= numeral(n as nat, 10));
    out
}

/// Two hexadecimal digits for each byte.
pub open spec fn hex_of(bytes: Seq<u8>) -> Seq<char> {
    Seq::new(
        2 * bytes.len(),
        |i: int|
            if i % 2 == 0 {
                digit(bytes[i / 2] as int / 16)
            } else {
                digit(bytes[i / 2] as int % 16)
            },
    )
}

pub fn hex(bytes: &[u8]) -> (r: String)
    ensures
        r@ == hex_of(bytes@),
{
    let mut s = String::new();
    let mut i: usize = 0;
    while i < bytes.len()
        invariant
            i <= bytes@.len(),
            s@ == hex_of(bytes@).take(2 * i),
        decreases bytes.len() - i,
    {
        let ghost all = hex_of(bytes@);
        let b = bytes[i];
        s.push(digit_char(b / 16));
        s.push(digit_char(b % 16));
        assert(all[2 * i] == digit(b as int / 16));
        assert(all[2 * i + 1] == digit(b as int % 16));
        assert(all.take(2 * (i + 1)) =~= all.take(2 * i).push(all[2 * i]).push(all[2 * i + 1]));
        i += 1;
    }
    assert(s@ =~= hex_of(bytes@));
    s
}

/// Different bytes have different digits, all of them from `0` to `9` or from `a`
/// to `f`.
pub proof fn lemma_hex_of(a: Seq<u8>, b: Seq<u8>)
    ensures
        hex_of(a) == hex_of(b) <==> a == b,
        forall|i: int|
            0 <= i < hex_of(a).len() ==> {
                ||| '0' <= #[trigger] hex_of(a)[i] <= '9'
                ||| 'a' <= hex_of(a)[i] <= 'f'
            },
{
    if hex_of(a) == hex_of(b) {
        assert(hex_of(a).len() == 2 * a.len());
        assert(hex_of(b).len() == 2 * b.len());
        assert forall|i: int| 0 <= i < a.len() implies a[i] == b[i] by {
            assert(hex_of(a)[2 * i] == hex_of(b)[2 * i]);
            assert(hex_of(a)[2 * i + 1] == hex_of(b)[2 * i + 1]);
            assert(hex_of(a)[2 * i] == digit(a[i] as int / 16));
            assert(hex_of(a)[2 * i + 1] == digit(a[i] as int % 16));
            assert(hex_of(b)[2 * i] == digit(b[i] as int / 16));
            assert(hex_of(b)[2 * i + 1] == digit(b[i] as int % 16));
        }
        assert(a =~= b);
    }
}

/// What a digit counts for, whatever its base and case.
pub open spec fn digit_value(c: char) -> int {
    if '0' <= c && c <= '9' {
        c as int - 0x30
    } else if 'a' <= c && c <= 'z' {
        c as int - 0x57
    } else if 'A' <= c && c <= 'Z' {
        c as int - 0x37
    } else {
        36
    }
}

pub(crate) fn value_of_digit(c: char) -> (r: u64)
    ensures
        r == digit_value(c),
{
    let u: u32 = c as u32;
    if 0x30 <= u && u <= 0x39 {
        (u - 0x30) as u64
    } else if 0x61 <= u && u <= 0x7a {
        (u - 0x57) as u64
    } else if 0x41 <= u && u <= 0x5a {
        (u - 0x37) as u64
    } else {
        36
    }
}

/// A nonempty row of digits of base `radix`.
pub open spec fn all_digits(s: Seq<char>, radix: nat) -> bool {
    s.len() > 0 && forall|i: int| 0 <= i < s.len() ==> digit_value(#[trigger] s[i]) < radix
}

/// The number that a row of digits stands for.
pub open spec fn value(s: Seq<char>, radix: nat) -> nat
    decreases s.len(),
{
    if s.len() == 0 {
        0
    } else {
        value(s.drop_last(), radix) * radix + digit_value(s.last()) as nat
    }
}

/// The digits of a number as it may be written: one plus sign may stand first.
pub open spec fn unsigned_digits(s: Seq<char>) -> Seq<char> {
    if s.len() > 0 && s[0] == '+' {
        s.skip(1)
    } else {
        s
    }
}

/// The 64-bit number written in `s`, if it is one: digits only, at least one,
/// an optional plus sign before them, and not too large.
pub open spec fn parsed(s: Seq<char>, radix: nat) -> Option<u64> {
    let d = unsigned_digits(s);
    if all_digits(d, radix) && value(d, radix) <= u64::MAX {
        Some(value(d, radix) as u64)
    } else {
        None
    }
}

/// More digits never make a number smaller.
proof fn lemma_value_grows(s: Seq<char>, radix: nat, k: int)
    requires
        0 <= k <= s.len(),
        radix >= 1,
    ensures
        value(s.take(k), radix) <= value(s, radix),
    decreases s.len() - k,
{
    if k < s.len() {
        let t = s.take(k + 1);
        assert(t.drop_last() =~= s.take(k));
        let v = value(s.take(k), radix);
        assert(v <= v * radix) by (nonlinear_arith)
            requires
                radix >= 1,
        ;
        lemma_value_grows(s, radix, k + 1);
    } else {
        assert(s.take(k) =~= s);
    }
}

/// Read a number.
pub fn parse(s: &str, radix: u64) -> (r: Option<u64>)
    requires
        2 <= radix <= 36,
    ensures
        r == parsed(s@, radix as nat),
{
    let cs = chars(s);
    let mut i: usize = 0;
    if cs.len() > 0 && cs[0] == '+' {
        i = 1;
    }
    let ghost d = unsigned_digits(s@);
    let start = i;
    if start == cs.len() {
        return None;
    }
    let mut acc: u64 = 0;
    assert(d.take(0) =~= Seq::empty());
    while i < cs.len()
        invariant
            2 <= radix <= 36,
            cs@ == s@,
            d == unsigned_digits(s@),
            start <= 1,
            start < cs@.len(),
            start <= i <= cs@.len(),
            d.len() == cs@.len() - start,
            forall|k: int| 0 <= k < d.len() ==> #[trigger] d[k] == cs@[start + k],
            forall|k: int| 0 <= k < i - start ==> digit_value(#[trigger] d[k]) < radix,
            acc == value(d.take(i - start), radix as nat),
        decreases cs.len() - i,
    {
        let v = value_of_digit(cs[i]);
        assert(d[i - start] == cs@[i as int]);
        if v >= radix {
            assert(!all_digits(d, radix as nat));
            return None;
        }
        let ghost k = i - start;
        proof {
            assert(d.take(k + 1).drop_last() =~= d.take(k));
            assert(value(d.take(k + 1), radix as nat) == acc * radix + v);
            lemma_value_grows(d, radix as nat, k + 1);
        }
        if acc > (u64::MAX - v) / radix {
            assert(acc * radix + v > u64::MAX) by (nonlinear_arith)
                requires
                    acc > (u64::MAX - v) / radix as int,
                    radix >= 2,
                    v <= u64::MAX,
            ;
            return None;
        }
        assert(acc * radix + v <= u64::MAX) by (nonlinear_arith)
            requires
                acc <= (u64::MAX - v) / radix as int,
                radix >= 2,
                v <= u64::MAX,
        ;
        acc = acc * radix + v;
        i += 1;
    }
    assert(d.take(i - start) =~= d);
    Some(acc)
}

/// The digits of a numeral are digits, and stand for its number.
pub proof fn lemma_numeral_value(n: nat, radix: nat)
    requires
        2 <= radix <= 16,
    ensures
        all_digits(numeral(n, radix), radix),
        value(numeral(n, radix), radix) == n,
        forall|i: int|
            0 <= i < numeral(n, radix).len() ==> {
                ||| '0' <= #[trigger] numeral(n, radix)[i] <= '9'
                ||| 'a' <= numeral(n, radix)[i] <= 'f'
            },
    decreases n,
{
    let s = numeral(n, radix);
    if n < radix {
        assert(s.drop_last() =~= Seq::empty());
        assert(value(Seq::<char>::empty(), radix) == 0);
        assert(value(s, radix) == 0 * radix + digit_value(s.last()) as nat);
        assert(0 * radix == 0) by (nonlinear_arith);
    } else {
        lemma_quotient_smaller(n, radix);
        lemma_numeral_value(n / radix, radix);
        let front = numeral(n / radix, radix);
        assert(s.drop_last() =~= front);
        assert forall|i: int| 0 <= i < s.len() implies digit_value(#[trigger] s[i]) < radix && ('0'
            <= s[i] <= '9' || 'a' <= s[i] <= 'f') by {
            if i < front.len() {
                assert(s[i] == front[i]);
            }
        }
        assert((n / radix) * radix + n % radix == n) by (nonlinear_arith)
            requires
                radix >= 2,
        ;
    }
}

/// A number that is written out and read back is the same number.
pub proof fn law_numerals_read_back(n: u64, radix: nat)
    requires
        2 <= radix <= 16,
    ensures
        parsed(numeral(n as nat, radix), radix) == Some(n),
{
    lemma_numeral_value(n as nat, radix);
    let s = numeral(n as nat, radix);
    assert(s[0] != '+');
}

} // verus!

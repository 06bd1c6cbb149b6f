//! A small base64 decoder: standard alphabet, optional padding, and white
//! space between the characters passed over.

use vstd::prelude::*;

verus! {

/// The six bits that a character of the alphabet stands for.
pub open spec fn sextet(c: u8) -> Option<int> {
    if 0x41 <= c <= 0x5a {
        Some(c - 0x41)
    } else if 0x61 <= c <= 0x7a {
        Some(c - 0x61 + 26)
    } else if 0x30 <= c <= 0x39 {
        Some(c - 0x30 + 52)
    } else if c == 0x2b {
        Some(62)
    } else if c == 0x2f {
        Some(63)
    } else {
        None
    }
}

fn sextet_of(c: u8) -> (r: Option<u32>)
    ensures
        match r {
            Some(v) => sextet(c) == Some(v as int) && v < 64,
            None => sextet(c) is None,
        },
{
    if 0x41 <= c && c <= 0x5a {
        Some((c - 0x41) as u32)
    } else if 0x61 <= c && c <= 0x7a {
        Some((c - 0x61 + 26) as u32)
    } else if 0x30 <= c && c <= 0x39 {
        Some((c - 0x30 + 52) as u32)
    } else if c == 0x2b {
        Some(62)
    } else if c == 0x2f {
        Some(63)
    } else {
        None
    }
}

/// Neither padding nor ASCII white space.
pub open spec fn significant(c: u8) -> bool {
    c != 0x3d && c != 0x20 && c != 0x09 && c != 0x0a && c != 0x0c && c != 0x0d
}

/// The number that up to four characters spell, filled up with zero bits, if
/// all of them are of the alphabet.
pub open spec fn group_value(g: Seq<u8>) -> Option<int> {
    if g.len() == 2 && sextet(g[0]) is Some && sextet(g[1]) is Some {
        Some((sextet(g[0])->0 * 64 + sextet(g[1])->0) * 4096)
    } else if g.len() == 3 && sextet(g[0]) is Some && sextet(g[1]) is Some && sextet(
        g[2],
    ) is Some {
        Some(((sextet(g[0])->0 * 64 + sextet(g[1])->0) * 64 + sextet(g[2])->0) * 64)
    } else if g.len() == 4 && sextet(g[0]) is Some && sextet(g[1]) is Some && sextet(
        g[2],
    ) is Some && sextet(g[3]) is Some {
        Some(
            ((sextet(g[0])->0 * 64 + sextet(g[1])->0) * 64 + sextet(g[2])->0) * 64 + sextet(
                g[3],
            )->0,
        )
    } else {
        None
    }
}

/// The leading `k` bytes of a 24-bit number.
pub open spec fn leading_bytes(n: int, k: int) -> Seq<u8> {
    seq![(n / 65536) as u8, (n / 256 % 256) as u8, (n % 256) as u8].take(k)
}

/// What significant characters decode to: four make three bytes, and a rest of
/// three or two makes two or one. A rest of one is no encoding.
pub open spec fn decoded(s: Seq<u8>) -> Option<Seq<u8>>
    decreases s.len(),
{
    if s.len() == 0 {
        Some(Seq::empty())
    } else {
        let k = if s.len() < 4 {
            s.len() as int
        } else {
            4
        };
        match (group_value(s.take(k)), decoded(s.skip(k))) {
            (Some(n), Some(rest)) => Some(leading_bytes(n, k - 1) + rest),
            _ => None,
        }
    }
}

/// What base64 text decodes to.
pub open spec fn base64_decoded(s: Seq<char>) -> Option<Seq<u8>> {
    decoded(vstd::utf8::encode_utf8(s).filter(|c: u8| significant(c)))
}

fn significant_of(s: &[u8]) -> (r: Vec<u8>)
    ensures
        r@ == s@.filter(|c: u8| significant(c)),
{
    let mut out: Vec<u8> = Vec::new();
    let mut i: usize = 0;
    let ghost keep = |c: u8| significant(c);
    proof {
        assert(s@.take(0) =~= Seq::empty());
        reveal(Seq::filter);
    }
    while i < s.len()
        invariant
            i <= s@.len(),
            keep == (|c: u8| significant(c)),
            out@ == s@.take(i as int).filter(keep),
        decreases s.len() - i,
    {
        let c = s[i];
        proof {
            reveal(Seq::filter);
            assert(s@.take(i as int + 1).drop_last() =~= s@.take(i as int));
        }
        if c != 0x3d && c != 0x20 && c != 0x09 && c != 0x0a && c != 0x0c && c != 0x0d {
            out.push(c);
        }
        i += 1;
    }
    assert(s@.take(i as int) =~= s@);
    out
}

/// The number that the `k` characters from place `i` on spell.
fn group_at(clean: &Vec<u8>, i: usize, k: usize) -> (r: Option<u32>)
    requires
        2 <= k <= 4,
        i + k <= clean@.len(),
    ensures
        match r {
            Some(n) => group_value(clean@.subrange(i as int, i + k)) == Some(n as int) && n
                < 16777216,
            None => group_value(clean@.subrange(i as int, i + k)) is None,
        },
{
    let n = clean.len();
    assert(i + k <= n);
    let ghost g = clean@.subrange(i as int, i + k);
    assert(forall|m: int| 0 <= m < k ==> #[trigger] g[m] == clean@[i + m]);
    let a = sextet_of(clean[i]);
    let b = sextet_of(clean[i + 1]);
    let c = if k > 2 {
        sextet_of(clean[i + 2])
    } else {
        Some(0)
    };
    let d = if k > 3 {
        sextet_of(clean[i + 3])
    } else {
        Some(0)
    };
    assert(g[0] == clean@[i as int] && g[1] == clean@[i + 1]);
    assert(k > 2 ==> g[2] == clean@[i + 2]);
    assert(k > 3 ==> g[3] == clean@[i + 3]);
    match (a, b, c, d) {
        (Some(a), Some(b), Some(c), Some(d)) => Some(((a * 64 + b) * 64 + c) * 64 + d),
        _ => None,
    }
}

/// Decode base64 text.
pub fn base64_decode(s: &str) -> (r: Option<Vec<u8>>)
    ensures
        match r {
            Some(v) => base64_decoded(s@) == Some(v@),
            None => base64_decoded(s@) is None,
        },
{
    let clean = significant_of(s.as_bytes());
    let mut out: Vec<u8> = Vec::new();
    let mut i: usize = 0;
    assert(clean@.skip(0) =~= clean@);
    assert(decoded(clean@) matches Some(d) ==> d =~= out@ + d);
    while i < clean.len()
        invariant
            decoded(clean@) == base64_decoded(s@),
            i <= clean@.len(),
            match decoded(clean@) {
                Some(all) => decoded(clean@.skip(i as int)) matches Some(rest) && all == out@
                    + rest,
                None => decoded(clean@.skip(i as int)) is None,
            },
        decreases clean.len() - i,
    {
        let left = clean.len() - i;
        let k: usize = if left < 4 {
            left
        } else {
            4
        };
        let ghost rest = clean@.skip(i as int);
        let ghost before = out@;
        assert(rest.take(k as int) =~= clean@.subrange(i as int, i + k));
        assert(rest.skip(k as int) =~= clean@.skip(i + k));
        if k == 1 {
            return None;
        }
        match group_at(&clean, i, k) {
            Some(n) => {
                out.push((n / 65536) as u8);
                if k > 2 {
                    out.push((n / 256 % 256) as u8);
                }
                if k > 3 {
                    out.push((n % 256) as u8);
                }
                assert(out@ =~= before + leading_bytes(n as int, k - 1));
            },
            None => {
                return None;
            },
        }
        assert(decoded(rest) matches Some(d) ==> out@ + decoded(clean@.skip(i + k))->0 =~= before
            + d);
        i += k;
    }
    assert(out@ + Seq::empty() =~= out@);
    Some(out)
}

/// The character for six bits.
pub open spec fn alphabet(v: int) -> u8 {
    if v < 26 {
        (0x41 + v) as u8
    } else if v < 52 {
        (0x61 + (v - 26)) as u8
    } else if v < 62 {
        (0x30 + (v - 52)) as u8
    } else if v == 62 {
        0x2b
    } else {
        0x2f
    }
}

/// The base64 of some bytes, padding left out.
pub open spec fn encoded(b: Seq<u8>) -> Seq<u8>
    decreases b.len(),
{
    if b.len() == 0 {
        Seq::empty()
    } else if b.len() == 1 {
        seq![alphabet(b[0] as int / 4), alphabet(b[0] as int % 4 * 16)]
    } else if b.len() == 2 {
        seq![
            alphabet(b[0] as int / 4),
            alphabet(b[0] as int % 4 * 16 + b[1] as int / 16),
            alphabet(b[1] as int % 16 * 4),
        ]
    } else {
        seq![
            alphabet(b[0] as int / 4),
            alphabet(b[0] as int % 4 * 16 + b[1] as int / 16),
            alphabet(b[1] as int % 16 * 4 + b[2] as int / 64),
            alphabet(b[2] as int % 64),
        ] + encoded(b.skip(3))
    }
}

proof fn lemma_alphabet(v: int)
    requires
        0 <= v < 64,
    ensures
        sextet(alphabet(v)) == Some(v),
{
}

proof fn lemma_one_byte(x: int)
    requires
        0 <= x < 256,
    ensures
        (x / 4 * 64 + x % 4 * 16) * 4096 / 65536 == x,
{
}

proof fn lemma_two_bytes(x: int, y: int)
    requires
        0 <= x < 256,
        0 <= y < 256,
    ensures
        ((x / 4 * 64 + (x % 4 * 16 + y / 16)) * 64 + y % 16 * 4) * 64 == x * 65536 + y * 256,
        (x * 65536 + y * 256) / 65536 == x,
        (x * 65536 + y * 256) / 256 % 256 == y,
{
}

proof fn lemma_three_bytes(x: int, y: int, z: int)
    requires
        0 <= x < 256,
        0 <= y < 256,
        0 <= z < 256,
    ensures
        ((x / 4 * 64 + (x % 4 * 16 + y / 16)) * 64 + (y % 16 * 4 + z / 64)) * 64 + z % 64 == x
            * 65536 + y * 256 + z,
        (x * 65536 + y * 256 + z) / 65536 == x,
        (x * 65536 + y * 256 + z) / 256 % 256 == y,
        (x * 65536 + y * 256 + z) % 256 == z,
{
    let n = x * 65536 + y * 256 + z;
    assert(x == x / 4 * 4 + x % 4);
    assert(y == y / 16 * 16 + y % 16);
    assert(z == z / 64 * 64 + z % 64);
    assert(n / 65536 == x) by {
        assert(0 <= y * 256 + z < 65536);
    }
    assert(n / 256 == x * 256 + y);
}

pub proof fn lemma_encoded_reads_back(b: Seq<u8>)
    ensures
        decoded(encoded(b)) == Some(b),
    decreases b.len(),
{
    let e = encoded(b);
    assert(decoded(Seq::<u8>::empty()) == Some(Seq::<u8>::empty()));
    if b.len() == 1 {
        let x = b[0] as int;
        lemma_alphabet(x / 4);
        lemma_alphabet(x % 4 * 16);
        lemma_one_byte(x);
        assert(e.take(2) =~= e);
        assert(e.skip(2) =~= Seq::empty());
        assert(leading_bytes((x / 4 * 64 + x % 4 * 16) * 4096, 1) + Seq::<u8>::empty() =~= b);
    } else if b.len() == 2 {
        let x = b[0] as int;
        let y = b[1] as int;
        lemma_alphabet(x / 4);
        lemma_alphabet(x % 4 * 16 + y / 16);
        lemma_alphabet(y % 16 * 4);
        lemma_two_bytes(x, y);
        assert(e.take(3) =~= e);
        assert(e.skip(3) =~= Seq::empty());
        assert(leading_bytes(x * 65536 + y * 256, 2) + Seq::<u8>::empty() =~= b);
    } else if b.len() > 2 {
        let x = b[0] as int;
        let y = b[1] as int;
        let z = b[2] as int;
        lemma_alphabet(x / 4);
        lemma_alphabet(x % 4 * 16 + y / 16);
        lemma_alphabet(y % 16 * 4 + z / 64);
        lemma_alphabet(z % 64);
        lemma_three_bytes(x, y, z);
        assert(e.skip(4) =~= encoded(b.skip(3)));
        lemma_encoded_reads_back(b.skip(3));
        assert(leading_bytes(x * 65536 + y * 256 + z, 3) + b.skip(3) =~= b);
    }
}

/// Text that spells the base64 of some bytes, padded or not, decodes to them.
pub proof fn law_base64_reads_back(s: Seq<char>, b: Seq<u8>)
    requires
        vstd::utf8::encode_utf8(s).filter(|c: u8| significant(c)) == encoded(b),
    ensures
        base64_decoded(s) == Some(b),
{
    lemma_encoded_reads_back(b);
}

} // verus!

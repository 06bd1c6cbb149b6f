//! Password hashes: PBKDF2 with HMAC-SHA-256, kept as
//! `pbkdf2-sha256$<rounds>$<salt>$<hash>`, salt and hash in hexadecimal. The
//! number of rounds is read back from the text, so it can be tuned without
//! touching the hashes that are there.

use vstd::prelude::*;

use crate::auth::ct_eq;
use crate::crypto::{hmac_sha256, random_bytes, NoRandomness};
use crate::digits;
use crate::text;

verus! {

pub const SCHEME: &'static str = "pbkdf2-sha256";

pub const ROUNDS: u64 = 600_000;

pub const SALT_LEN: usize = 16;

/// The tags that are folded into a hash, each made of the one before.
pub open spec fn chained(password: Seq<u8>, salt: Seq<u8>, round: nat) -> Seq<u8>
    decreases round,
{
    if round <= 1 {
        crate::crypto::hmac_sha256_tag(password, salt + seq![0u8, 0u8, 0u8, 1u8])
    } else {
        crate::crypto::hmac_sha256_tag(password, chained(password, salt, (round - 1) as nat))
    }
}

/// Two rows of bytes, folded into one.
pub open spec fn folded(a: Seq<u8>, b: Seq<u8>) -> Seq<u8> {
    Seq::new(a.len(), |i: int| a[i] ^ b[i])
}

/// The hash of a password after a number of rounds, which is one block of 32
/// bytes long.
pub open spec fn derived(password: Seq<u8>, salt: Seq<u8>, rounds: nat) -> Seq<u8>
    decreases rounds,
{
    if rounds <= 1 {
        chained(password, salt, 1)
    } else {
        folded(
            derived(password, salt, (rounds - 1) as nat),
            chained(password, salt, rounds),
        )
    }
}

/// Hash a password. No round is as good as one.
pub fn pbkdf2(password: &[u8], salt: &[u8], rounds: u64) -> (r: Vec<u8>)
    ensures
        r@ == derived(password@, salt@, rounds as nat),
        r@.len() == 32,
{
    let mut first: Vec<u8> = vstd::slice::slice_to_vec(salt);
    first.push(0);
    first.push(0);
    first.push(0);
    first.push(1);
    assert(first@ =~= salt@ + seq![0u8, 0u8, 0u8, 1u8]);
    let mut tag = hmac_sha256(password, first.as_slice());
    let mut out: Vec<u8> = vstd::slice::slice_to_vec(tag.as_slice());
    let mut n: u64 = 1;
    while n < rounds
        invariant
            1 <= n,
            n == 1 || n <= rounds,
            tag@ == chained(password@, salt@, n as nat),
            tag@.len() == 32,
            out@ == derived(password@, salt@, n as nat),
            out@.len() == 32,
        decreases rounds - n,
    {
        tag = hmac_sha256(password, tag.as_slice());
        let ghost before = out@;
        let mut i: usize = 0;
        while i < 32
            invariant
                i <= 32,
                tag@.len() == 32,
                before.len() == 32,
                out@.len() == 32,
                forall|k: int| 0 <= k < i ==> #[trigger] out@[k] == before[k] ^ tag@[k],
                forall|k: int| i <= k < 32 ==> #[trigger] out@[k] == before[k],
            decreases 32 - i,
        {
            let b: u8 = out[i] ^ tag[i];
            out.set(i, b);
            i += 1;
        }
        assert(out@ =~= folded(before, tag@));
        n += 1;
    }
    out
}

/// A password hash as it is kept.
pub open spec fn hash_text(password: Seq<char>, salt: Seq<u8>, rounds: u64) -> Seq<char> {
    SCHEME@ + "$"@ + digits::numeral(rounds as nat, 10) + "$"@ + digits::hex_of(salt) + "$"@
        + digits::hex_of(derived(vstd::utf8::encode_utf8(password), salt, rounds as nat))
}

/// Hash a password with a given salt.
pub fn hash_with(password: &str, salt: &[u8], rounds: u64) -> (r: String)
    ensures
        r@ == hash_text(password@, salt@, rounds),
{
    let hash = pbkdf2(password.as_bytes(), salt, rounds);
    let mut out = String::new();
    out.append(SCHEME);
    out.append("$");
    digits::push_numeral(&mut out, rounds, 10);
    out.append("$");
    let salt_text = digits::hex(salt);
    out.append(salt_text.as_str());
    out.append("$");
    let hash_text = digits::hex(hash.as_slice());
    out.append(hash_text.as_str());
    out
}

/// Hash a password with a random salt.
pub fn hash_password(password: &str) -> (r: Result<String, NoRandomness>)
    ensures
        r matches Ok(h) ==> exists|salt: Seq<u8>|
            salt.len() == SALT_LEN && h@ == #[trigger] hash_text(password@, salt, ROUNDS),
{
    hash_with_draw(password, random_bytes(SALT_LEN))
}

/// Hash a password with the salt that was drawn for it. There is no hash where
/// the draw failed.
pub fn hash_with_draw(password: &str, drawn: Result<Vec<u8>, NoRandomness>) -> (r: Result<
    String,
    NoRandomness,
>)
    ensures
        match r {
            Ok(h) => drawn matches Ok(salt) && h@ == hash_text(password@, salt@, ROUNDS),
            Err(_) => drawn is Err,
        },
{
    match drawn {
        Ok(salt) => Ok(hash_with(password, salt.as_slice(), ROUNDS)),
        Err(e) => Err(e),
    }
}

/// The bytes that a text spells in hexadecimal, if it does.
pub open spec fn unhexed(s: Seq<char>) -> Option<Seq<u8>>
    decreases s.len(),
{
    if s.len() == 0 {
        Some(Seq::empty())
    } else if s.len() == 1 {
        None
    } else {
        let hi = digits::digit_value(s[0]);
        let lo = digits::digit_value(s[1]);
        match unhexed(s.skip(2)) {
            Some(rest) if 0 <= hi < 16 && 0 <= lo < 16 => Some(
                seq![(hi * 16 + lo) as u8] + rest,
            ),
            _ => None,
        }
    }
}

fn unhex(s: &str) -> (r: Option<Vec<u8>>)
    ensures
        match r {
            Some(b) => unhexed(s@) == Some(b@),
            None => unhexed(s@) is None,
        },
{
    let cs = text::chars(s);
    let mut out: Vec<u8> = Vec::new();
    let n = cs.len();
    if n % 2 == 1 {
        proof {
            lemma_odd(s@);
        }
        return None;
    }
    let mut i: usize = n;
    assert(cs@.skip(n as int) =~= Seq::<char>::empty());
    assert(out@ =~= Seq::<u8>::empty());
    while i > 0
        invariant
            cs@ == s@,
            n == cs@.len(),
            i <= n,
            i % 2 == 0,
            unhexed(cs@.skip(i as int)) == Some(out@),
        decreases i,
    {
        let hi = digits::value_of_digit(cs[i - 2]);
        let lo = digits::value_of_digit(cs[i - 1]);
        let ghost here = cs@.skip(i - 2);
        proof {
            assert(here.skip(2) =~= cs@.skip(i as int));
            assert(here[0] == cs@[i - 2] && here[1] == cs@[i - 1]);
        }
        if hi >= 16 || lo >= 16 {
            proof {
                lemma_unhexed_suffix(s@, i - 2);
            }
            return None;
        }
        out.insert(0, (hi * 16 + lo) as u8);
        assert(unhexed(here) matches Some(all) && all =~= out@);
        i = i - 2;
    }
    assert(cs@.skip(0) =~= cs@);
    Some(out)
}

/// An odd number of digits spells no bytes.
proof fn lemma_odd(s: Seq<char>)
    requires
        s.len() % 2 == 1,
    ensures
        unhexed(s) is None,
    decreases s.len(),
{
    if s.len() > 1 {
        lemma_odd(s.skip(2));
    }
}

/// A text whose end spells no bytes spells none.
proof fn lemma_unhexed_suffix(s: Seq<char>, k: int)
    requires
        0 <= k <= s.len(),
        k % 2 == 0,
        unhexed(s.skip(k)) is None,
    ensures
        unhexed(s) is None,
    decreases s.len(),
{
    if k == 0 {
        assert(s.skip(0) =~= s);
    } else {
        assert(s.skip(2).skip(k - 2) =~= s.skip(k));
        lemma_unhexed_suffix(s.skip(2), k - 2);
    }
}

/// A password goes with a hash that is kept.
pub open spec fn goes_with(password: Seq<char>, kept: Seq<char>) -> bool {
    let parts = text::split_at_each(kept, '$');
    &&& parts.len() == 4
    &&& parts[0] == SCHEME@
    &&& digits::parsed(parts[1], 10) matches Some(rounds)
    &&& unhexed(parts[2]) matches Some(salt)
    &&& parts[3] == digits::hex_of(
        derived(vstd::utf8::encode_utf8(password), salt, rounds as nat),
    )
}

/// Whether a password goes with a hash that is kept.
pub fn verify_password(password: &str, kept: &str) -> (r: bool)
    ensures
        r == goes_with(password@, kept@),
{
    let parts = text::split(kept, '$');
    let ghost all = text::split_at_each(kept@, '$');
    assert(all.len() == parts@.len());
    if parts.len() != 4 {
        return false;
    }
    assert(all[0] == parts@[0]@ && all[1] == parts@[1]@ && all[2] == parts@[2]@ && all[3]
        == parts@[3]@);
    if !text::same(parts[0].as_str(), SCHEME) {
        return false;
    }
    let rounds = match digits::parse(parts[1].as_str(), 10) {
        Some(n) => n,
        None => {
            return false;
        },
    };
    let salt = match unhex(parts[2].as_str()) {
        Some(b) => b,
        None => {
            return false;
        },
    };
    let hash = pbkdf2(password.as_bytes(), salt.as_slice(), rounds);
    let expected = digits::hex(hash.as_slice());
    ct_eq(expected.as_str(), parts[3].as_str())
}

/// Bytes that are spelled out are read back.
proof fn lemma_hex_reads_back(b: Seq<u8>)
    ensures
        unhexed(digits::hex_of(b)) == Some(b),
        !digits::hex_of(b).contains('$'),
    decreases b.len(),
{
    let s = digits::hex_of(b);
    assert forall|i: int| 0 <= i < s.len() implies #[trigger] s[i] != '$' by {}
    if b.len() == 0 {
        assert(s =~= Seq::<char>::empty());
        assert(b =~= Seq::<u8>::empty());
    } else {
        let rest = b.drop_first();
        assert(s.skip(2) =~= digits::hex_of(rest)) by {
            assert forall|i: int| 0 <= i < s.len() - 2 implies #[trigger] s.skip(2)[i]
                == digits::hex_of(rest)[i] by {
                assert((i + 2) / 2 == i / 2 + 1);
                assert((i + 2) % 2 == i % 2);
                assert(rest[i / 2] == b[i / 2 + 1]);
            }
        }
        lemma_hex_reads_back(rest);
        assert(s[0] == digits::digit(b[0] as int / 16));
        assert(s[1] == digits::digit(b[0] as int % 16));
        let hi = b[0] as int / 16;
        let lo = b[0] as int % 16;
        assert(hi * 16 + lo == b[0]);
        assert(seq![b[0]] + rest =~= b);
    }
}

/// A password goes with its own hash, and another password does only if it
/// happens to have the same one.
pub proof fn law_passwords_go_with_their_hash(
    password: Seq<char>,
    other: Seq<char>,
    salt: Seq<u8>,
    rounds: u64,
)
    ensures
        goes_with(password, hash_text(password, salt, rounds)),
        goes_with(other, hash_text(password, salt, rounds)) <==> digits::hex_of(
            derived(vstd::utf8::encode_utf8(other), salt, rounds as nat),
        ) == digits::hex_of(derived(vstd::utf8::encode_utf8(password), salt, rounds as nat)),
{
    let a = SCHEME@;
    let b = digits::numeral(rounds as nat, 10);
    let c = digits::hex_of(salt);
    let hash = derived(vstd::utf8::encode_utf8(password), salt, rounds as nat);
    let d = digits::hex_of(hash);
    let kept = hash_text(password, salt, rounds);
    reveal_strlit("pbkdf2-sha256");
    reveal_strlit("$");
    assert("$"@ =~= seq!['$']);
    assert(!a.contains('$'));
    digits::lemma_numeral_value(rounds as nat, 10);
    assert(!b.contains('$'));
    lemma_hex_reads_back(salt);
    lemma_hex_reads_back(hash);
    digits::law_numerals_read_back(rounds, 10);
    assert(kept =~= a + seq!['$'] + (b + seq!['$'] + (c + seq!['$'] + d)));
    text::lemma_split_joined(a, '$', b + seq!['$'] + (c + seq!['$'] + d));
    text::lemma_split_joined(b, '$', c + seq!['$'] + d);
    text::lemma_split_joined(c, '$', d);
    text::lemma_split_single(d, '$');
    assert(text::split_at_each(kept, '$') =~= seq![a, b, c, d]);
}

} // verus!

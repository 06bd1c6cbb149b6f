//! Reading one field out of an `application/x-www-form-urlencoded` body.

use vstd::prelude::*;

use crate::text;
use crate::utf8;

verus! {

/// Value of a single ASCII hex digit.
pub open spec fn hex_digit_value(b: u8) -> Option<u8> {
    if 0x30 <= b <= 0x39 {
        Some((b - 0x30) as u8)
    } else if 0x61 <= b <= 0x66 {
        Some((b - 0x61 + 10) as u8)
    } else if 0x41 <= b <= 0x46 {
        Some((b - 0x41 + 10) as u8)
    } else {
        None
    }
}

/// Value of a single ASCII hex digit, or None.
pub fn hex_val(b: u8) -> (r: Option<u8>)
    ensures
        r == hex_digit_value(b),
        r matches Some(v) ==> v < 16,
{
    if 0x30 <= b && b <= 0x39 {
        Some(b - 0x30)
    } else if 0x61 <= b && b <= 0x66 {
        Some(b - 0x61 + 10)
    } else if 0x41 <= b && b <= 0x46 {
        Some(b - 0x41 + 10)
    } else {
        None
    }
}

/// The row starts with a percent sign and two hex digits.
pub open spec fn starts_with_escape(b: Seq<u8>) -> bool {
    b.len() > 2 && b[0] == 0x25 && hex_digit_value(b[1]) is Some && hex_digit_value(b[2]) is Some
}

/// Every `%XX` turned into the byte it stands for; anything else, a malformed
/// or cut-off escape included, stays as it is.
pub open spec fn percent_decoded(b: Seq<u8>) -> Seq<u8>
    decreases b.len(),
{
    if b.len() == 0 {
        Seq::empty()
    } else if starts_with_escape(b) {
        seq![(hex_digit_value(b[1])->0 * 16 + hex_digit_value(b[2])->0) as u8] + percent_decoded(
            b.skip(3),
        )
    } else {
        seq![b[0]] + percent_decoded(b.skip(1))
    }
}

/// What a form-encoded text stands for: plus signs are spaces, escapes are
/// bytes, and the bytes are read as UTF-8.
pub open spec fn url_decoded(s: Seq<char>) -> Seq<char> {
    utf8::lossy_text(percent_decoded(vstd::utf8::encode_utf8(text::replaced(s, '+', ' '))))
}

/// Decode the `%XX` escapes of a row of bytes.
pub fn percent_decode(bytes: &[u8]) -> (out: Vec<u8>)
    ensures
        out@ == percent_decoded(bytes@),
{
    let mut out: Vec<u8> = Vec::new();
    let n = bytes.len();
    let mut i: usize = 0;
    assert(bytes@.skip(0) =~= bytes@);
    assert(out@ + percent_decoded(bytes@) =~= percent_decoded(bytes@));
    while i < n
        invariant
            n == bytes@.len(),
            i <= n,
            out@ + percent_decoded(bytes@.skip(i as int)) == percent_decoded(bytes@),
        decreases n - i,
    {
        let ghost rest = bytes@.skip(i as int);
        let ghost before = out@;
        if bytes[i] == 0x25 && n - i > 2 {
            if let (Some(h), Some(l)) = (hex_val(bytes[i + 1]), hex_val(bytes[i + 2])) {
                out.push(h * 16 + l);
                proof {
                    assert(starts_with_escape(rest));
                    assert(rest.skip(3) =~= bytes@.skip(i + 3));
                    assert(out@ + percent_decoded(rest.skip(3)) =~= before + percent_decoded(
                        rest,
                    ));
                }
                i += 3;
                continue;
            }
        }
        out.push(bytes[i]);
        proof {
            assert(!starts_with_escape(rest));
            assert(rest.skip(1) =~= bytes@.skip(i + 1));
            assert(out@ + percent_decoded(rest.skip(1)) =~= before + percent_decoded(rest));
        }
        i += 1;
    }
    assert(out@ + Seq::empty() =~= out@);
    out
}

/// Decode a form-encoded text. Escapes are read from the bytes, so that no
/// multibyte character can be cut in two.
pub fn url_decode(s: &str) -> (r: String)
    ensures
        r@ == url_decoded(s@),
{
    let src = text::replace(s, '+', ' ');
    let bytes = percent_decode(src.as_str().as_bytes());
    utf8::from_utf8_lossy(&bytes)
}

/// The value of the first of the `pairs` whose key is `field`.
pub open spec fn first_value(pairs: Seq<Seq<char>>, field: Seq<char>) -> Option<Seq<char>>
    decreases pairs.len(),
{
    if pairs.len() == 0 {
        None
    } else {
        match text::split_once_at(pairs[0], '=') {
            Some((k, v)) if k == field => Some(url_decoded(v)),
            _ => first_value(pairs.drop_first(), field),
        }
    }
}

/// Parse a single field from a form-encoded body.
pub fn form_field(body: &str, field: &str) -> (r: Option<String>)
    ensures
        match r {
            Some(v) => first_value(text::split_at_each(body@, '&'), field@) == Some(v@),
            None => first_value(text::split_at_each(body@, '&'), field@) is None,
        },
{
    let pairs = text::split(body, '&');
    let ghost all = text::views(pairs@);
    let mut i: usize = 0;
    assert(all.skip(0) =~= all);
    while i < pairs.len()
        invariant
            all == text::views(pairs@),
            all == text::split_at_each(body@, '&'),
            i <= pairs@.len(),
            first_value(all.skip(i as int), field@) == first_value(all, field@),
        decreases pairs.len() - i,
    {
        let ghost rest = all.skip(i as int);
        assert(rest[0] == pairs@[i as int]@);
        assert(rest.drop_first() =~= all.skip(i as int + 1));
        if let Some((k, v)) = text::split_once(pairs[i].as_str(), '=') {
            if text::same(k.as_str(), field) {
                return Some(url_decode(v.as_str()));
            }
        }
        i += 1;
    }
    None
}

/// Text without a percent sign has nothing to decode.
pub proof fn law_plain_bytes_pass_through(b: Seq<u8>)
    requires
        !b.contains(0x25),
    ensures
        percent_decoded(b) == b,
    decreases b.len(),
{
    if b.len() > 0 {
        assert(b.contains(b[0]));
        assert forall|x: u8| b.skip(1).contains(x) implies b.contains(x) by {
            let w = choose|w: int| 0 <= w < b.skip(1).len() && b.skip(1)[w] == x;
            assert(b[w + 1] == x);
        }
        law_plain_bytes_pass_through(b.skip(1));
        assert(seq![b[0]] + b.skip(1) =~= b);
    }
}

/// The two hex digits of a byte, after a percent sign.
pub open spec fn escape_of(x: u8) -> Seq<u8> {
    seq![
        0x25u8,
        crate::digits::digit(x as int / 16) as u8,
        crate::digits::digit(x as int % 16) as u8,
    ]
}

/// Every byte written as an escape.
pub open spec fn percent_encoded(b: Seq<u8>) -> Seq<u8>
    decreases b.len(),
{
    if b.len() == 0 {
        Seq::empty()
    } else {
        escape_of(b[0]) + percent_encoded(b.skip(1))
    }
}

/// Whatever is written in escapes is read back.
pub proof fn law_escapes_read_back(b: Seq<u8>)
    ensures
        percent_decoded(percent_encoded(b)) == b,
    decreases b.len(),
{
    if b.len() > 0 {
        let e = percent_encoded(b);
        let x = b[0];
        assert(e[0] == 0x25 && e[1] == crate::digits::digit(x as int / 16) as u8 && e[2]
            == crate::digits::digit(x as int % 16) as u8);
        assert(hex_digit_value(e[1]) == Some((x as int / 16) as u8));
        assert(hex_digit_value(e[2]) == Some((x as int % 16) as u8));
        assert(e.skip(3) =~= percent_encoded(b.skip(1)));
        law_escapes_read_back(b.skip(1));
        assert(seq![x] + b.skip(1) =~= b);
    }
}

/// A text with every byte of it written as an escape.
pub open spec fn url_encoded(s: Seq<char>) -> Seq<char> {
    percent_encoded(vstd::utf8::encode_utf8(s)).map_values(|b: u8| b as char)
}

/// Escapes are plain ASCII and hold nothing that a form gives a meaning to.
pub proof fn lemma_escapes_are_plain(b: Seq<u8>)
    ensures
        forall|i: int|
            0 <= i < percent_encoded(b).len() ==> #[trigger] percent_encoded(b)[i] < 0x80
                && percent_encoded(b)[i] != 0x2b && percent_encoded(b)[i] != 0x26,
    decreases b.len(),
{
    if b.len() > 0 {
        let e = percent_encoded(b);
        let rest = percent_encoded(b.skip(1));
        lemma_escapes_are_plain(b.skip(1));
        assert forall|i: int| 0 <= i < e.len() implies #[trigger] e[i] < 0x80 && e[i] != 0x2b
            && e[i] != 0x26 by {
            if i < 3 {
                assert(e[i] == escape_of(b[0])[i]);
            } else {
                assert(e[i] == rest[i - 3]);
            }
        }
    }
}

/// Any text that is sent in escapes is read back as it was.
pub proof fn law_form_values_read_back(s: Seq<char>)
    ensures
        url_decoded(url_encoded(s)) == s,
{
    let bytes = vstd::utf8::encode_utf8(s);
    let escaped = percent_encoded(bytes);
    let sent = url_encoded(s);
    lemma_escapes_are_plain(bytes);
    assert(text::replaced(sent, '+', ' ') =~= sent) by {
        assert forall|i: int| 0 <= i < sent.len() implies #[trigger] sent[i] != '+' by {
            assert(escaped[i] < 0x80 && escaped[i] != 0x2b);
        }
    }
    utf8::lemma_encode_ascii(escaped);
    law_escapes_read_back(bytes);
    vstd::utf8::encode_utf8_valid_utf8(s);
    vstd::utf8::encode_utf8_decode_utf8(s);
}

} // verus!

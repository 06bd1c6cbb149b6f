//! Bytes as UTF-8 text.

use vstd::prelude::*;

verus! {

/// The text that `String::from_utf8_lossy` makes of some bytes.
pub uninterp spec fn utf8_lossy(bytes: Seq<u8>) -> Seq<char>;

/// Bytes as text: the text that they encode if they are UTF-8, and the best that
/// can be made of them if not.
pub open spec fn lossy_text(bytes: Seq<u8>) -> Seq<char> {
    if vstd::utf8::valid_utf8(bytes) {
        vstd::utf8::decode_utf8(bytes)
    } else {
        utf8_lossy(bytes)
    }
}

/// `String::from_utf8_lossy`: bytes as text, the replacement character standing
/// in for what is not UTF-8. Bytes that are UTF-8 are the text they encode;
/// which replacements are made elsewhere is left to its name.
#[verifier::external_body]
pub(crate) fn from_utf8_lossy(bytes: &[u8]) -> (r: String)
    ensures
        r@ == utf8_lossy(bytes@),
        vstd::utf8::valid_utf8(bytes@) ==> r@ == vstd::utf8::decode_utf8(bytes@),
{
    String::from_utf8_lossy(bytes).into_owned()
}

/// `String::from_utf8`: bytes as text, if and only if they are UTF-8.
#[verifier::external_body]
pub(crate) fn from_utf8(bytes: Vec<u8>) -> (r: Option<String>)
    ensures
        match r {
            Some(s) => vstd::utf8::valid_utf8(bytes@) && s@ == vstd::utf8::decode_utf8(bytes@),
            None => !vstd::utf8::valid_utf8(bytes@),
        },
{
    String::from_utf8(bytes).ok()
}

/// `std::str::from_utf8`: whether bytes are UTF-8.
#[verifier::external_body]
pub(crate) fn is_utf8(bytes: &[u8]) -> (r: bool)
    ensures
        r == vstd::utf8::valid_utf8(bytes@),
{
    std::str::from_utf8(bytes).is_ok()
}

/// Texts end to end are the text of their bytes end to end.
pub proof fn lemma_decode_concat(a: Seq<u8>, b: Seq<u8>)
    requires
        vstd::utf8::valid_utf8(a),
        vstd::utf8::valid_utf8(b),
    ensures
        vstd::utf8::valid_utf8(a + b),
        vstd::utf8::decode_utf8(a + b) == vstd::utf8::decode_utf8(a) + vstd::utf8::decode_utf8(b),
    decreases a.len(),
{
    vstd::utf8::valid_utf8_concat(a, b);
    let all = a + b;
    if a.len() == 0 {
        assert(all =~= b);
        assert(vstd::utf8::decode_utf8(a) + vstd::utf8::decode_utf8(b)
            =~= vstd::utf8::decode_utf8(b));
    } else {
        let rest = vstd::utf8::pop_first_scalar(a);
        lemma_decode_concat(rest, b);
        assert(vstd::utf8::pop_first_scalar(all) =~= rest + b);
        assert(vstd::utf8::decode_utf8(all) =~= vstd::utf8::decode_utf8(a)
            + vstd::utf8::decode_utf8(b));
    }
}

/// A text with one character more.
pub proof fn lemma_encode_push(s: Seq<char>, c: char)
    ensures
        vstd::utf8::encode_utf8(s.push(c)) == vstd::utf8::encode_utf8(s)
            + vstd::utf8::encode_utf8(seq![c]),
{
    lemma_encode_concat(s, seq![c]);
    assert(s.push(c) =~= s + seq![c]);
}

/// A line break is one byte.
pub proof fn lemma_encode_line_break()
    ensures
        vstd::utf8::encode_utf8(seq!['\n']) == seq![10u8],
{
    reveal_with_fuel(vstd::utf8::encode_utf8, 2);
    assert((10u32 & 0x7F) as u8 == 10u8) by (bit_vector);
    assert(seq!['\n'].drop_first() =~= Seq::<char>::empty());
    assert(vstd::utf8::encode_utf8(seq!['\n']) =~= seq![10u8]);
}

/// The bytes of texts end to end are their bytes end to end.
pub proof fn lemma_encode_concat(a: Seq<char>, b: Seq<char>)
    ensures
        vstd::utf8::encode_utf8(a + b) == vstd::utf8::encode_utf8(a) + vstd::utf8::encode_utf8(b),
    decreases a.len(),
{
    if a.len() == 0 {
        assert(a + b =~= b);
        assert(vstd::utf8::encode_utf8(a) + vstd::utf8::encode_utf8(b)
            =~= vstd::utf8::encode_utf8(b));
    } else {
        lemma_encode_concat(a.drop_first(), b);
        assert((a + b).drop_first() =~= a.drop_first() + b);
        assert(vstd::utf8::encode_utf8(a + b) =~= vstd::utf8::encode_utf8(a)
            + vstd::utf8::encode_utf8(b));
    }
}

/// A control byte of a text is a control character of it.
pub proof fn lemma_no_control_bytes(s: Seq<char>)
    requires
        forall|i: int| 0 <= i < s.len() ==> ' ' <= #[trigger] s[i],
    ensures
        forall|i: int|
            0 <= i < vstd::utf8::encode_utf8(s).len() ==> 0x20
                <= #[trigger] vstd::utf8::encode_utf8(s)[i],
    decreases s.len(),
{
    if s.len() > 0 {
        let rest = s.drop_first();
        assert forall|i: int| 0 <= i < rest.len() implies ' ' <= #[trigger] rest[i] by {
            assert(rest[i] == s[i + 1]);
        }
        lemma_no_control_bytes(rest);
        let c = s[0] as u32;
        vstd::utf8::char_is_scalar(s[0]);
        vstd::utf8::char_u32_cast(s[0], c);
        assert(' ' <= s[0]);
        assert(0x20 <= c <= 0x7f ==> 0x20 <= (c & 0x7F) as u8) by (bit_vector);
        assert(0x20 <= 0xC0 | (((c >> 6) & 0x1F) as u8)) by (bit_vector);
        assert(0x20 <= 0xE0 | (((c >> 12) & 0x0F) as u8)) by (bit_vector);
        assert(0x20 <= 0xF0 | (((c >> 18) & 0x7) as u8)) by (bit_vector);
        assert(0x20 <= 0x80 | ((c & 0x3F) as u8)) by (bit_vector);
        assert(0x20 <= 0x80 | (((c >> 6) & 0x3F) as u8)) by (bit_vector);
        assert(0x20 <= 0x80 | (((c >> 12) & 0x3F) as u8)) by (bit_vector);
        let head = vstd::utf8::encode_scalar(c);
        assert forall|i: int|
            0 <= i < vstd::utf8::encode_utf8(s).len() implies 0x20
            <= #[trigger] vstd::utf8::encode_utf8(s)[i] by {
            if i < head.len() {
                assert(vstd::utf8::encode_utf8(s)[i] == head[i]);
            } else {
                assert(vstd::utf8::encode_utf8(s)[i] == vstd::utf8::encode_utf8(rest)[i
                    - head.len()]);
            }
        }
    }
}

/// ASCII characters are their own bytes.
pub proof fn lemma_encode_ascii(b: Seq<u8>)
    requires
        forall|i: int| 0 <= i < b.len() ==> #[trigger] b[i] < 0x80,
    ensures
        vstd::utf8::encode_utf8(b.map_values(|x: u8| x as char)) == b,
    decreases b.len(),
{
    let s = b.map_values(|x: u8| x as char);
    if b.len() > 0 {
        let rest = b.drop_first();
        assert forall|i: int| 0 <= i < rest.len() implies #[trigger] rest[i] < 0x80 by {
            assert(rest[i] == b[i + 1]);
        }
        lemma_encode_ascii(rest);
        assert(s.drop_first() =~= rest.map_values(|x: u8| x as char));
        let c = s[0] as u32;
        let x = b[0];
        assert(c == x);
        assert(c <= 0x7f && c == x ==> (c & 0x7F) as u8 == x) by (bit_vector);
        assert(vstd::utf8::encode_utf8(s) =~= b);
    } else {
        assert(vstd::utf8::encode_utf8(s) =~= b);
    }
}

} // verus!

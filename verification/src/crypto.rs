//! Secret comparison, message authentication, digests and randomness.

use vstd::prelude::*;

verus! {

/// `subtle::ConstantTimeEq::ct_eq` on byte slices: true exactly when the two
/// have the same length and the same bytes. That its running time depends on
/// the lengths alone is not expressed.
#[verifier::external_body]
pub(crate) fn slices_ct_eq(a: &[u8], b: &[u8]) -> (r: bool)
    ensures
        r == (a@ == b@),
{
    subtle::ConstantTimeEq::ct_eq(a, b).into()
}

/// The HMAC-SHA-256 tag of a message under a key.
pub uninterp spec fn hmac_sha256_tag(key: Seq<u8>, message: Seq<u8>) -> Seq<u8>;

/// `hmac::Hmac::<sha2::Sha256>` over one message: `new_from_slice`, which takes
/// a key of any length, `update` and `finalize`. The tag is a function of key
/// and message, and is 32 bytes long.
#[verifier::external_body]
pub(crate) fn hmac_sha256(key: &[u8], message: &[u8]) -> (r: Vec<u8>)
    ensures
        r@ == hmac_sha256_tag(key@, message@),
        r@.len() == 32,
{
    let mut mac = <hmac::Hmac<sha2::Sha256> as hmac::Mac>::new_from_slice(key)
        .expect("HMAC accepts any key length");
    hmac::Mac::update(&mut mac, message);
    hmac::Mac::finalize(mac).into_bytes().to_vec()
}

/// The SHA-256 digest of a message.
pub uninterp spec fn sha256_digest(message: Seq<u8>) -> Seq<u8>;

/// `sha2::Sha256::digest`: the digest is a function of the message, and is 32
/// bytes long.
#[verifier::external_body]
pub(crate) fn sha256(message: &[u8]) -> (r: Vec<u8>)
    ensures
        r@ == sha256_digest(message@),
        r@.len() == 32,
{
    <sha2::Sha256 as sha2::Digest>::digest(message).to_vec()
}

/// What the system's random number generator reports when it fails.
#[verifier::external_type_specification]
#[verifier::external_body]
pub struct ExRandomError(getrandom::Error);

/// `getrandom::getrandom`: `n` bytes from the system's random number
/// generator, or its error. Of the bytes only their number is claimed. Where no
/// bytes are asked for, the generator is not called and cannot fail.
#[verifier::external_body]
fn getrandom_bytes(n: usize) -> (r: Result<Vec<u8>, getrandom::Error>)
    ensures
        r matches Ok(v) ==> v@.len() == n,
        n == 0 ==> r is Ok,
{
    let mut v = vec![0u8; n];
    getrandom::getrandom(&mut v)?;
    Ok(v)
}

/// The system gave no random bytes.
#[derive(Clone, Copy, PartialEq, Eq, Debug)]
pub struct NoRandomness;

/// `n` random bytes. It fails where the system's generator does; to ask for no
/// bytes never fails.
pub fn random_bytes(n: usize) -> (r: Result<Vec<u8>, NoRandomness>)
    ensures
        r matches Ok(v) ==> v@.len() == n,
        n == 0 ==> r is Ok,
{
    match getrandom_bytes(n) {
        Ok(v) => Ok(v),
        Err(_) => Err(NoRandomness),
    }
}

} // verus!

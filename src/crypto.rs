//! Signatures, spool-id encoding and randomness, from outside crates.

use vstd::prelude::*;
use ed25519_dalek::Verifier;
use rand::RngCore;

verus! {

/// The length of an Ed25519 public key in bytes.
pub const PUBLIC_KEY_SIZE: usize = 32;

/// The length of an Ed25519 signature in bytes.
pub const SIGNATURE_SIZE: usize = 64;

/// Whether `b` is the encoding of an Ed25519 public key.
pub uninterp spec fn public_key_decodes(b: Seq<u8>) -> bool;

/// Whether `b` parses as an Ed25519 signature.
pub uninterp spec fn signature_decodes(b: Seq<u8>) -> bool;

/// Whether `sig` is a valid Ed25519 signature of `msg` under the key `pk`.
pub uninterp spec fn signature_verifies(pk: Seq<u8>, msg: Seq<u8>, sig: Seq<u8>) -> bool;

/// The URL-safe base64 text of `b`.
pub uninterp spec fn base64_url(b: Seq<u8>) -> Seq<char>;

/// Relies on `ed25519_dalek::PublicKey::from_bytes`, which refuses any
/// length but 32 and any point that does not decompress.
#[verifier::external_body]
pub(crate) fn public_key_is_valid(b: &[u8]) -> (r: bool)
    ensures
        r == public_key_decodes(b@),
        b@.len() != PUBLIC_KEY_SIZE ==> !r,
{
    ed25519_dalek::PublicKey::from_bytes(b).is_ok()
}

/// Relies on `ed25519_dalek::Signature::from_bytes`, which refuses any
/// length but 64.
#[verifier::external_body]
pub(crate) fn signature_is_valid(b: &[u8]) -> (r: bool)
    ensures
        r == signature_decodes(b@),
        b@.len() != SIGNATURE_SIZE ==> !r,
{
    ed25519_dalek::Signature::from_bytes(b).is_ok()
}

/// Relies on `ed25519_dalek::PublicKey::verify`; a key or a signature that
/// does not decode verifies nothing.
#[verifier::external_body]
pub(crate) fn verify_signature(pk: &[u8; 32], msg: &[u8], sig: &[u8; 64]) -> (r: bool)
    ensures
        r == signature_verifies(pk@, msg@, sig@),
        r ==> public_key_decodes(pk@) && signature_decodes(sig@),
{
    match (ed25519_dalek::PublicKey::from_bytes(pk), ed25519_dalek::Signature::from_bytes(sig)) {
        (Ok(key), Ok(signature)) => key.verify(msg, &signature).is_ok(),
        _ => false,
    }
}

/// Whether `c` is a character of padded URL-safe base64: `A`-`Z`, `a`-`z`,
/// `0`-`9`, `-`, `_` or the padding `=`.
pub open spec fn is_url_safe_base64_char(c: char) -> bool {
    ('A' <= c && c <= 'Z') || ('a' <= c && c <= 'z') || ('0' <= c && c <= '9') || c == '-' || c == '_'
        || c == '='
}

/// Relies on `base64::encode_config` with `base64::URL_SAFE`: the URL-safe
/// alphabet with padding, four characters for every three bytes begun.
#[verifier::external_body]
pub(crate) fn encode_base64_url(b: &[u8]) -> (r: String)
    ensures
        r@ == base64_url(b@),
        r@.len() == (b@.len() + 2) / 3 * 4,
        forall|i: int| 0 <= i < r@.len() ==> is_url_safe_base64_char(#[trigger] r@[i]),
{
    base64::encode_config(b, base64::URL_SAFE)
}

/// Relies on `rand::rngs::OsRng::try_fill_bytes`: twelve bytes from the
/// operating system's secure generator, or `None` when it reports an error.
#[verifier::external_body]
pub(crate) fn random_spool_id() -> (r: Option<[u8; 12]>) {
    let mut id = [0u8; 12];
    match rand::rngs::OsRng.try_fill_bytes(&mut id) {
        Ok(()) => Some(id),
        Err(_) => None,
    }
}

} // verus!

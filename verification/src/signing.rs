use crypto::ed25519;
use rand::{OsRng, Rng};
use vstd::prelude::*;

verus! {

/// Number of bytes in an Ed25519 secret key as this library holds it: the
/// seed followed by the public key.
pub const SECRET_KEY_LEN: usize = 64;

/// Number of bytes in an Ed25519 public key.
pub const PUBLIC_KEY_LEN: usize = 32;

/// Number of bytes in an Ed25519 signature.
pub const SIGNATURE_LEN: usize = 64;

/// The Ed25519 signature of a message under a secret key.
pub uninterp spec fn ed25519_signature(message: Seq<u8>, secret_key: Seq<u8>) -> Seq<u8>;

/// Whether Ed25519 accepts a signature of a message under a public key.
pub uninterp spec fn ed25519_accepts(
    message: Seq<u8>,
    public_key: Seq<u8>,
    signature: Seq<u8>,
) -> bool;

/// The Ed25519 key pair that a seed gives: the secret key, then the public
/// key.
pub uninterp spec fn ed25519_keypair(seed: Seq<u8>) -> (Seq<u8>, Seq<u8>);

/// Whether a signature authorises a message under a public key: both have
/// at least the length that Ed25519 reads, and Ed25519 accepts.
pub open spec fn signature_valid(message: Seq<u8>, public_key: Seq<u8>, signature: Seq<u8>) -> bool {
    &&& public_key.len() >= PUBLIC_KEY_LEN
    &&& signature.len() >= SIGNATURE_LEN
    &&& ed25519_accepts(message, public_key, signature)
}

/// Calls `ed25519::signature` of rust-crypto, which reads the first 64 bytes
/// of the secret key: the result is the 64-byte signature of the message.
#[verifier::external_body]
pub(crate) fn ed25519_sign(message: &[u8], secret_key: &[u8]) -> (r: Vec<u8>)
    requires
        secret_key@.len() >= SECRET_KEY_LEN,
    ensures
        r@ == ed25519_signature(message@, secret_key@),
        r@.len() == SIGNATURE_LEN,
{
    ed25519::signature(message, secret_key).to_vec()
}

/// Calls `ed25519::verify` of rust-crypto, which reads the first 32 bytes of
/// the public key's point and the first 64 bytes of the signature: the result
/// says whether the signature is accepted.
#[verifier::external_body]
pub(crate) fn ed25519_check(message: &[u8], public_key: &[u8], signature: &[u8]) -> (r: bool)
    requires
        public_key@.len() >= PUBLIC_KEY_LEN,
        signature@.len() >= SIGNATURE_LEN,
    ensures
        r == ed25519_accepts(message@, public_key@, signature@),
{
    ed25519::verify(message, public_key, signature)
}

/// Calls `ed25519::keypair` of rust-crypto: the result is the key pair of the
/// seed, a secret key of 64 bytes and a public key of 32.
#[verifier::external_body]
pub(crate) fn ed25519_generate(seed: &[u8]) -> (r: (Vec<u8>, Vec<u8>))
    ensures
        (r.0@, r.1@) == ed25519_keypair(seed@),
        r.0@.len() == SECRET_KEY_LEN,
        r.1@.len() == PUBLIC_KEY_LEN,
{
    let (secret, public) = ed25519::keypair(seed);
    (secret.to_vec(), public.to_vec())
}

/// Calls `OsRng::new` and `Rng::fill_bytes` of rand: where the system's
/// generator opens, the result holds `len` bytes. Nothing is known of the
/// bytes themselves.
#[verifier::external_body]
pub(crate) fn random_bytes(len: usize) -> (r: Option<Vec<u8>>)
    ensures
        r matches Some(bytes) ==> bytes@.len() == len,
{
    match OsRng::new() {
        Ok(mut rng) => {
            let mut bytes = vec![0u8; len];
            rng.fill_bytes(&mut bytes);
            Some(bytes)
        },
        Err(_) => None,
    }
}

/// Whether a message's signature is valid under a public key. A key or a
/// signature shorter than Ed25519 reads is not.
pub fn verify_signature(message: &[u8], public_key: &[u8], signature: &[u8]) -> (r: bool)
    ensures
        r == signature_valid(message@, public_key@, signature@),
{
    if public_key.len() < PUBLIC_KEY_LEN || signature.len() < SIGNATURE_LEN {
        return false;
    }
    ed25519_check(message, public_key, signature)
}

} // verus!

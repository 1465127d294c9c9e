use crypto::digest::Digest;
use crypto::ripemd160::Ripemd160;
use crypto::sha2::Sha256;
use vstd::prelude::*;

verus! {

/// The SHA-256 digest of a byte string.
pub uninterp spec fn sha256(data: Seq<u8>) -> Seq<u8>;

/// The RIPEMD-160 digest of a byte string.
pub uninterp spec fn ripemd160(data: Seq<u8>) -> Seq<u8>;

/// Number of bytes in a SHA-256 digest.
pub const SHA256_LEN: usize = 32;

/// Number of bytes in a RIPEMD-160 digest.
pub const RIPEMD160_LEN: usize = 20;

/// The lower-case hexadecimal digit of a value below sixteen.
pub open spec fn hex_digit(n: int) -> char {
    seq!['0', '1', '2', '3', '4', '5', '6', '7', '8', '9', 'a', 'b', 'c', 'd', 'e', 'f'][n]
}

/// The lower-case hexadecimal text of a byte string: two digits per byte,
/// the high half first.
pub open spec fn hex_text(bytes: Seq<u8>) -> Seq<char> {
    Seq::new(
        2 * bytes.len(),
        |i: int|
            if i % 2 == 0 {
                hex_digit(bytes[i / 2] as int / 16)
            } else {
                hex_digit(bytes[i / 2] as int % 16)
            },
    )
}

/// Calls `Sha256::new`, `Digest::input` and `Digest::result` of rust-crypto:
/// the result is the 32-byte SHA-256 digest of `data`. The digest counts the
/// bits of its input in 64 bits, which no buffer in memory overflows.
#[verifier::external_body]
pub(crate) fn sha256_bytes(data: &[u8]) -> (r: Vec<u8>)
    ensures
        r@ == sha256(data@),
        r@.len() == SHA256_LEN,
{
    let mut hasher = Sha256::new();
    hasher.input(data);
    let mut out = vec![0u8; 32];
    hasher.result(&mut out);
    out
}

/// Calls `Sha256::new`, `Digest::input` and `Digest::result_str` of
/// rust-crypto: the result is the SHA-256 digest of `data`, of 32 bytes,
/// written as lower-case hexadecimal text.
#[verifier::external_body]
pub(crate) fn sha256_hex(data: &[u8]) -> (r: String)
    ensures
        r@ == hex_text(sha256(data@)),
        r@.len() == 2 * SHA256_LEN,
{
    let mut hasher = Sha256::new();
    hasher.input(data);
    hasher.result_str()
}

/// Calls `Ripemd160::new`, `Digest::input` and `Digest::result` of
/// rust-crypto: the result is the 20-byte RIPEMD-160 digest of `data`.
#[verifier::external_body]
pub(crate) fn ripemd160_bytes(data: &[u8]) -> (r: Vec<u8>)
    ensures
        r@ == ripemd160(data@),
        r@.len() == RIPEMD160_LEN,
{
    let mut hasher = Ripemd160::new();
    hasher.input(data);
    let mut out = vec![0u8; 20];
    hasher.result(&mut out);
    out
}

} // verus!

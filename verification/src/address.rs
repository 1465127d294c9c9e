use crate::error::ChainError;
use bitcoincash_addr::{Address, HashType, Network, Scheme};
use vstd::prelude::*;
use vstd::string::StringSliceAdditionalSpecFns;

verus! {

/// Why the codec did not decode a prefixed address; carried through unopened.
#[verifier::external_type_specification]
#[verifier::external_body]
pub struct ExCashAddrDecodingError(bitcoincash_addr::cashaddr::DecodingError);

/// Why the codec did not decode a Base58 address; carried through unopened.
#[verifier::external_type_specification]
#[verifier::external_body]
pub struct ExBase58DecodingError(bitcoincash_addr::base58::DecodingError);

/// Why the codec did not encode a prefixed address; carried through
/// unopened.
#[verifier::external_type_specification]
#[verifier::external_body]
pub struct ExCashAddrEncodingError(bitcoincash_addr::cashaddr::EncodingError);

/// The address text that stands for a locking hash: Base58 with a checksum,
/// of the script kind, on the main network.
pub uninterp spec fn address_text(body: Seq<u8>) -> Seq<char>;

/// The bytes that an address text stands for, where the codec accepts it.
pub uninterp spec fn address_body(text: Seq<char>) -> Option<Seq<u8>>;

/// Fewest symbols after the colon of a prefixed address that can hold a
/// version byte and a checksum.
pub const MIN_PREFIXED_PAYLOAD: usize = 10;

/// Whether the bytes of a text hold exactly one colon with fewer symbols
/// behind it than a prefixed address needs. No such text is an address, and
/// the codec is not asked about it.
pub open spec fn truncated_prefixed(bytes: Seq<u8>) -> bool {
    exists|p: int|
        {
            &&& 0 <= p < bytes.len()
            &&& #[trigger] bytes[p] == 0x3au8
            &&& forall|q: int| 0 <= q < bytes.len() && q != p ==> bytes[q] != 0x3au8
            &&& bytes.len() - p - 1 < MIN_PREFIXED_PAYLOAD
        }
}

/// The locking hash that an address text stands for, if it is an address.
pub open spec fn locking_hash_of(text: Seq<char>) -> Option<Seq<u8>> {
    if truncated_prefixed(vstd::utf8::encode_utf8(text)) {
        None
    } else {
        address_body(text)
    }
}

/// Calls `Address::decode` of bitcoincash-addr, which tries the prefixed
/// scheme and then Base58, and hands out the body of the address. What comes
/// back, body or failure, depends on the text alone. The codec indexes past
/// the end of a prefixed payload of fewer than ten symbols, so such a text is
/// not handed to it.
#[verifier::external_body]
pub(crate) fn decode_body(text: &str) -> (r: Result<
    Vec<u8>,
    (bitcoincash_addr::cashaddr::DecodingError, bitcoincash_addr::base58::DecodingError),
>)
    requires
        !truncated_prefixed(text.spec_bytes()),
    ensures
        match r {
            Ok(body) => address_body(text@) == Some(body@),
            Err(_) => address_body(text@) is None,
        },
{
    Address::decode(text).map(|a| a.body)
}

/// Calls `Address::encode` of bitcoincash-addr on a Base58 address of the
/// script kind on the main network. For that scheme the codec always gives a
/// text.
#[verifier::external_body]
pub(crate) fn encode_body(body: &[u8]) -> (r: Result<
    String,
    bitcoincash_addr::cashaddr::EncodingError,
>)
    ensures
        match r {
            Ok(text) => text@ == address_text(body@),
            Err(_) => false,
        },
{
    Address::new(body.to_vec(), Scheme::Base58, HashType::Script, Network::Main).encode()
}

/// The address text of a locking hash.
pub fn encode_address(body: &[u8]) -> (r: String)
    ensures
        r@ == address_text(body@),
{
    match encode_body(body) {
        Ok(text) => text,
        Err(_) => String::new(),
    }
}

/// Whether the bytes hold exactly one colon with fewer than ten bytes behind
/// it.
pub fn is_truncated_prefixed(bytes: &[u8]) -> (r: bool)
    ensures
        r == truncated_prefixed(bytes@),
{
    let n = bytes.len();
    let mut i: usize = 0;
    while i < n && bytes[i] != 0x3au8
        invariant
            n == bytes@.len(),
            i <= n,
            forall|j: int| 0 <= j < i ==> bytes@[j] != 0x3au8,
        decreases n - i,
    {
        i += 1;
    }
    if i == n {
        return false;
    }
    let p = i;
    let mut k: usize = p + 1;
    while k < n && bytes[k] != 0x3au8
        invariant
            n == bytes@.len(),
            p < k <= n,
            bytes@[p as int] == 0x3au8,
            forall|j: int| 0 <= j < k && j != p ==> bytes@[j] != 0x3au8,
        decreases n - k,
    {
        k += 1;
    }
    if k < n {
        assert(bytes@[k as int] == 0x3au8);
        return false;
    }
    n - p - 1 < MIN_PREFIXED_PAYLOAD
}

/// The locking hash that an address text stands for.
pub fn decode_address(text: &str) -> (r: Result<Vec<u8>, ChainError>)
    ensures
        match r {
            Ok(body) => locking_hash_of(text@) == Some(body@),
            Err(e) => e == ChainError::InvalidAddress && locking_hash_of(text@) is None,
        },
{
    if is_truncated_prefixed(text.as_bytes()) {
        return Err(ChainError::InvalidAddress);
    }
    match decode_body(text) {
        Ok(body) => Ok(body),
        Err(_) => Err(ChainError::InvalidAddress),
    }
}

} // verus!

use crate::transaction::{Transaction, TransactionView};
use vstd::prelude::*;

verus! {

/// Why an encoding failed; carried through unopened.
#[verifier::external_type_specification]
#[verifier::external_body]
pub struct ExBincodeErrorKind(bincode::ErrorKind);

/// The bytes that stand for a transaction, identity included, where it can
/// be encoded.
pub uninterp spec fn transaction_encoding(tx: TransactionView) -> Option<Seq<u8>>;

/// The bytes that stand for the sealed part of a block: the hash of the block
/// before it, the commitment root, the timestamp, the difficulty and the
/// nonce, where they can be encoded.
pub uninterp spec fn header_encoding(
    prev_block_hash: Seq<char>,
    root: Seq<u8>,
    timestamp: u128,
    difficulty: usize,
    nonce: i32,
) -> Option<Seq<u8>>;

/// Calls `bincode::serialize` on the transaction's fields in their order
/// (identity, inputs, outputs): what comes back, bytes or failure, depends on
/// the transaction's contents alone.
#[verifier::external_body]
pub(crate) fn encode_transaction(tx: &Transaction) -> (r: Result<Vec<u8>, Box<bincode::ErrorKind>>)
    ensures
        match r {
            Ok(bytes) => transaction_encoding(tx@) == Some(bytes@),
            Err(_) => transaction_encoding(tx@) is None,
        },
{
    let vin: Vec<(&str, i32, &[u8], &[u8])> = tx.vin.iter().map(
        |i| (i.txid.as_str(), i.vout, &i.signature[..], &i.pub_key[..]),
    ).collect();
    let vout: Vec<(i32, &[u8])> = tx.vout.iter().map(|o| (o.value, &o.pub_key_hash[..])).collect();
    bincode::serialize(&(tx.id.as_str(), vin, vout))
}

/// Calls `bincode::serialize` on the five sealed values in their order: what
/// comes back, bytes or failure, depends on those values alone.
#[verifier::external_body]
pub(crate) fn encode_header(
    prev_block_hash: &str,
    root: &[u8],
    timestamp: u128,
    difficulty: usize,
    nonce: i32,
) -> (r: Result<Vec<u8>, Box<bincode::ErrorKind>>)
    ensures
        match r {
            Ok(bytes) => header_encoding(prev_block_hash@, root@, timestamp, difficulty, nonce)
                == Some(bytes@),
            Err(_) => header_encoding(prev_block_hash@, root@, timestamp, difficulty, nonce) is None,
        },
{
    bincode::serialize(&(prev_block_hash, root, timestamp, difficulty, nonce))
}

} // verus!

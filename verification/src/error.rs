use vstd::prelude::*;

verus! {

/// Why a ledger operation did not complete.
#[derive(Debug, Clone, Copy, PartialEq, Eq, Structural)]
pub enum ChainError {
    /// A record could not be encoded, or the clock could not be read.
    Storage,
    /// A transaction, a block or the tip pointer is missing.
    NotFound,
    /// The spendable total is short of the requested amount.
    InsufficientFunds,
    /// A signature does not verify, or a transaction is malformed.
    InvalidTransaction,
    /// An address text does not decode.
    InvalidAddress,
    /// A secret key is shorter than the signature scheme reads.
    InvalidKey,
    /// The block after the tip would have a height that does not fit.
    HeightOverflow,
    /// No nonce of the searched range gives a hash that meets the difficulty.
    NoProofOfWork,
}

} // verus!

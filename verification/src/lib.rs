//! A minimal proof-of-work ledger: signed transfers of value, sealed into
//! hash-linked blocks, with an index of the outputs that are still unspent.
//!
//! Every function states what it returns over a mathematical model of the
//! data, and is proved to meet that statement. What comes from other crates
//! (digests, signatures, encodings, the clock) is named or stated at the
//! place where it is called, and taken on trust there.

#![allow(non_snake_case)]

pub mod address;
pub mod block;
pub mod blockchain;
pub mod bytes;
pub mod clock;
pub mod consistency;
pub mod digest;
pub mod encoding;
pub mod error;
pub mod linkage;
pub mod merkle;
pub mod signing;
pub mod transaction;
pub mod transfer;
pub mod utxoset;
pub mod wallets;

//! A content-addressed Merkle storage engine with git-like history, together
//! with the framed binary action-log format that feeds it and a replay
//! validator that checks commit hashes against expected values.

pub mod actions_file;
pub mod bytes;
pub mod channel;
pub mod codec;
pub mod database;
pub mod entry;
pub mod hash;
pub mod ivec;
pub mod merkle_storage;
pub mod order;
pub mod schema;
pub mod tree;
pub mod validator;

use vstd::prelude::*;

verus! {

/// Errors of cryptographic key and nonce handling.
pub enum CryptoError {
    InvalidKey { reason: String },
    InvalidKeySize { expected: usize, actual: usize },
    InvalidNonceSize { expected: usize, actual: usize },
    FailedToDecrypt,
}

} // verus!

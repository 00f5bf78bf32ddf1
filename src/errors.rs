//! The errors of spools, the spool set and the multi-spool.

use vstd::prelude::*;

verus! {

/// Why an operation on one spool failed.
#[derive(Debug)]
pub enum SpoolError {
    /// The key-value engine failed.
    SledError(sled::Error),
    /// No message is stored under the given id.
    NoSuchMessage,
    /// The stored state breaks the spool's invariants.
    CorruptSpool,
    /// Every sequence number has been used.
    SpoolFull,
}

/// Why an operation on the spool set failed.
#[derive(Debug)]
pub enum SpoolSetError {
    /// The key-value engine failed.
    SledError(sled::Error),
    /// The spool id is not in the set.
    NoSuchSpoolId,
    /// The stored public key does not decode.
    SignatureError,
}

/// Why an operation on the multi-spool failed.
#[derive(Debug)]
pub enum MultiSpoolError {
    /// A spool-set operation failed for a reason other than the engine.
    SpoolSetError(SpoolSetError),
    /// A spool operation failed for a reason other than the engine.
    SpoolError(SpoolError),
    /// The key-value engine failed.
    SledError(sled::Error),
    /// The spool id is not known.
    NoSuchSpool,
    /// A key or signature does not decode, or the signature does not verify.
    SignatureError,
    /// A spool with the drawn id already exists; drawing again will do.
    SpoolIdCollision,
    /// The database at a new spool's path already holds messages.
    SpoolDirectoryInUse,
    /// The operating system's secure generator failed to give a spool id.
    RandomnessUnavailable,
}

impl SpoolError {
    /// A short description of the error.
    pub fn reason(&self) -> (r: &'static str) {
        match self {
            SpoolError::SledError(_) => "store failure",
            SpoolError::NoSuchMessage => "no such message",
            SpoolError::CorruptSpool => "corrupt spool",
            SpoolError::SpoolFull => "spool full",
        }
    }
}

impl SpoolSetError {
    /// A short description of the error.
    pub fn reason(&self) -> (r: &'static str) {
        match self {
            SpoolSetError::SledError(_) => "store failure",
            SpoolSetError::NoSuchSpoolId => "no such spool id",
            SpoolSetError::SignatureError => "invalid stored public key",
        }
    }
}

impl MultiSpoolError {
    /// A short description of the error.
    pub fn reason(&self) -> (r: &'static str) {
        match self {
            MultiSpoolError::SpoolSetError(e) => e.reason(),
            MultiSpoolError::SpoolError(e) => e.reason(),
            MultiSpoolError::SledError(_) => "store failure",
            MultiSpoolError::NoSuchSpool => "no such spool",
            MultiSpoolError::SignatureError => "signature error",
            MultiSpoolError::SpoolIdCollision => "spool id collision",
            MultiSpoolError::SpoolDirectoryInUse => "spool directory in use",
            MultiSpoolError::RandomnessUnavailable => "randomness unavailable",
        }
    }
}

} // verus!

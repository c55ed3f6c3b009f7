//! Errors of the storage and identity layers.

use vstd::prelude::*;

use crate::block::BlockId;
use crate::hexadecimal as hex;

verus! {

/// An error that the operating system reported.
#[verifier::external_type_specification]
#[verifier::external_body]
pub struct ExIoError(std::io::Error);

#[derive(Debug)]
pub enum Error {
    /// A text that names no block and no agent.
    InvalidId(String),
    /// The block is not in the store.
    BlockNotFound(BlockId),
    /// The stored bytes do not hash to the id they are stored under.
    Corrupt { id: BlockId },
    /// The agent id is no Ed25519 public key.
    InvalidAgentKey,
    /// The signature is malformed or was not made by the agent.
    BadSignature,
    /// The device failed.
    Io(std::io::Error),
}

/// `std::io::Error`'s `Display`. Nothing is stated of the text: it is what the
/// operating system says.
#[verifier::external_body]
fn io_error_text(e: &std::io::Error) -> String {
    e.to_string()
}

/// What is said of each error; of a device error, nothing is fixed.
pub open spec fn error_text(e: Error) -> Option<Seq<char>> {
    match e {
        Error::InvalidId(s) => Some("invalid identifier: "@ + s@),
        Error::BlockNotFound(id) => Some("block not found: "@ + hex::hex_text(id@)),
        Error::Corrupt { id } => Some(
            "block "@ + hex::hex_text(id@)
                + " failed integrity check: stored bytes do not hash to their id"@,
        ),
        Error::InvalidAgentKey => Some("invalid agent public key"@),
        Error::BadSignature => Some("signature verification failed"@),
        Error::Io(_) => None,
    }
}

impl Error {
    /// The error in words.
    pub fn to_string(&self) -> (text: String)
        ensures
            error_text(*self) matches Some(t) ==> text@ == t,
    {
        match self {
            Error::InvalidId(s) => "invalid identifier: ".to_owned().concat(s.as_str()),
            Error::BlockNotFound(id) => "block not found: ".to_owned().concat(
                id.to_string().as_str(),
            ),
            Error::Corrupt { id } => "block ".to_owned().concat(id.to_string().as_str()).concat(
                " failed integrity check: stored bytes do not hash to their id",
            ),
            Error::InvalidAgentKey => "invalid agent public key".to_owned(),
            Error::BadSignature => "signature verification failed".to_owned(),
            Error::Io(e) => io_error_text(e),
        }
    }
}

} // verus!

//! What can go wrong in the store.

use crate::address::RegisterAddress;
use crate::entry::EntryHash;
use crate::policy::{PublicKey, User};
use vstd::prelude::*;

verus! {

/// The store's errors.
#[derive(Clone, Debug, PartialEq, Eq)]
pub enum Error {
    /// No creation of the register at this address is known.
    RegisterNotFound(RegisterAddress),
    /// The register holds no entry under this hash.
    NoSuchEntry(EntryHash),
    /// The policy knows nothing of this user.
    NoSuchUser(User),
    /// The policy forbids this user the action.
    AccessDenied(User),
    /// An operation was aimed at another register than the one it met.
    RegisterAddrMismatch { cmd_dst_addr: RegisterAddress, reg_addr: RegisterAddress },
    /// The signature does not match the operation under this key.
    InvalidSignature(PublicKey),
    /// The register refused an edit that does not go by the hash of its
    /// content.
    CrdtApplyError(EntryHash),
    /// Bytes that are not the encoding of any operation.
    Serialization(String),
    /// The file system failed.
    Io(String),
}

/// An error as it travels back to whoever asked.
#[derive(Clone, Debug, PartialEq, Eq)]
pub enum ProtocolError {
    /// The store failed.
    Storage(Error),
}

pub type Result<T> = core::result::Result<T, Error>;

} // verus!

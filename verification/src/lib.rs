//! A store for signed, permissioned CRDT registers.
//!
//! Each register lives in its own directory as a log of signed operations,
//! one file per operation, named by the operation's content hash. The
//! register's state is rebuilt from that log, whatever order the operations
//! arrived in.

pub mod address;
pub mod codec;
pub mod convergence;
pub mod digest;
pub mod entry;
pub mod error;
pub mod laws;
pub mod messages;
pub mod model;
pub mod policy;
pub mod register;
pub mod replica;
pub mod roundtrip;
pub mod storage;
pub mod wallet;

//! The signed operations on registers, and the questions one can ask of the
//! store.

use crate::address::{RegisterAddress, XorName};
use crate::digest::{bls_verifies, bls_verify};
use crate::entry::{Entry, EntryHash, EntryView};
use crate::error::{Error, Result};
use crate::policy::{Policy, PolicyView, PublicKey, User};
use vstd::prelude::*;

verus! {

/// A BLS signature, as its 96 compressed bytes.
#[derive(Clone, Copy, Debug, PartialEq, Eq, PartialOrd, Ord, Hash)]
pub struct Signature(pub [u8; 96]);

/// Who vouches for an operation: a public key and its signature over the
/// operation's bytes.
#[derive(Clone, Copy, Debug, PartialEq, Eq)]
pub struct DataAuthority {
    pub public_key: PublicKey,
    pub signature: Signature,
}

/// The creation of a register.
#[derive(Clone, Debug, PartialEq, Eq)]
pub struct CreateRegister {
    pub name: XorName,
    pub tag: u64,
    pub policy: Policy,
}

/// A creation with its signature.
#[derive(Clone, Debug, PartialEq, Eq)]
pub struct SignedRegisterCreate {
    pub op: CreateRegister,
    pub auth: DataAuthority,
}

/// A change to a register's entries.
#[derive(Clone, Debug, PartialEq, Eq)]
pub struct RegisterOp {
    pub crdt_op: Entry,
}

/// An edit of the register at an address.
#[derive(Clone, Debug, PartialEq, Eq)]
pub struct EditRegister {
    pub address: RegisterAddress,
    pub edit: RegisterOp,
}

/// An edit with its signature.
#[derive(Clone, Debug, PartialEq, Eq)]
pub struct SignedRegisterEdit {
    pub op: EditRegister,
    pub auth: DataAuthority,
}

/// A signed operation on a register.
#[derive(Clone, Debug, PartialEq, Eq)]
pub enum RegisterCmd {
    Create(SignedRegisterCreate),
    Edit(SignedRegisterEdit),
}

/// A signed operation as a mathematical value.
pub enum CmdView {
    Create { name: XorName, tag: u64, policy: PolicyView, auth: DataAuthority },
    Edit { address: RegisterAddress, entry: EntryView, auth: DataAuthority },
}

/// The history of one register, as handed from one store to another.
#[derive(Clone, Debug, PartialEq, Eq)]
pub struct ReplicatedRegisterLog {
    pub address: RegisterAddress,
    pub op_log: Vec<RegisterCmd>,
}

/// A question about the register at an address.
#[derive(Clone, Copy, Debug, PartialEq, Eq)]
pub enum RegisterQuery {
    /// The whole register.
    Get(RegisterAddress),
    /// The register's entries and heads.
    Read(RegisterAddress),
    /// The register's owner.
    GetOwner(RegisterAddress),
    /// The entry under a hash.
    GetEntry { address: RegisterAddress, hash: EntryHash },
    /// The register's policy.
    GetPolicy(RegisterAddress),
    /// What the policy grants a user.
    GetUserPermissions { address: RegisterAddress, user: User },
}

impl View for RegisterCmd {
    type V = CmdView;

    open spec fn view(&self) -> CmdView {
        match self {
            RegisterCmd::Create(cmd) => CmdView::Create {
                name: cmd.op.name,
                tag: cmd.op.tag,
                policy: cmd.op.policy@,
                auth: cmd.auth,
            },
            RegisterCmd::Edit(cmd) => CmdView::Edit {
                address: cmd.op.address,
                entry: cmd.op.edit.crdt_op@,
                auth: cmd.auth,
            },
        }
    }
}

/// The views of a log's operations, in order.
pub open spec fn log_view(log: Seq<RegisterCmd>) -> Seq<CmdView> {
    Seq::new(log.len(), |i: int| log[i]@)
}

impl CmdView {
    /// The address of the register that the operation is aimed at.
    pub open spec fn dst(self) -> RegisterAddress {
        match self {
            CmdView::Create { name, tag, .. } => RegisterAddress { name, tag },
            CmdView::Edit { address, .. } => address,
        }
    }

    /// Who vouches for the operation.
    pub open spec fn auth(self) -> DataAuthority {
        match self {
            CmdView::Create { auth, .. } => auth,
            CmdView::Edit { auth, .. } => auth,
        }
    }
}

impl DataAuthority {
    /// Whether the signature matches `payload` under the public key.
    pub open spec fn spec_verifies(self, payload: Seq<u8>) -> bool {
        bls_verifies(self.public_key.0@, self.signature.0@, payload)
    }

    /// Checks the signature against `payload`.
    pub fn verify_authority(&self, payload: &[u8]) -> (res: Result<()>)
        ensures
            self.spec_verifies(payload@) ==> res == Ok::<(), Error>(()),
            !self.spec_verifies(payload@) ==> res == Err::<(), Error>(
                Error::InvalidSignature(self.public_key),
            ),
    {
        if bls_verify(&self.public_key.0, &self.signature.0, payload) {
            Ok(())
        } else {
            Err(Error::InvalidSignature(self.public_key))
        }
    }
}

impl RegisterCmd {
    /// The address of the register that the operation is aimed at.
    pub fn dst(&self) -> (addr: RegisterAddress)
        ensures
            addr == self@.dst(),
    {
        match self {
            RegisterCmd::Create(cmd) => RegisterAddress { name: cmd.op.name, tag: cmd.op.tag },
            RegisterCmd::Edit(cmd) => cmd.op.address,
        }
    }

    /// A copy of the operation.
    pub fn duplicate(&self) -> (copy: RegisterCmd)
        ensures
            copy@ == self@,
    {
        match self {
            RegisterCmd::Create(cmd) => RegisterCmd::Create(
                SignedRegisterCreate {
                    op: CreateRegister {
                        name: cmd.op.name,
                        tag: cmd.op.tag,
                        policy: cmd.op.policy.duplicate(),
                    },
                    auth: cmd.auth,
                },
            ),
            RegisterCmd::Edit(cmd) => RegisterCmd::Edit(
                SignedRegisterEdit {
                    op: EditRegister {
                        address: cmd.op.address,
                        edit: RegisterOp { crdt_op: cmd.op.edit.crdt_op.duplicate() },
                    },
                    auth: cmd.auth,
                },
            ),
        }
    }
}

impl RegisterQuery {
    /// The address that the question is about.
    pub open spec fn spec_dst(self) -> RegisterAddress {
        match self {
            RegisterQuery::Get(address) => address,
            RegisterQuery::Read(address) => address,
            RegisterQuery::GetOwner(address) => address,
            RegisterQuery::GetEntry { address, .. } => address,
            RegisterQuery::GetPolicy(address) => address,
            RegisterQuery::GetUserPermissions { address, .. } => address,
        }
    }

    /// The address that the question is about.
    pub fn dst(&self) -> (addr: RegisterAddress)
        ensures
            addr == self.spec_dst(),
    {
        match self {
            RegisterQuery::Get(address) => *address,
            RegisterQuery::Read(address) => *address,
            RegisterQuery::GetOwner(address) => *address,
            RegisterQuery::GetEntry { address, .. } => *address,
            RegisterQuery::GetPolicy(address) => *address,
            RegisterQuery::GetUserPermissions { address, .. } => *address,
        }
    }
}

} // verus!

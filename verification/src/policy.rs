//! Who may do what to a register.

use crate::address::bytes_eq;
use crate::error::{Error, Result};
use vstd::prelude::*;

verus! {

/// A BLS public key, as its 48 compressed bytes.
#[derive(Clone, Copy, Debug, PartialEq, Eq, PartialOrd, Ord, Hash)]
pub struct PublicKey(pub [u8; 48]);

/// Someone who may act on a register.
#[derive(Clone, Copy, Debug, PartialEq, Eq, PartialOrd, Ord, Hash)]
pub enum User {
    /// Whoever asks, known or not.
    Anyone,
    /// The holder of a key.
    Key(PublicKey),
}

/// What can be done to a register.
#[derive(Clone, Copy, Debug, PartialEq, Eq, PartialOrd, Ord, Hash)]
pub enum Action {
    Read,
    Write,
}

/// The set of actions granted to one user.
#[derive(Clone, Copy, Debug, PartialEq, Eq, PartialOrd, Ord, Hash)]
pub struct Permissions {
    pub read: bool,
    pub write: bool,
}

/// A register's policy: its owner, and what other users may do. It is fixed
/// when the register is created.
#[derive(Clone, Debug, PartialEq, Eq)]
pub struct Policy {
    pub owner: User,
    /// The grants, one per user. Where a user is listed twice, the first
    /// listing counts.
    pub permissions: Vec<(User, Permissions)>,
}

/// A policy as a mathematical value.
pub struct PolicyView {
    pub owner: User,
    pub permissions: Seq<(User, Permissions)>,
}

impl View for Policy {
    type V = PolicyView;

    open spec fn view(&self) -> PolicyView {
        PolicyView { owner: self.owner, permissions: self.permissions@ }
    }
}

impl PublicKey {
    /// Whether two keys are the same.
    pub fn same_as(&self, other: &PublicKey) -> (same: bool)
        ensures
            same == (*self == *other),
    {
        let same = bytes_eq(self.0.as_slice(), other.0.as_slice());
        proof {
            if same {
                assert(self.0 =~= other.0);
            }
        }
        same
    }
}

impl User {
    /// Whether two users are the same.
    pub fn same_as(&self, other: &User) -> (same: bool)
        ensures
            same == (*self == *other),
    {
        match (self, other) {
            (User::Anyone, User::Anyone) => true,
            (User::Key(a), User::Key(b)) => a.same_as(b),
            _ => false,
        }
    }
}

impl Permissions {
    pub fn new(read: bool, write: bool) -> (perms: Permissions)
        ensures
            perms.read == read,
            perms.write == write,
    {
        Permissions { read, write }
    }

    /// Whether the set holds the action.
    pub open spec fn spec_allows(self, action: Action) -> bool {
        match action {
            Action::Read => self.read,
            Action::Write => self.write,
        }
    }

    /// Whether the set holds the action.
    pub fn allows(&self, action: Action) -> (allowed: bool)
        ensures
            allowed == self.spec_allows(action),
    {
        match action {
            Action::Read => self.read,
            Action::Write => self.write,
        }
    }
}

/// The first grant listed for `user` at or after position `from`.
pub open spec fn spec_grant_from(
    permissions: Seq<(User, Permissions)>,
    user: User,
    from: int,
) -> Option<Permissions>
    decreases permissions.len() - from,
{
    if from < 0 || from >= permissions.len() {
        None
    } else if permissions[from].0 == user {
        Some(permissions[from].1)
    } else {
        spec_grant_from(permissions, user, from + 1)
    }
}

impl PolicyView {
    /// The grant listed for exactly this user.
    pub open spec fn grant(self, user: User) -> Option<Permissions> {
        spec_grant_from(self.permissions, user, 0)
    }

    /// The grant that applies to a user: the user's own where one is
    /// listed, else the one listed for `Anyone`.
    pub open spec fn grant_for(self, user: User) -> Option<Permissions> {
        match self.grant(user) {
            Some(perms) => Some(perms),
            None => self.grant(User::Anyone),
        }
    }

    /// The verdict on an action that `requester` asks for. The owner may do
    /// anything. Others need a grant that holds the action; with no grant at
    /// all, a reader is told that the user is unknown and a writer is denied.
    pub open spec fn verdict(self, requester: User, action: Action) -> Result<()> {
        if requester == self.owner {
            Ok(())
        } else {
            match self.grant_for(requester) {
                Some(perms) => if perms.spec_allows(action) {
                    Ok(())
                } else {
                    Err(Error::AccessDenied(requester))
                },
                None => match action {
                    Action::Read => Err(Error::NoSuchUser(requester)),
                    Action::Write => Err(Error::AccessDenied(requester)),
                },
            }
        }
    }
}

impl Policy {
    /// The owner of the register.
    pub fn owner(&self) -> (owner: &User)
        ensures
            *owner == self@.owner,
    {
        &self.owner
    }

    /// The grant listed for exactly this user, if there is one.
    pub fn permissions(&self, user: User) -> (grant: Option<Permissions>)
        ensures
            grant == self@.grant(user),
    {
        let mut i: usize = 0;
        while i < self.permissions.len()
            invariant
                i <= self.permissions.len(),
                self@.grant(user) == spec_grant_from(self.permissions@, user, i as int),
            decreases self.permissions.len() - i,
        {
            if self.permissions[i].0.same_as(&user) {
                return Some(self.permissions[i].1);
            }
            i += 1;
        }
        None
    }

    /// Decides whether `requester` may do `action`.
    pub fn is_action_allowed(&self, requester: User, action: Action) -> (verdict: Result<()>)
        ensures
            verdict == self@.verdict(requester, action),
    {
        if requester.same_as(&self.owner) {
            return Ok(());
        }
        let own = self.permissions(requester);
        let grant = match own {
            Some(perms) => Some(perms),
            None => self.permissions(User::Anyone),
        };
        match grant {
            Some(perms) => {
                if perms.allows(action) {
                    Ok(())
                } else {
                    Err(Error::AccessDenied(requester))
                }
            },
            None => match action {
                Action::Read => Err(Error::NoSuchUser(requester)),
                Action::Write => Err(Error::AccessDenied(requester)),
            },
        }
    }

    /// Whether two policies are the same: owner and grants, as listed.
    pub fn same_as(&self, other: &Policy) -> (same: bool)
        ensures
            same == (self@ == other@),
    {
        if !self.owner.same_as(&other.owner) {
            return false;
        }
        if self.permissions.len() != other.permissions.len() {
            return false;
        }
        let mut k: usize = 0;
        while k < self.permissions.len()
            invariant
                k <= self.permissions.len(),
                self.permissions@.len() == other.permissions@.len(),
                forall|m: int| 0 <= m < k ==> self.permissions@[m] == other.permissions@[m],
            decreases self.permissions.len() - k,
        {
            let mine = &self.permissions[k];
            let theirs = &other.permissions[k];
            if !mine.0.same_as(&theirs.0) || mine.1.read != theirs.1.read || mine.1.write
                != theirs.1.write {
                return false;
            }
            k += 1;
        }
        assert(self.permissions@ =~= other.permissions@);
        true
    }

    /// A copy of the policy.
    pub fn duplicate(&self) -> (copy: Policy)
        ensures
            copy@ == self@,
    {
        let mut permissions: Vec<(User, Permissions)> = Vec::new();
        let mut i: usize = 0;
        while i < self.permissions.len()
            invariant
                i <= self.permissions.len(),
                permissions@ == self.permissions@.subrange(0, i as int),
            decreases self.permissions.len() - i,
        {
            permissions.push(self.permissions[i]);
            assert(permissions@ =~= self.permissions@.subrange(0, i as int + 1));
            i += 1;
        }
        assert(permissions@ =~= self.permissions@);
        Policy { owner: self.owner, permissions }
    }
}

} // verus!

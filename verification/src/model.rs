//! What the store does, stated on plain values: the files of a register's
//! directory, the log read from them, and the register rebuilt from the log.

use crate::address::RegisterAddress;
use crate::codec::decoding;
use crate::digest::{hex_text, sha3_512};
use crate::error::{Error, Result};
use crate::messages::CmdView;
use crate::policy::{Action, User};
use crate::register::RegisterView;
use vstd::prelude::*;

verus! {

/// One file of a register's directory.
pub struct FileView {
    pub name: Seq<char>,
    pub data: Seq<u8>,
}

/// What is known of one register while an operation is dealt with.
pub struct StoredView {
    /// The register, once its creation has been seen.
    pub state: Option<RegisterView>,
    /// Every operation seen, applied or not.
    pub op_log: Seq<CmdView>,
    /// The register's directory.
    pub op_log_path: Seq<Seq<char>>,
}

/// The name of the file that holds an operation: the SHA3-512 digest of
/// its encoding, in hex.
pub open spec fn op_id(cmd: CmdView) -> Seq<char> {
    hex_text(sha3_512(cmd.encoding()))
}

/// The file that holds an operation.
pub open spec fn file_of(cmd: CmdView) -> FileView {
    FileView { name: op_id(cmd), data: cmd.encoding() }
}

/// Whether the directory has a file of this name.
pub open spec fn has_file(files: Seq<FileView>, name: Seq<char>) -> bool {
    exists|i: int| 0 <= i < files.len() && (#[trigger] files[i]).name == name
}

/// The directory after one operation was persisted: a file whose name is
/// taken already is left as it is.
pub open spec fn persist_one(files: Seq<FileView>, cmd: CmdView) -> Seq<FileView> {
    if has_file(files, op_id(cmd)) {
        files
    } else {
        files.push(file_of(cmd))
    }
}

/// The directory after the operations were persisted, one after the other.
pub open spec fn persisted(files: Seq<FileView>, ops: Seq<CmdView>) -> Seq<FileView>
    decreases ops.len(),
{
    if ops.len() == 0 {
        files
    } else {
        persist_one(persisted(files, ops.drop_last()), ops.last())
    }
}

/// The operations read from a directory, in the order of its files. A file
/// that holds no operation is passed over.
pub open spec fn decoded_log(files: Seq<FileView>) -> Seq<CmdView>
    decreases files.len(),
{
    if files.len() == 0 {
        Seq::empty()
    } else {
        let front = decoded_log(files.drop_last());
        match decoding(files.last().data) {
            Some(cmd) => front.push(cmd),
            None => front,
        }
    }
}

/// The first creation in a log.
pub open spec fn first_creation(log: Seq<CmdView>) -> Option<CmdView>
    decreases log.len(),
{
    if log.len() == 0 {
        None
    } else {
        match first_creation(log.drop_last()) {
            Some(cmd) => Some(cmd),
            None => if log.last() is Create {
                Some(log.last())
            } else {
                None
            },
        }
    }
}

/// The register that a creation makes: empty, owned by the policy's owner.
pub open spec fn created(cmd: CmdView) -> RegisterView
    recommends
        cmd is Create,
{
    match cmd {
        CmdView::Create { name, tag, policy, .. } => RegisterView::empty(
            policy.owner,
            name,
            tag,
            policy,
        ),
        CmdView::Edit { address, .. } => arbitrary(),
    }
}

/// The register after the edits of a log were offered to it, unchecked but
/// for their hashes. The first edit that is refused ends the replay.
pub open spec fn replay(register: RegisterView, log: Seq<CmdView>) -> Result<RegisterView>
    decreases log.len(),
{
    if log.len() == 0 {
        Ok(register)
    } else {
        match replay(register, log.drop_last()) {
            Ok(so_far) => match log.last() {
                CmdView::Edit { entry, .. } => so_far.apply(entry),
                CmdView::Create { .. } => Ok(so_far),
            },
            Err(e) => Err(e),
        }
    }
}

/// What loading a directory gives: the log of its files, and the register
/// of the first creation with every edit of the log replayed.
pub open spec fn loaded(files: Seq<FileView>, path: Seq<Seq<char>>) -> Result<StoredView> {
    let log = decoded_log(files);
    match first_creation(log) {
        None => Ok(StoredView { state: None, op_log: log, op_log_path: path }),
        Some(cmd) => match replay(created(cmd), log) {
            Ok(register) => Ok(StoredView { state: Some(register), op_log: log, op_log_path: path }),
            Err(e) => Err(e),
        },
    }
}

/// Whether the operation's signature matches what it covers.
pub open spec fn signed(cmd: CmdView) -> bool {
    cmd.auth().spec_verifies(cmd.payload())
}

/// The outcome of applying an operation to a register with every check: the
/// operation must be aimed at this register; an edit must be signed, its
/// signer must be allowed to write, and it must go by the hash of its
/// content. A creation changes nothing.
pub open spec fn checked_apply(register: RegisterView, cmd: CmdView) -> Result<RegisterView> {
    if cmd.dst() != register.address {
        Err(Error::RegisterAddrMismatch { cmd_dst_addr: cmd.dst(), reg_addr: register.address })
    } else {
        match cmd {
            CmdView::Create { .. } => Ok(register),
            CmdView::Edit { entry, auth, .. } => if !signed(cmd) {
                Err(Error::InvalidSignature(auth.public_key))
            } else {
                match register.policy.verdict(User::Key(auth.public_key), Action::Write) {
                    Err(e) => Err(e),
                    Ok(_) => register.apply(entry),
                }
            },
        }
    }
}

/// The register after a log was applied to it with every check. The first
/// operation that is refused ends the replay.
pub open spec fn checked_replay(register: RegisterView, log: Seq<CmdView>) -> Result<RegisterView>
    decreases log.len(),
{
    if log.len() == 0 {
        Ok(register)
    } else {
        match checked_replay(register, log.drop_last()) {
            Ok(so_far) => checked_apply(so_far, log.last()),
            Err(e) => Err(e),
        }
    }
}

/// The outcome of taking in one operation.
///
/// With the register at hand, a creation changes nothing and an edit is
/// applied with every check. Without it, a creation must be signed, and
/// makes the register from itself and from all that the log holds, applied
/// with every check; an edit cannot be checked yet and is only kept. An
/// operation that is not refused joins the log.
pub open spec fn try_apply(stored: StoredView, cmd: CmdView) -> Result<StoredView> {
    let op_log = stored.op_log.push(cmd);
    match stored.state {
        Some(register) => match cmd {
            CmdView::Create { .. } => Ok(StoredView { op_log, ..stored }),
            CmdView::Edit { .. } => match checked_apply(register, cmd) {
                Ok(after) => Ok(StoredView { state: Some(after), op_log, ..stored }),
                Err(e) => Err(e),
            },
        },
        None => match cmd {
            CmdView::Create { auth, .. } => if !signed(cmd) {
                Err(Error::InvalidSignature(auth.public_key))
            } else {
                match checked_replay(created(cmd), stored.op_log) {
                    Ok(register) => Ok(StoredView { state: Some(register), op_log, ..stored }),
                    Err(e) => Err(e),
                }
            },
            CmdView::Edit { .. } => Ok(StoredView { op_log, ..stored }),
        },
    }
}

/// What becomes of a register's directory when an operation is written: the
/// directory is loaded, the operation is taken in, and only then persisted.
pub open spec fn written(files: Seq<FileView>, path: Seq<Seq<char>>, cmd: CmdView) -> Result<
    Seq<FileView>,
> {
    match loaded(files, path) {
        Err(e) => Err(e),
        Ok(stored) => match try_apply(stored, cmd) {
            Err(e) => Err(e),
            Ok(_) => Ok(persist_one(files, cmd)),
        },
    }
}

/// Taking in a batch of operations: one that is refused is dropped, and the
/// others go on. Gives what is known afterwards and the operations that
/// were taken in, in order.
pub open spec fn absorbed(stored: StoredView, ops: Seq<CmdView>) -> (StoredView, Seq<CmdView>)
    decreases ops.len(),
{
    if ops.len() == 0 {
        (stored, Seq::empty())
    } else {
        let (so_far, taken) = absorbed(stored, ops.drop_last());
        match try_apply(so_far, ops.last()) {
            Ok(after) => (after, taken.push(ops.last())),
            Err(_) => (so_far, taken),
        }
    }
}

/// What becomes of a register's directory when a batch of operations is
/// pushed to it: those that are taken in are persisted.
pub open spec fn updated(files: Seq<FileView>, path: Seq<Seq<char>>, ops: Seq<CmdView>) -> Result<
    Seq<FileView>,
> {
    match loaded(files, path) {
        Err(e) => Err(e),
        Ok(stored) => Ok(persisted(files, absorbed(stored, ops).1)),
    }
}

/// The register that a reader gets: the one loaded from the directory,
/// provided that there is one and that the policy lets `requester` do
/// `action`.
pub open spec fn found(
    files: Seq<FileView>,
    path: Seq<Seq<char>>,
    address: RegisterAddress,
    action: Action,
    requester: User,
) -> Result<RegisterView> {
    match loaded(files, path) {
        Err(e) => Err(e),
        Ok(stored) => match stored.state {
            None => Err(Error::RegisterNotFound(address)),
            Some(register) => match register.policy.verdict(requester, action) {
                Err(e) => Err(e),
                Ok(_) => Ok(register),
            },
        },
    }
}

/// The address that a directory stands for: the one that the first
/// operation read from it is aimed at.
pub open spec fn first_address(files: Seq<FileView>) -> Option<RegisterAddress> {
    let log = decoded_log(files);
    if log.len() > 0 {
        Some(log[0].dst())
    } else {
        None
    }
}

/// The addresses that a list of directories stands for, in order. A
/// directory from which no operation can be read stands for none.
pub open spec fn addresses(dirs: Seq<Seq<FileView>>) -> Seq<RegisterAddress>
    decreases dirs.len(),
{
    if dirs.len() == 0 {
        Seq::empty()
    } else {
        let front = addresses(dirs.drop_last());
        match first_address(dirs.last()) {
            Some(address) => front.push(address),
            None => front,
        }
    }
}

/// The error that a run of attempts ends with: the last one met, if any.
pub open spec fn last_failure(attempts: Seq<Result<()>>) -> Result<()>
    decreases attempts.len(),
{
    if attempts.len() == 0 {
        Ok(())
    } else {
        match attempts.last() {
            Err(e) => Err(e),
            Ok(_) => last_failure(attempts.drop_last()),
        }
    }
}

/// The log read from the first files of a directory is the front of the
/// log read from all of them.
pub proof fn lemma_decoded_log_grows(files: Seq<FileView>, i: int)
    requires
        0 <= i <= files.len(),
    ensures
        decoded_log(files.subrange(0, i)).len() <= decoded_log(files).len(),
        decoded_log(files.subrange(0, i)) == decoded_log(files).subrange(
            0,
            decoded_log(files.subrange(0, i)).len() as int,
        ),
    decreases files.len() - i,
{
    if i < files.len() {
        let next = files.subrange(0, i + 1);
        assert(next.drop_last() =~= files.subrange(0, i));
        lemma_decoded_log_grows(files, i + 1);
        let short = decoded_log(files.subrange(0, i));
        let longer = decoded_log(next);
        let all = decoded_log(files);
        assert(short =~= all.subrange(0, short.len() as int));
    } else {
        assert(files.subrange(0, i) =~= files);
        let all = decoded_log(files);
        assert(all =~= all.subrange(0, all.len() as int));
    }
}

} // verus!

//! What holds of the store as a whole.

use crate::codec::decoding;
use crate::entry::EntryHash;
use crate::messages::CmdView;
use crate::model::{
    absorbed, checked_apply, checked_replay, created, decoded_log, file_of, first_creation,
    has_file, loaded, op_id, persist_one, replay, signed, try_apply, written, FileView,
    StoredView,
};
use crate::policy::{Action, User};
use crate::register::RegisterView;
use crate::roundtrip::lemma_decoding_of_encoding;
use vstd::prelude::*;

verus! {

/// Whether the signature of `cmd` is checked when it arrives: a creation
/// while the register is unknown, an edit once it is known.
pub open spec fn checked_on_arrival(stored: StoredView, cmd: CmdView) -> bool {
    (stored.state is None && cmd is Create) || (stored.state is Some && cmd is Edit)
}

/// An operation whose signature is checked on arrival and does not match
/// is refused, and leaves no trace in what is known.
pub proof fn law_unsigned_is_refused(stored: StoredView, cmd: CmdView)
    requires
        !signed(cmd),
        checked_on_arrival(stored, cmd),
    ensures
        try_apply(stored, cmd) is Err,
{
}

/// Authentication, on writing: an operation whose signature does not match
/// under the key it names is refused, and the directory stays as it was.
/// This holds wherever the signature is checked on arrival; an edit that
/// comes before the register's creation is kept unchecked until then.
pub proof fn law_authentication_on_write(files: Seq<FileView>, path: Seq<Seq<char>>, cmd: CmdView)
    requires
        !signed(cmd),
        loaded(files, path) matches Ok(stored) ==> checked_on_arrival(stored, cmd),
    ensures
        written(files, path, cmd) is Err,
{
}

/// Authentication, on updating: an operation whose signature does not match
/// under the key it names is dropped from the batch. This holds wherever
/// the signature is checked on arrival.
pub proof fn law_authentication_on_update(stored: StoredView, ops: Seq<CmdView>, cmd: CmdView)
    requires
        !signed(cmd),
        checked_on_arrival(absorbed(stored, ops).0, cmd),
    ensures
        absorbed(stored, ops.push(cmd)) == absorbed(stored, ops),
{
    assert(ops.push(cmd).drop_last() =~= ops);
}

/// Whether the policy of the register keeps the signer of an edit from
/// writing.
pub open spec fn signer_may_not_write(register: RegisterView, cmd: CmdView) -> bool {
    cmd is Edit && register.policy.verdict(User::Key(cmd.auth().public_key), Action::Write) is Err
}

/// Policy enforcement, on writing: once the register's creation is there,
/// an edit signed by a key that may not write is refused.
pub proof fn law_policy_on_write(files: Seq<FileView>, path: Seq<Seq<char>>, cmd: CmdView)
    requires
        loaded(files, path) matches Ok(stored) ==> stored.state matches Some(register)
            && signer_may_not_write(register, cmd),
    ensures
        written(files, path, cmd) is Err,
{
}

/// Policy enforcement, on updating: once the register's creation is there,
/// an edit signed by a key that may not write is dropped from the batch.
pub proof fn law_policy_on_update(stored: StoredView, ops: Seq<CmdView>, cmd: CmdView)
    requires
        absorbed(stored, ops).0.state matches Some(register) && signer_may_not_write(register, cmd),
    ensures
        absorbed(stored, ops.push(cmd)) == absorbed(stored, ops),
{
    assert(ops.push(cmd).drop_last() =~= ops);
}

/// How many files of the directory have this name.
pub open spec fn count_named(files: Seq<FileView>, name: Seq<char>) -> nat
    decreases files.len(),
{
    if files.len() == 0 {
        0
    } else {
        count_named(files.drop_last(), name) + if files.last().name == name {
            1nat
        } else {
            0nat
        }
    }
}

/// A name that no file has is counted zero times.
pub proof fn lemma_count_of_absent(files: Seq<FileView>, name: Seq<char>)
    requires
        !has_file(files, name),
    ensures
        count_named(files, name) == 0,
    decreases files.len(),
{
    if files.len() > 0 {
        assert(files.last() == files[files.len() - 1]);
        assert forall|i: int| 0 <= i < files.drop_last().len() implies (#[trigger] files.drop_last()[i]).name
            != name by {
            assert(files[i].name != name);
        }
        lemma_count_of_absent(files.drop_last(), name);
    }
}

/// Content-addressed file names: persisting the same operation twice
/// leaves what persisting it once leaves, and where no file had its name
/// before, exactly one has it afterwards.
pub proof fn law_one_file_per_operation(files: Seq<FileView>, first: CmdView, second: CmdView)
    requires
        first == second,
    ensures
        persist_one(persist_one(files, first), second) == persist_one(files, first),
        !has_file(files, op_id(first)) ==> count_named(
            persist_one(persist_one(files, first), second),
            op_id(first),
        ) == 1,
{
    let once = persist_one(files, first);
    if !has_file(files, op_id(first)) {
        assert(once[files.len() as int].name == op_id(first));
        assert(once.drop_last() =~= files);
        lemma_count_of_absent(files, op_id(first));
    }
}

/// Adding the file of an operation to a directory adds the operation to
/// the log read from it.
pub proof fn lemma_decoded_log_push(files: Seq<FileView>, cmd: CmdView)
    requires
        cmd.encodable(),
    ensures
        decoded_log(files.push(file_of(cmd))) == decoded_log(files).push(cmd),
{
    lemma_decoding_of_encoding(cmd);
    assert(files.push(file_of(cmd)).drop_last() =~= files);
}

pub proof fn lemma_first_creation_push(log: Seq<CmdView>, cmd: CmdView)
    ensures
        first_creation(log.push(cmd)) == match first_creation(log) {
            Some(c) => Some(c),
            None => if cmd is Create {
                Some(cmd)
            } else {
                None
            },
        },
{
    assert(log.push(cmd).drop_last() =~= log);
}

pub proof fn lemma_replay_push(register: RegisterView, log: Seq<CmdView>, cmd: CmdView)
    ensures
        replay(register, log.push(cmd)) == match replay(register, log) {
            Ok(so_far) => match cmd {
                CmdView::Edit { entry, .. } => so_far.apply(entry),
                CmdView::Create { .. } => Ok(so_far),
            },
            Err(e) => Err(e),
        },
{
    assert(log.push(cmd).drop_last() =~= log);
}

/// A replay with every check that succeeds gives what the replay without
/// them gives.
pub proof fn lemma_checked_replay_is_replay(register: RegisterView, log: Seq<CmdView>)
    requires
        checked_replay(register, log) is Ok,
    ensures
        replay(register, log) == checked_replay(register, log),
    decreases log.len(),
{
    if log.len() > 0 {
        lemma_checked_replay_is_replay(register, log.drop_last());
    }
}

/// A replay leaves the address and the policy of the register alone, and
/// forgets nothing.
pub proof fn lemma_replay_keeps(register: RegisterView, log: Seq<CmdView>)
    requires
        replay(register, log) is Ok,
    ensures
        replay(register, log).unwrap().address == register.address,
        replay(register, log).unwrap().owner == register.owner,
        replay(register, log).unwrap().policy == register.policy,
        forall|h: EntryHash|
            register.known.contains_key(h) ==> #[trigger] replay(
                register,
                log,
            ).unwrap().known.contains_key(h),
    decreases log.len(),
{
    if log.len() > 0 {
        lemma_replay_keeps(register, log.drop_last());
    }
}

/// After a replay, every edit of the log is known to the register.
pub proof fn lemma_replayed_are_known(register: RegisterView, log: Seq<CmdView>, i: int)
    requires
        replay(register, log) is Ok,
        0 <= i < log.len(),
        log[i] is Edit,
    ensures
        replay(register, log).unwrap().known.contains_key(log[i]->entry.hash),
    decreases log.len(),
{
    let front = log.drop_last();
    if i < log.len() - 1 {
        lemma_replayed_are_known(register, front, i);
    }
}

/// A log with a creation in it has a first creation.
pub proof fn lemma_creation_is_found(log: Seq<CmdView>, i: int)
    requires
        0 <= i < log.len(),
        log[i] is Create,
    ensures
        first_creation(log) is Some,
    decreases log.len(),
{
    if i < log.len() - 1 {
        lemma_creation_is_found(log.drop_last(), i);
    }
}

/// The operations of the files are in the log read from them.
pub proof fn lemma_decoded_holds(files: Seq<FileView>, i: int, cmd: CmdView)
    requires
        0 <= i < files.len(),
        decoding(files[i].data) == Some(cmd),
    ensures
        decoded_log(files).contains(cmd),
    decreases files.len(),
{
    let front = files.drop_last();
    let log = decoded_log(files);
    if i < files.len() - 1 {
        lemma_decoded_holds(front, i, cmd);
        let k = choose|k: int| 0 <= k < decoded_log(front).len() && decoded_log(front)[k] == cmd;
        assert(log[k] == cmd);
    } else {
        assert(log[log.len() - 1] == cmd);
    }
}

/// Once an operation was taken in, taking it in again succeeds and leaves
/// the register as it is.
pub proof fn lemma_taken_twice(stored: StoredView, cmd: CmdView)
    requires
        try_apply(stored, cmd) is Ok,
    ensures
        try_apply(try_apply(stored, cmd).unwrap(), cmd) matches Ok(again) && again.state
            == try_apply(stored, cmd).unwrap().state,
{
    let after = try_apply(stored, cmd).unwrap();
    match cmd {
        CmdView::Create { .. } => {},
        CmdView::Edit { entry, .. } => {
            match stored.state {
                Some(register) => {
                    let once = checked_apply(register, cmd).unwrap();
                    assert(once == register.accept(entry));
                    assert(once.known.contains_key(entry.hash));
                    assert(once.accept(entry) == once);
                },
                None => {},
            }
        },
    }
}

/// Durability of one write, where the operation gets a file of its own:
/// loading the directory afterwards gives just what taking the operation
/// in had given in memory.
pub proof fn lemma_reload_after_push(
    files: Seq<FileView>,
    path: Seq<Seq<char>>,
    cmd: CmdView,
)
    requires
        cmd.encodable(),
        loaded(files, path) is Ok,
        try_apply(loaded(files, path).unwrap(), cmd) is Ok,
    ensures
        loaded(files.push(file_of(cmd)), path) == try_apply(loaded(files, path).unwrap(), cmd),
{
    let stored = loaded(files, path).unwrap();
    let log = decoded_log(files);
    lemma_decoded_log_push(files, cmd);
    lemma_first_creation_push(log, cmd);
    match first_creation(log) {
        Some(c) => {
            lemma_replay_push(created(c), log, cmd);
        },
        None => {
            if cmd is Create {
                lemma_checked_replay_is_replay(created(cmd), log);
                lemma_replay_push(created(cmd), log, cmd);
            }
        },
    }
}

/// Whether a file that goes by the name of an operation holds that
/// operation. It fails only where two different contents share a digest.
pub open spec fn faithful(files: Seq<FileView>, cmd: CmdView) -> bool {
    forall|i: int|
        0 <= i < files.len() && (#[trigger] files[i]).name == op_id(cmd) ==> files[i].data
            == cmd.encoding()
}

/// Durability: after a write that succeeded, loading the directory anew,
/// with nothing kept in memory, gives the register that the write had
/// arrived at. It is stated for directories in which a file that goes by
/// the operation's name holds the operation.
pub proof fn law_durable_write(files: Seq<FileView>, path: Seq<Seq<char>>, cmd: CmdView)
    requires
        cmd.encodable(),
        faithful(files, cmd),
        written(files, path, cmd) is Ok,
    ensures
        loaded(written(files, path, cmd).unwrap(), path) matches Ok(reloaded) && reloaded.state
            == try_apply(loaded(files, path).unwrap(), cmd).unwrap().state,
{
    let stored = loaded(files, path).unwrap();
    let after = try_apply(stored, cmd).unwrap();
    if has_file(files, op_id(cmd)) {
        let i = choose|i: int| 0 <= i < files.len() && (#[trigger] files[i]).name == op_id(cmd);
        lemma_decoding_of_encoding(cmd);
        lemma_decoded_holds(files, i, cmd);
        let log = decoded_log(files);
        let k = choose|k: int| 0 <= k < log.len() && log[k] == cmd;
        match cmd {
            CmdView::Create { .. } => {
                lemma_creation_is_found(log, k);
            },
            CmdView::Edit { entry, .. } => {
                match first_creation(log) {
                    Some(c) => {
                        lemma_replayed_are_known(created(c), log, k);
                    },
                    None => {},
                }
            },
        }
    } else {
        lemma_reload_after_push(files, path, cmd);
    }
}

/// Write idempotence: writing an operation a second time succeeds and
/// leaves the directory, and so the register loaded from it, as the first
/// write left them.
pub proof fn law_write_idempotence(files: Seq<FileView>, path: Seq<Seq<char>>, cmd: CmdView)
    requires
        cmd.encodable(),
        written(files, path, cmd) is Ok,
    ensures
        written(written(files, path, cmd).unwrap(), path, cmd) == written(files, path, cmd),
{
    let once = written(files, path, cmd).unwrap();
    if !has_file(files, op_id(cmd)) {
        lemma_reload_after_push(files, path, cmd);
        lemma_taken_twice(loaded(files, path).unwrap(), cmd);
        assert(once[files.len() as int].name == op_id(cmd));
    }
}

} // verus!

//! The store: loading a register from its directory, taking in signed
//! operations, answering questions, and deciding what goes to disk.
//!
//! The store keeps nothing in memory between calls. Each call is handed the
//! files of the register's directory as they were read, and leaves in them
//! what is to be on disk afterwards. Writing only ever adds files, at the
//! end, and never touches one that is there.

use crate::address::{prefix_tree_path, spec_prefix_tree_path, RegisterAddress};
use crate::digest::{hex_encode, sha3_512_digest};
use crate::entry::{Entry, EntryHash};
use crate::error::{Error, ProtocolError, Result};
use crate::messages::{
    log_view, CmdView, RegisterCmd, RegisterQuery, ReplicatedRegisterLog, SignedRegisterCreate,
    SignedRegisterEdit,
};
use crate::model::{
    absorbed, addresses, checked_apply, checked_replay, created, decoded_log, file_of,
    first_address, first_creation, found, has_file, last_failure, lemma_decoded_log_grows, loaded,
    op_id, persist_one, persisted, replay, try_apply, updated, written, FileView, StoredView,
};
use crate::policy::{Action, Permissions, Policy, User};
use crate::register::{Register, RegisterView, Snapshot};
use vstd::prelude::*;
use vstd::string::StringExecFns;

verus! {

/// The log of a register: its operations, in the order they were seen.
pub type RegisterLog = Vec<RegisterCmd>;

/// One file of a register's directory: an operation's encoding, under the
/// operation's identifier as its name.
#[derive(Clone, Debug, PartialEq, Eq)]
pub struct OpFile {
    pub name: String,
    pub data: Vec<u8>,
}

/// The files of a register's directory. A directory that does not exist
/// has none.
#[derive(Clone, Debug, PartialEq, Eq)]
pub struct OpDir {
    pub files: Vec<OpFile>,
}

/// What is known of one register while an operation is dealt with.
#[derive(Clone, Debug, PartialEq, Eq)]
pub struct StoredRegister {
    pub state: Option<Register>,
    pub op_log: RegisterLog,
    pub op_log_path: Vec<String>,
}

/// The store of registers below one directory.
#[derive(Clone, Debug, PartialEq, Eq)]
pub struct RegisterStorage {
    file_store_path: Vec<String>,
}

/// What a store answers to a question.
#[derive(Debug, PartialEq, Eq)]
pub enum QueryResponse {
    GetRegister(core::result::Result<Register, ProtocolError>),
    ReadRegister(core::result::Result<Snapshot, ProtocolError>),
    GetRegisterOwner(core::result::Result<User, ProtocolError>),
    GetRegisterEntry(core::result::Result<Entry, ProtocolError>),
    GetRegisterPolicy(core::result::Result<Policy, ProtocolError>),
    GetRegisterUserPermissions(core::result::Result<Permissions, ProtocolError>),
}

/// The texts of a list of strings.
pub open spec fn texts(strings: Seq<String>) -> Seq<Seq<char>> {
    Seq::new(strings.len(), |i: int| strings[i]@)
}

impl View for OpFile {
    type V = FileView;

    open spec fn view(&self) -> FileView {
        FileView { name: self.name@, data: self.data@ }
    }
}

impl View for OpDir {
    type V = Seq<FileView>;

    open spec fn view(&self) -> Seq<FileView> {
        Seq::new(self.files@.len(), |i: int| self.files@[i]@)
    }
}

/// The register of a state as a mathematical value.
pub open spec fn state_view(state: Option<Register>) -> Option<RegisterView> {
    match state {
        Some(register) => Some(register@),
        None => None,
    }
}

impl View for StoredRegister {
    type V = StoredView;

    open spec fn view(&self) -> StoredView {
        StoredView {
            state: state_view(self.state),
            op_log: log_view(self.op_log@),
            op_log_path: texts(self.op_log_path@),
        }
    }
}

impl StoredRegister {
    /// The register, where there is one, meets its invariant.
    pub open spec fn wf(&self) -> bool {
        match self.state {
            Some(register) => register.wf(),
            None => true,
        }
    }
}

impl OpDir {
    /// A directory without files.
    pub fn new() -> (dir: OpDir)
        ensures
            dir@ == Seq::<FileView>::empty(),
    {
        let dir = OpDir { files: Vec::new() };
        assert(dir@ =~= Seq::<FileView>::empty());
        dir
    }

    /// Whether the directory has a file of this name.
    pub fn has_file(&self, name: &String) -> (res: bool)
        ensures
            res == has_file(self@, name@),
    {
        let mut i: usize = 0;
        while i < self.files.len()
            invariant
                i <= self.files.len(),
                forall|k: int| 0 <= k < i ==> (#[trigger] self@[k]).name != name@,
            decreases self.files.len() - i,
        {
            if self.files[i].name == *name {
                assert(self@[i as int].name == name@);
                return true;
            }
            i += 1;
        }
        false
    }
}

/// The name of the store's own directory below the directory it is given.
pub const REGISTERS_STORE_DIR_NAME: &'static str = "registers";

/// The identifier of an operation, which is the name of its file: the
/// SHA3-512 digest of its encoding, in hex. It covers the signature, so the
/// same operation signed anew has another identifier.
pub fn register_op_id(cmd: &RegisterCmd) -> (res: Result<String>)
    ensures
        res matches Ok(id) && id@ == op_id(cmd@),
{
    let bytes = cmd.serialize();
    let digest = sha3_512_digest(bytes.as_slice());
    Ok(hex_encode(digest.as_slice()))
}

impl RegisterStorage {
    /// The directory of the store, part by part.
    pub closed spec fn spec_root(&self) -> Seq<Seq<char>> {
        texts(self.file_store_path@)
    }

    /// The directory of a register, part by part: the store's directory,
    /// one directory per leading hex digit of the address's identifier,
    /// then one named by the whole identifier in hex.
    pub open spec fn spec_path(&self, address: RegisterAddress) -> Seq<Seq<char>> {
        self.spec_root() + spec_prefix_tree_path(address.spec_id())
    }

    /// A store that keeps its registers below `path`.
    pub fn new(path: &str) -> (store: RegisterStorage)
        ensures
            store.spec_root() == seq![path@, REGISTERS_STORE_DIR_NAME@],
    {
        let mut file_store_path: Vec<String> = Vec::new();
        file_store_path.push(String::from_str(path));
        file_store_path.push(String::from_str(REGISTERS_STORE_DIR_NAME));
        assert(texts(file_store_path@) =~= seq![path@, REGISTERS_STORE_DIR_NAME@]);
        RegisterStorage { file_store_path }
    }

    /// The directory of a register. It depends on the address alone, and is
    /// the same in every process.
    pub fn address_to_filepath(&self, address: &RegisterAddress) -> (res: Result<Vec<String>>)
        ensures
            res matches Ok(path) && texts(path@) == self.spec_path(*address),
    {
        let mut path: Vec<String> = Vec::new();
        let mut i: usize = 0;
        while i < self.file_store_path.len()
            invariant
                i <= self.file_store_path.len(),
                path@.len() == i,
                forall|k: int| 0 <= k < i ==> (#[trigger] path@[k])@ == self.file_store_path@[k]@,
            decreases self.file_store_path.len() - i,
        {
            path.push(self.file_store_path[i].clone());
            i += 1;
        }
        let id = address.id();
        let mut tree = prefix_tree_path(&id);
        let ghost head = path@;
        let ghost tail = tree@;
        path.append(&mut tree);
        assert(texts(path@) =~= self.spec_path(*address)) by {
            assert(path@ =~= head + tail);
        }
        Ok(path)
    }

    /// Persists one operation: its encoding goes into a file named by its
    /// identifier, unless a file of that name is there already.
    pub fn write_register_cmd(&self, cmd: &RegisterCmd, dir: &mut OpDir) -> (res: Result<()>)
        ensures
            res is Ok,
            final(dir)@ == persist_one(old(dir)@, cmd@),
    {
        let name = match register_op_id(cmd) {
            Ok(id) => id,
            Err(e) => { return Err(e); },
        };
        if dir.has_file(&name) {
            return Ok(());
        }
        let data = cmd.serialize();
        dir.files.push(OpFile { name, data });
        assert(dir@ =~= old(dir)@.push(file_of(cmd@)));
        Ok(())
    }

    /// Persists a log, one operation after the other.
    pub fn write_log_to_disk(&self, log: &RegisterLog, dir: &mut OpDir) -> (res: Result<()>)
        ensures
            res is Ok,
            final(dir)@ == persisted(old(dir)@, log_view(log@)),
    {
        let mut i: usize = 0;
        while i < log.len()
            invariant
                i <= log.len(),
                dir@ == persisted(old(dir)@, log_view(log@).subrange(0, i as int)),
            decreases log.len() - i,
        {
            let persisted_one = self.write_register_cmd(&log[i], dir);
            proof {
                assert(persisted_one is Ok);
                let next = log_view(log@).subrange(0, i + 1);
                assert(next.drop_last() =~= log_view(log@).subrange(0, i as int));
                assert(next.last() == log@[i as int]@);
            }
            i += 1;
        }
        assert(log_view(log@).subrange(0, log@.len() as int) =~= log_view(log@));
        Ok(())
    }

    /// Reads the log of a register from the files of its directory, and
    /// makes the register of the first creation in it, with no edit applied
    /// yet. A file that holds no operation is passed over.
    pub fn open_reg_log_from_disk(&self, addr: &RegisterAddress, dir: &OpDir) -> (res: Result<
        StoredRegister,
    >)
        ensures
            res matches Ok(stored) && stored.wf() && stored@ == (StoredView {
                state: match first_creation(decoded_log(dir@)) {
                    Some(cmd) => Some(created(cmd)),
                    None => None,
                },
                op_log: decoded_log(dir@),
                op_log_path: self.spec_path(*addr),
            }),
    {
        let path = match self.address_to_filepath(addr) {
            Ok(path) => path,
            Err(e) => { return Err(e); },
        };
        let mut state: Option<Register> = None;
        let mut op_log: RegisterLog = Vec::new();
        let mut i: usize = 0;
        assert(dir@.subrange(0, 0) =~= Seq::<FileView>::empty());
        assert(log_view(op_log@) =~= Seq::<CmdView>::empty());
        while i < dir.files.len()
            invariant
                i <= dir.files.len(),
                log_view(op_log@) == decoded_log(dir@.subrange(0, i as int)),
                state_view(state) == match first_creation(log_view(op_log@)) {
                    Some(cmd) => Some(created(cmd)),
                    None => None,
                },
                match state {
                    Some(register) => register.wf(),
                    None => true,
                },
            decreases dir.files.len() - i,
        {
            proof {
                let next = dir@.subrange(0, i + 1);
                assert(next.drop_last() =~= dir@.subrange(0, i as int));
                assert(next.last().data == dir.files@[i as int].data@);
            }
            match RegisterCmd::deserialize(dir.files[i].data.as_slice()) {
                Ok(cmd) => {
                    let ghost before = log_view(op_log@);
                    match &cmd {
                        RegisterCmd::Create(create) => {
                            if state.is_none() {
                                let policy = create.op.policy.duplicate();
                                let owner = *policy.owner();
                                state = Some(
                                    Register::new(owner, create.op.name, create.op.tag, policy),
                                );
                            }
                        },
                        RegisterCmd::Edit(_) => {},
                    }
                    let ghost view = cmd@;
                    op_log.push(cmd);
                    proof {
                        assert(log_view(op_log@) =~= before.push(view));
                        assert(log_view(op_log@).drop_last() =~= before);
                    }
                },
                Err(_) => {},
            }
            i += 1;
        }
        assert(dir@.subrange(0, dir@.len() as int) =~= dir@);
        Ok(StoredRegister { state, op_log, op_log_path: path })
    }
}

/// A checked replay that has failed stays failed, with the same error,
/// however the log goes on.
pub proof fn lemma_checked_replay_stays_failed(
    register: RegisterView,
    log: Seq<CmdView>,
    i: int,
    e: Error,
)
    requires
        0 <= i <= log.len(),
        checked_replay(register, log.subrange(0, i)) == Err::<RegisterView, Error>(e),
    ensures
        checked_replay(register, log) == Err::<RegisterView, Error>(e),
    decreases log.len() - i,
{
    if i < log.len() {
        let next = log.subrange(0, i + 1);
        assert(next.drop_last() =~= log.subrange(0, i));
        lemma_checked_replay_stays_failed(register, log, i + 1, e);
    } else {
        assert(log.subrange(0, i) =~= log);
    }
}

/// A replay that has failed stays failed, with the same error, however the
/// log goes on.
pub proof fn lemma_replay_stays_failed(register: RegisterView, log: Seq<CmdView>, i: int, e: Error)
    requires
        0 <= i <= log.len(),
        replay(register, log.subrange(0, i)) == Err::<RegisterView, Error>(e),
    ensures
        replay(register, log) == Err::<RegisterView, Error>(e),
    decreases log.len() - i,
{
    if i < log.len() {
        let next = log.subrange(0, i + 1);
        assert(next.drop_last() =~= log.subrange(0, i));
        lemma_replay_stays_failed(register, log, i + 1, e);
    } else {
        assert(log.subrange(0, i) =~= log);
    }
}

impl RegisterStorage {
    /// Applies an operation to a register with every check: the operation
    /// must be aimed at this register; an edit must be signed, its signer
    /// must be allowed to write, and it must go by the hash of its content.
    /// A refused operation leaves the register as it was.
    pub fn apply(&self, cmd: &RegisterCmd, register: &mut Register) -> (res: Result<()>)
        requires
            old(register).wf(),
        ensures
            final(register).wf(),
            match checked_apply(old(register)@, cmd@) {
                Ok(after) => res is Ok && final(register)@ == after,
                Err(e) => res == Err::<(), Error>(e) && final(register)@ == old(register)@,
            },
    {
        let addr = cmd.dst();
        if !addr.same_as(register.address()) {
            return Err(
                Error::RegisterAddrMismatch { cmd_dst_addr: addr, reg_addr: *register.address() },
            );
        }
        match cmd {
            RegisterCmd::Create(_) => Ok(()),
            RegisterCmd::Edit(SignedRegisterEdit { op, auth }) => {
                let payload = op.serialize();
                match auth.verify_authority(payload.as_slice()) {
                    Ok(_) => {},
                    Err(e) => { return Err(e); },
                }
                match register.check_permissions(Action::Write, Some(User::Key(auth.public_key))) {
                    Ok(_) => {},
                    Err(e) => { return Err(e); },
                }
                register.apply_op(&op.edit)
            },
        }
    }

    /// Makes the register of a creation and applies to it, with every
    /// check, all that the log holds.
    fn create_and_replay(&self, create: &SignedRegisterCreate, log: &RegisterLog) -> (res: Result<
        Register,
    >)
        ensures
            match checked_replay(
                created(RegisterCmd::Create(*create)@),
                log_view(log@),
            ) {
                Ok(after) => res matches Ok(register) && register.wf() && register@ == after,
                Err(e) => res matches Err(err) && err == e,
            },
    {
        let policy = create.op.policy.duplicate();
        let owner = *policy.owner();
        let mut register = Register::new(owner, create.op.name, create.op.tag, policy);
        let ghost start = register@;
        let mut i: usize = 0;
        assert(log_view(log@).subrange(0, 0) =~= Seq::<CmdView>::empty());
        while i < log.len()
            invariant
                i <= log.len(),
                register.wf(),
                start == created(RegisterCmd::Create(*create)@),
                checked_replay(start, log_view(log@).subrange(0, i as int)) == Ok::<
                    RegisterView,
                    Error,
                >(register@),
            decreases log.len() - i,
        {
            proof {
                let next = log_view(log@).subrange(0, i + 1);
                assert(next.drop_last() =~= log_view(log@).subrange(0, i as int));
                assert(next.last() == log@[i as int]@);
            }
            match self.apply(&log[i], &mut register) {
                Ok(_) => {},
                Err(e) => {
                    proof {
                        lemma_checked_replay_stays_failed(start, log_view(log@), i + 1, e);
                    }
                    return Err(e);
                },
            }
            i += 1;
        }
        assert(log_view(log@).subrange(0, log@.len() as int) =~= log_view(log@));
        Ok(register)
    }

    /// Takes in one operation.
    ///
    /// With the register at hand, a creation changes nothing and an edit is
    /// applied with every check. Without it, a creation must be signed, and
    /// makes the register from itself and from all that the log holds; an
    /// edit cannot be checked yet and is only kept. An operation that is not
    /// refused joins the log, also where it is there already; a refused one
    /// leaves everything as it was.
    pub fn try_to_apply_cmd_against_register_state(
        &self,
        cmd: &RegisterCmd,
        stored_reg: &mut StoredRegister,
    ) -> (res: Result<()>)
        requires
            old(stored_reg).wf(),
        ensures
            final(stored_reg).wf(),
            match try_apply(old(stored_reg)@, cmd@) {
                Ok(after) => res is Ok && final(stored_reg)@ == after,
                Err(e) => res == Err::<(), Error>(e) && final(stored_reg)@ == old(stored_reg)@,
            },
    {
        match cmd {
            RegisterCmd::Create(create) => {
                if stored_reg.state.is_none() {
                    let payload = create.op.serialize();
                    match create.auth.verify_authority(payload.as_slice()) {
                        Ok(_) => {},
                        Err(e) => { return Err(e); },
                    }
                    match self.create_and_replay(create, &stored_reg.op_log) {
                        Ok(register) => {
                            stored_reg.state = Some(register);
                        },
                        Err(e) => { return Err(e); },
                    }
                }
            },
            RegisterCmd::Edit(_) => {
                match &mut stored_reg.state {
                    Some(register) => {
                        match self.apply(cmd, register) {
                            Ok(_) => {},
                            Err(e) => { return Err(e); },
                        }
                    },
                    None => {},
                }
            },
        }
        let ghost before = log_view(stored_reg.op_log@);
        stored_reg.op_log.push(cmd.duplicate());
        assert(log_view(stored_reg.op_log@) =~= before.push(cmd@));
        Ok(())
    }

    /// Loads a register from the files of its directory: reads the log and
    /// replays every edit of it on the register of the first creation. The
    /// edits are not checked again but for their hashes.
    pub fn try_load_stored_register(&self, addr: &RegisterAddress, dir: &OpDir) -> (res: Result<
        StoredRegister,
    >)
        ensures
            match loaded(dir@, self.spec_path(*addr)) {
                Ok(stored) => res matches Ok(got) && got.wf() && got@ == stored,
                Err(e) => res matches Err(err) && err == e,
            },
    {
        let mut stored_reg = match self.open_reg_log_from_disk(addr, dir) {
            Ok(stored) => stored,
            Err(e) => {
                return Err(e);
            },
        };
        let ghost log = log_view(stored_reg.op_log@);
        let StoredRegister { state, op_log, op_log_path } = stored_reg;
        match state {
            Some(mut register) => {
                let ghost start = register@;
                let mut i: usize = 0;
                assert(log.subrange(0, 0) =~= Seq::<CmdView>::empty());
                while i < op_log.len()
                    invariant
                        i <= op_log.len(),
                        register.wf(),
                        log == log_view(op_log@),
                        log == decoded_log(dir@),
                        first_creation(log) matches Some(cmd) && start == created(cmd),
                        replay(start, log.subrange(0, i as int)) == Ok::<RegisterView, Error>(
                            register@,
                        ),
                    decreases op_log.len() - i,
                {
                    proof {
                        let next = log.subrange(0, i + 1);
                        assert(next.drop_last() =~= log.subrange(0, i as int));
                        assert(next.last() == op_log@[i as int]@);
                    }
                    match &op_log[i] {
                        RegisterCmd::Edit(SignedRegisterEdit { op, .. }) => {
                            match register.apply_op(&op.edit) {
                                Ok(_) => {},
                                Err(e) => {
                                    proof {
                                        lemma_replay_stays_failed(start, log, i + 1, e);
                                    }
                                    return Err(e);
                                },
                            }
                        },
                        RegisterCmd::Create(_) => {},
                    }
                    i += 1;
                }
                assert(log.subrange(0, log.len() as int) =~= log);
                Ok(StoredRegister { state: Some(register), op_log, op_log_path })
            },
            None => Ok(StoredRegister { state: None, op_log, op_log_path }),
        }
    }

    /// Writes an operation to a register's log: loads the register, takes
    /// the operation in, and only then persists it. A refused operation
    /// leaves the directory as it was.
    pub fn write(&self, cmd: &RegisterCmd, dir: &mut OpDir) -> (res: Result<()>)
        ensures
            match written(old(dir)@, self.spec_path(cmd@.dst()), cmd@) {
                Ok(files) => res is Ok && final(dir)@ == files,
                Err(e) => res == Err::<(), Error>(e) && final(dir)@ == old(dir)@,
            },
    {
        let addr = cmd.dst();
        let mut stored_reg = match self.try_load_stored_register(&addr, dir) {
            Ok(stored) => stored,
            Err(e) => { return Err(e); },
        };
        match self.try_to_apply_cmd_against_register_state(cmd, &mut stored_reg) {
            Ok(_) => {},
            Err(e) => { return Err(e); },
        }
        self.write_register_cmd(cmd, dir)
    }

    /// Takes in the operations that another store pushes. One that is
    /// refused is dropped and the others go on; those taken in are
    /// persisted together at the end.
    pub fn update(&self, data: &ReplicatedRegisterLog, dir: &mut OpDir) -> (res: Result<()>)
        ensures
            match updated(old(dir)@, self.spec_path(data.address), log_view(data.op_log@)) {
                Ok(files) => res is Ok && final(dir)@ == files,
                Err(e) => res == Err::<(), Error>(e) && final(dir)@ == old(dir)@,
            },
    {
        let mut stored_reg = match self.try_load_stored_register(&data.address, dir) {
            Ok(stored) => stored,
            Err(e) => { return Err(e); },
        };
        let ghost start = stored_reg@;
        let ghost ops = log_view(data.op_log@);
        let mut log_to_write: RegisterLog = Vec::new();
        let mut i: usize = 0;
        assert(ops.subrange(0, 0) =~= Seq::<CmdView>::empty());
        assert(log_view(log_to_write@) =~= Seq::<CmdView>::empty());
        while i < data.op_log.len()
            invariant
                i <= data.op_log.len(),
                stored_reg.wf(),
                ops == log_view(data.op_log@),
                absorbed(start, ops.subrange(0, i as int)) == (
                    stored_reg@,
                    log_view(log_to_write@),
                ),
            decreases data.op_log.len() - i,
        {
            proof {
                let next = ops.subrange(0, i + 1);
                assert(next.drop_last() =~= ops.subrange(0, i as int));
                assert(next.last() == data.op_log@[i as int]@);
            }
            match self.try_to_apply_cmd_against_register_state(&data.op_log[i], &mut stored_reg) {
                Ok(_) => {
                    let ghost before = log_view(log_to_write@);
                    log_to_write.push(data.op_log[i].duplicate());
                    assert(log_view(log_to_write@) =~= before.push(data.op_log@[i as int]@));
                },
                Err(_) => {},
            }
            i += 1;
        }
        assert(ops.subrange(0, ops.len() as int) =~= ops);
        self.write_log_to_disk(&log_to_write, dir)
    }
}

/// The files of a list of directories.
pub open spec fn dirs_view(dirs: Seq<OpDir>) -> Seq<Seq<FileView>> {
    Seq::new(dirs.len(), |i: int| dirs[i]@)
}

impl RegisterStorage {
    /// Whether `response` is the answer to `query` for `requester`, given
    /// the files of the register's directory. Every question needs the
    /// right to read; every error comes wrapped as the store's.
    pub open spec fn answers(
        &self,
        response: QueryResponse,
        query: RegisterQuery,
        requester: User,
        files: Seq<FileView>,
    ) -> bool {
        let address = query.spec_dst();
        let register = found(files, self.spec_path(address), address, Action::Read, requester);
        match query {
            RegisterQuery::Get(_) => response matches QueryResponse::GetRegister(res) && match res {
                Ok(got) => got.wf() && register == Ok::<RegisterView, Error>(got@),
                Err(ProtocolError::Storage(e)) => register == Err::<RegisterView, Error>(e),
            },
            RegisterQuery::Read(_) => response matches QueryResponse::ReadRegister(res)
                && match res {
                Ok(snapshot) => register matches Ok(view) && snapshot.shows(view),
                Err(ProtocolError::Storage(e)) => register == Err::<RegisterView, Error>(e),
            },
            RegisterQuery::GetOwner(_) => response matches QueryResponse::GetRegisterOwner(res)
                && match register {
                Ok(view) => res == Ok::<User, ProtocolError>(view.owner),
                Err(e) => res == Err::<User, ProtocolError>(ProtocolError::Storage(e)),
            },
            RegisterQuery::GetEntry { hash, .. } => response matches QueryResponse::GetRegisterEntry(
                res,
            ) && match register {
                Ok(view) => if view.entries().contains_key(hash) {
                    res matches Ok(entry) && entry@ == view.entries()[hash]
                } else {
                    res matches Err(ProtocolError::Storage(e)) && e == Error::NoSuchEntry(hash)
                },
                Err(e) => res matches Err(ProtocolError::Storage(err)) && err == e,
            },
            RegisterQuery::GetPolicy(_) => response matches QueryResponse::GetRegisterPolicy(res)
                && match register {
                Ok(view) => res matches Ok(policy) && policy@ == view.policy,
                Err(e) => res matches Err(ProtocolError::Storage(err)) && err == e,
            },
            RegisterQuery::GetUserPermissions { user, .. } => response matches QueryResponse::GetRegisterUserPermissions(
            res) && match register {
                Ok(view) => match view.policy.grant(user) {
                    Some(perms) => res == Ok::<Permissions, ProtocolError>(perms),
                    None => res == Err::<Permissions, ProtocolError>(
                        ProtocolError::Storage(Error::NoSuchUser(user)),
                    ),
                },
                Err(e) => res == Err::<Permissions, ProtocolError>(ProtocolError::Storage(e)),
            },
        }
    }

    /// Loads the register at an address for someone who wants to do
    /// `action`: there must be one, and its policy must allow it.
    pub fn get_register(
        &self,
        address: &RegisterAddress,
        action: Action,
        requester: User,
        dir: &OpDir,
    ) -> (res: Result<Register>)
        ensures
            match found(dir@, self.spec_path(*address), *address, action, requester) {
                Ok(view) => res matches Ok(register) && register.wf() && register@ == view,
                Err(e) => res matches Err(err) && err == e,
            },
    {
        let stored_reg = match self.try_load_stored_register(address, dir) {
            Ok(stored) => stored,
            Err(e) => { return Err(e); },
        };
        match stored_reg.state {
            Some(register) => {
                match register.check_permissions(action, Some(requester)) {
                    Ok(_) => Ok(register),
                    Err(e) => Err(e),
                }
            },
            None => Err(Error::RegisterNotFound(*address)),
        }
    }

    /// Answers with the entries and heads of the register.
    pub fn read_register(&self, address: RegisterAddress, requester: User, dir: &OpDir) -> (response:
        QueryResponse)
        ensures
            self.answers(response, RegisterQuery::Read(address), requester, dir@),
    {
        let result = match self.get_register(&address, Action::Read, requester, dir) {
            Ok(register) => Ok(register.read()),
            Err(error) => Err(ProtocolError::Storage(error)),
        };
        QueryResponse::ReadRegister(result)
    }

    /// Answers with the owner of the register.
    pub fn get_owner(&self, address: RegisterAddress, requester: User, dir: &OpDir) -> (response:
        QueryResponse)
        ensures
            self.answers(response, RegisterQuery::GetOwner(address), requester, dir@),
    {
        let result = match self.get_register(&address, Action::Read, requester, dir) {
            Ok(register) => Ok(register.owner()),
            Err(error) => Err(ProtocolError::Storage(error)),
        };
        QueryResponse::GetRegisterOwner(result)
    }

    /// Answers with the entry under a hash.
    pub fn get_entry(
        &self,
        address: RegisterAddress,
        hash: EntryHash,
        requester: User,
        dir: &OpDir,
    ) -> (response: QueryResponse)
        ensures
            self.answers(response, RegisterQuery::GetEntry { address, hash }, requester, dir@),
    {
        let result = match self.get_register(&address, Action::Read, requester, dir) {
            Ok(register) => match register.get(hash) {
                Ok(entry) => Ok(entry.duplicate()),
                Err(error) => Err(ProtocolError::Storage(error)),
            },
            Err(error) => Err(ProtocolError::Storage(error)),
        };
        QueryResponse::GetRegisterEntry(result)
    }

    /// Answers with what the policy grants a user.
    pub fn get_user_permissions(
        &self,
        address: RegisterAddress,
        user: User,
        requester: User,
        dir: &OpDir,
    ) -> (response: QueryResponse)
        ensures
            self.answers(
                response,
                RegisterQuery::GetUserPermissions { address, user },
                requester,
                dir@,
            ),
    {
        let result = match self.get_register(&address, Action::Read, requester, dir) {
            Ok(register) => match register.permissions(user) {
                Ok(perms) => Ok(perms),
                Err(error) => Err(ProtocolError::Storage(error)),
            },
            Err(error) => Err(ProtocolError::Storage(error)),
        };
        QueryResponse::GetRegisterUserPermissions(result)
    }

    /// Answers with the policy of the register.
    pub fn get_policy(&self, address: RegisterAddress, requester_pk: User, dir: &OpDir) -> (response:
        QueryResponse)
        ensures
            self.answers(response, RegisterQuery::GetPolicy(address), requester_pk, dir@),
    {
        let result = match self.get_register(&address, Action::Read, requester_pk, dir) {
            Ok(register) => Ok(register.policy().duplicate()),
            Err(error) => Err(ProtocolError::Storage(error)),
        };
        QueryResponse::GetRegisterPolicy(result)
    }

    /// Answers a question about the register whose directory holds the
    /// given files.
    pub fn read(&self, read: &RegisterQuery, requester: User, dir: &OpDir) -> (response:
        QueryResponse)
        ensures
            self.answers(response, *read, requester, dir@),
    {
        match read {
            RegisterQuery::Get(address) => QueryResponse::GetRegister(
                match self.get_register(address, Action::Read, requester, dir) {
                    Ok(register) => Ok(register),
                    Err(error) => Err(ProtocolError::Storage(error)),
                },
            ),
            RegisterQuery::Read(address) => self.read_register(*address, requester, dir),
            RegisterQuery::GetOwner(address) => self.get_owner(*address, requester, dir),
            RegisterQuery::GetEntry { address, hash } => self.get_entry(
                *address,
                *hash,
                requester,
                dir,
            ),
            RegisterQuery::GetPolicy(address) => self.get_policy(*address, requester, dir),
            RegisterQuery::GetUserPermissions { address, user } => self.get_user_permissions(
                *address,
                *user,
                requester,
                dir,
            ),
        }
    }

    /// Forgets a register: none of its files is to stay.
    pub fn remove(&self, address: &RegisterAddress, dir: &mut OpDir) -> (res: Result<Vec<String>>)
        ensures
            res matches Ok(path) && texts(path@) == self.spec_path(*address),
            final(dir)@ == Seq::<FileView>::empty(),
    {
        let filepath = self.address_to_filepath(address);
        dir.files.clear();
        assert(dir@ =~= Seq::<FileView>::empty());
        filepath
    }

    /// The history of a register, to seed another store with.
    pub fn get_register_replica(&self, address: &RegisterAddress, dir: &OpDir) -> (res: Result<
        ReplicatedRegisterLog,
    >)
        ensures
            match loaded(dir@, self.spec_path(*address)) {
                Ok(stored) => res matches Ok(replica) && replica.address == *address && log_view(
                    replica.op_log@,
                ) == stored.op_log,
                Err(e) => res matches Err(err) && err == e,
            },
    {
        let stored_reg = match self.try_load_stored_register(address, dir) {
            Ok(stored) => stored,
            Err(e) => { return Err(e); },
        };
        Ok(ReplicatedRegisterLog { address: *address, op_log: stored_reg.op_log })
    }

    /// The addresses of the registers held, one per directory: each is
    /// taken from the first of the directory's files that holds an
    /// operation.
    pub fn stored_addrs(&self, dirs: &Vec<OpDir>) -> (addrs: Vec<RegisterAddress>)
        ensures
            addrs@ == addresses(dirs_view(dirs@)),
    {
        let mut addrs: Vec<RegisterAddress> = Vec::new();
        let mut d: usize = 0;
        assert(dirs_view(dirs@).subrange(0, 0) =~= Seq::<Seq<FileView>>::empty());
        while d < dirs.len()
            invariant
                d <= dirs.len(),
                addrs@ == addresses(dirs_view(dirs@).subrange(0, d as int)),
            decreases dirs.len() - d,
        {
            let dir = &dirs[d];
            let mut first: Option<RegisterAddress> = None;
            let mut i: usize = 0;
            assert(dir@.subrange(0, 0) =~= Seq::<FileView>::empty());
            while i < dir.files.len() && first.is_none()
                invariant
                    i <= dir.files.len(),
                    first is None ==> decoded_log(dir@.subrange(0, i as int)).len() == 0,
                    first matches Some(address) ==> decoded_log(dir@.subrange(0, i as int)).len()
                        == 1 && decoded_log(dir@.subrange(0, i as int))[0].dst() == address,
                decreases dir.files.len() - i,
            {
                proof {
                    let next = dir@.subrange(0, i + 1);
                    assert(next.drop_last() =~= dir@.subrange(0, i as int));
                    assert(next.last().data == dir.files@[i as int].data@);
                }
                match RegisterCmd::deserialize(dir.files[i].data.as_slice()) {
                    Ok(cmd) => {
                        first = Some(cmd.dst());
                    },
                    Err(_) => {},
                }
                i += 1;
            }
            proof {
                lemma_decoded_log_grows(dir@, i as int);
                if first is None {
                    assert(dir@.subrange(0, i as int) =~= dir@);
                }
                assert(first == first_address(dir@));
                let next = dirs_view(dirs@).subrange(0, d + 1);
                assert(next.drop_last() =~= dirs_view(dirs@).subrange(0, d as int));
                assert(next.last() == dir@);
            }
            match first {
                Some(address) => {
                    addrs.push(address);
                },
                None => {},
            }
            d += 1;
        }
        assert(dirs_view(dirs@).subrange(0, dirs@.len() as int) =~= dirs_view(dirs@));
        addrs
    }
}

/// The outcome of persisting a log file by file, where every file is tried
/// whatever became of the others: the last error met, if any.
pub fn persist_outcome(attempts: Vec<Result<()>>) -> (res: Result<()>)
    ensures
        res == last_failure(attempts@),
{
    let mut rest = attempts;
    loop
        invariant
            last_failure(attempts@) == last_failure(rest@),
        decreases rest.len(),
    {
        let ghost before = rest@;
        match rest.pop() {
            Some(Err(e)) => {
                assert(before.last() == Err::<(), Error>(e));
                return Err(e);
            },
            Some(Ok(_)) => {
                assert(before.drop_last() =~= rest@);
            },
            None => {
                return Ok(());
            },
        }
    }
}

} // verus!

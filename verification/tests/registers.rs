use blsttc::SecretKey;
use safenode::address::{RegisterAddress, XorName};
use safenode::entry::EntryHash;
use safenode::error::{Error, ProtocolError};
use safenode::messages::{
    CreateRegister, DataAuthority, EditRegister, RegisterCmd, RegisterQuery,
    Signature, SignedRegisterCreate, SignedRegisterEdit,
};
use safenode::policy::{Policy, PublicKey, User};
use safenode::register::Register;
use safenode::storage::{
    register_op_id, OpDir, QueryResponse, RegisterStorage,
};

fn random_user() -> (User, SecretKey) {
    let sk = SecretKey::random();
    let authority = User::Key(PublicKey(sk.public_key().to_bytes()));
    (authority, sk)
}

fn random_name() -> XorName {
    let bytes = SecretKey::random().public_key().to_bytes();
    let mut name = [0u8; 32];
    name.copy_from_slice(&bytes[..32]);
    XorName(name)
}

fn authority_of(sk: &SecretKey, payload: &[u8]) -> DataAuthority {
    DataAuthority {
        public_key: PublicKey(sk.public_key().to_bytes()),
        signature: Signature(sk.sign(payload).to_bytes()),
    }
}

fn create_reg_w_policy(name: XorName, tag: u64, policy: Policy, sk: &SecretKey) -> RegisterCmd {
    let op = CreateRegister { name, tag, policy };
    let auth = authority_of(sk, &op.serialize());
    RegisterCmd::Create(SignedRegisterCreate { op, auth })
}

fn create_register() -> (RegisterCmd, User, SecretKey, XorName, Policy) {
    let (authority, sk) = random_user();
    let policy = Policy { owner: authority, permissions: Vec::new() };
    let xorname = random_name();
    let cmd = create_reg_w_policy(xorname, 0, policy.clone(), &sk);
    (cmd, authority, sk, xorname, policy)
}

fn edit_with(register: &mut Register, sk: &SecretKey, data: &[u8]) -> RegisterCmd {
    let (_, edit) = register.write(data.to_vec(), Vec::new());
    let op = EditRegister { address: *register.address(), edit };
    let auth = authority_of(sk, &op.serialize());
    RegisterCmd::Edit(SignedRegisterEdit { op, auth })
}

fn edit_register(register: &mut Register, sk: &SecretKey) -> RegisterCmd {
    let data = SecretKey::random().public_key().to_bytes();
    edit_with(register, sk, &data[..15])
}

fn new_store() -> (RegisterStorage, OpDir) {
    (RegisterStorage::new("/tmp/store"), OpDir::new())
}

#[test]
fn test_register_try_load_stored() {
    let (store, mut dir) = new_store();

    let (cmd_create, _, sk, name, policy) = create_register();
    let addr = cmd_create.dst();
    let log_path = store.address_to_filepath(&addr).unwrap();
    let mut register = Register::new(*policy.owner(), name, 0, policy);

    let stored_reg = store.try_load_stored_register(&addr, &dir).unwrap();
    // It should *not* contain the create cmd.
    assert!(stored_reg.state.is_none());
    assert!(stored_reg.op_log.is_empty());
    assert_eq!(stored_reg.op_log_path, log_path);

    store.write(&cmd_create, &mut dir).unwrap();
    let stored_reg = store.try_load_stored_register(&addr, &dir).unwrap();
    // It should contain the create cmd.
    assert_eq!(stored_reg.state.as_ref(), Some(&register));
    assert_eq!(stored_reg.op_log, vec![cmd_create.clone()]);
    assert_eq!(stored_reg.op_log_path, log_path);
    assert_eq!(stored_reg.state.map(|reg| reg.size()), Some(0));

    // Edit the register.
    let cmd_edit = edit_register(&mut register, &sk);
    store.write(&cmd_edit, &mut dir).unwrap();

    let stored_reg = store.try_load_stored_register(&addr, &dir).unwrap();
    // It should contain the create and edit cmds.
    assert_eq!(stored_reg.state.as_ref(), Some(&register));
    assert_eq!(stored_reg.op_log.len(), 2);
    assert!(
        stored_reg.op_log.iter().all(|op| [&cmd_create, &cmd_edit].contains(&op)),
        "Op log doesn't match"
    );
    assert_eq!(stored_reg.op_log_path, log_path);
    assert_eq!(stored_reg.state.map(|reg| reg.size()), Some(1));
}

#[test]
fn test_register_try_load_stored_inverted_cmds_order() {
    let (store, mut dir) = new_store();

    let (cmd_create, _, sk, name, policy) = create_register();
    let addr = cmd_create.dst();
    let log_path = store.address_to_filepath(&addr).unwrap();
    let mut register = Register::new(*policy.owner(), name, 0, policy);

    // Store an edit cmd for the register.
    let cmd_edit = edit_register(&mut register, &sk);
    store.write(&cmd_edit, &mut dir).unwrap();

    let stored_reg = store.try_load_stored_register(&addr, &dir).unwrap();
    // It should contain only the edit cmd.
    assert_eq!(stored_reg.state, None);
    assert_eq!(stored_reg.op_log, vec![cmd_edit.clone()]);
    assert_eq!(stored_reg.op_log_path, log_path);

    // Store the create cmd for the register.
    store.write(&cmd_create, &mut dir).unwrap();

    let stored_reg = store.try_load_stored_register(&addr, &dir).unwrap();
    // It should contain the create and edit cmds.
    assert_eq!(stored_reg.state.as_ref(), Some(&register));
    assert_eq!(stored_reg.op_log.len(), 2);
    assert!(
        stored_reg.op_log.iter().all(|op| [&cmd_create, &cmd_edit].contains(&op)),
        "Op log doesn't match"
    );
    assert_eq!(stored_reg.op_log_path, log_path);
    assert_eq!(stored_reg.state.map(|reg| reg.size()), Some(1));
}

#[test]
fn test_register_write() {
    let (store, mut dir) = new_store();

    let (cmd, authority, _, _, _) = create_register();
    store.write(&cmd, &mut dir).unwrap();

    let addr = cmd.dst();
    match store.read(&RegisterQuery::Get(addr), authority, &dir) {
        QueryResponse::GetRegister(Ok(reg)) => {
            assert_eq!(reg.address(), &addr, "Should have same address!");
            assert_eq!(reg.owner(), authority, "Should have same owner!");
        }
        e => panic!("Could not read register! {:?}", e),
    }

    // Apply the create cmd again should change nothing.
    match store.write(&cmd, &mut dir) {
        Ok(()) => (),
        Err(err) => panic!("An error should not occur when applying create cmd again: {:?}", err),
    }
}

#[test]
fn test_register_non_existing_entry() {
    let (store, mut dir) = new_store();

    let (cmd_create, authority, _, _, _) = create_register();
    store.write(&cmd_create, &mut dir).unwrap();

    let hash = EntryHash(random_name().0);

    // Try get the entry under a random hash.
    let address = cmd_create.dst();
    let res = store.read(&RegisterQuery::GetEntry { address, hash }, authority, &dir);
    match res {
        QueryResponse::GetRegisterEntry(Err(e)) => {
            assert_eq!(e, ProtocolError::Storage(Error::NoSuchEntry(hash)))
        }
        QueryResponse::GetRegisterEntry(Ok(entry)) => {
            panic!("Should not exist any entry for random hash! {entry:?}")
        }
        e => panic!("Could not read! {e:?}"),
    }
}

#[test]
fn test_register_non_existing_permissions() {
    let (store, mut dir) = new_store();

    let (cmd_create, authority, _, _, _) = create_register();
    store.write(&cmd_create, &mut dir).unwrap();

    let (user, _) = random_user();

    // Try get permissions of random user.
    let address = cmd_create.dst();
    let res = store.read(&RegisterQuery::GetUserPermissions { address, user }, authority, &dir);
    match res {
        QueryResponse::GetRegisterUserPermissions(Err(e)) => {
            assert_eq!(e, ProtocolError::Storage(Error::NoSuchUser(user)))
        }
        QueryResponse::GetRegisterUserPermissions(Ok(perms)) => {
            panic!("Should not exist any permissions for random user! {perms:?}",)
        }
        e => panic!("Could not read! {e:?}"),
    }
}

#[test]
fn test_register_apply_cmd_against_state() {
    let (store, dir) = new_store();

    let (cmd_create, _, sk, name, policy) = create_register();
    let addr = cmd_create.dst();
    let log_path = store.address_to_filepath(&addr).unwrap();
    let mut register = Register::new(*policy.owner(), name, 0, policy);
    let mut stored_reg = store.try_load_stored_register(&addr, &dir).unwrap();

    store.try_to_apply_cmd_against_register_state(&cmd_create, &mut stored_reg).unwrap();

    // It should contain the create cmd.
    assert_eq!(stored_reg.state.as_ref(), Some(&register));
    assert_eq!(stored_reg.op_log, vec![cmd_create.clone()]);
    assert_eq!(stored_reg.op_log_path, log_path);
    assert_eq!(stored_reg.state.as_ref().map(|reg| reg.size()), Some(0));

    // Apply the create cmd again should change nothing in the register.
    match store.try_to_apply_cmd_against_register_state(&cmd_create, &mut stored_reg) {
        Ok(()) => (),
        Err(err) => panic!("An error should not occur when applying create cmd again: {:?}", err),
    }

    // Apply an edit cmd.
    let cmd_edit = edit_register(&mut register, &sk);
    store.try_to_apply_cmd_against_register_state(&cmd_edit, &mut stored_reg).unwrap();
    // It should contain the create cmd, once for each time it was taken in, and the edit cmd.
    assert_eq!(stored_reg.state.as_ref(), Some(&register));
    assert_eq!(stored_reg.op_log.len(), 3);
    assert!(
        stored_reg.op_log.iter().all(|op| [&cmd_create, &cmd_edit].contains(&op)),
        "Op log doesn't match"
    );
    assert_eq!(stored_reg.op_log_path, log_path);
    assert_eq!(stored_reg.state.as_ref().map(|reg| reg.size()), Some(1));

    // Applying the edit cmd again shouldn't fail or alter the register content,
    // although the log will contain the edit cmd duplicated.
    store.try_to_apply_cmd_against_register_state(&cmd_edit, &mut stored_reg).unwrap();
    assert_eq!(stored_reg.state.as_ref(), Some(&register));
    assert_eq!(stored_reg.op_log.len(), 4);
    assert!(
        stored_reg.op_log.iter().all(|op| [&cmd_create, &cmd_edit].contains(&op)),
        "Op log doesn't match"
    );
    assert_eq!(stored_reg.op_log_path, log_path);
    assert_eq!(stored_reg.state.map(|reg| reg.size()), Some(1));
}

#[test]
fn test_register_apply_cmd_against_state_inverted_cmds_order() {
    let (store, dir) = new_store();

    let (cmd_create, _, sk, name, policy) = create_register();
    let addr = cmd_create.dst();
    let log_path = store.address_to_filepath(&addr).unwrap();
    let mut register = Register::new(*policy.owner(), name, 0, policy);
    let mut stored_reg = store.try_load_stored_register(&addr, &dir).unwrap();

    // Apply an edit cmd first.
    let cmd_edit = edit_register(&mut register, &sk);
    store.try_to_apply_cmd_against_register_state(&cmd_edit, &mut stored_reg).unwrap();
    // It should contain the edit cmd.
    assert_eq!(stored_reg.state, None);
    assert_eq!(stored_reg.op_log, vec![cmd_edit.clone()]);
    assert_eq!(stored_reg.op_log_path, log_path);

    // Applying the edit cmd again shouldn't fail,
    // although the log will contain the edit cmd duplicated.
    store.try_to_apply_cmd_against_register_state(&cmd_edit, &mut stored_reg).unwrap();
    assert_eq!(stored_reg.state, None);
    assert_eq!(stored_reg.op_log.len(), 2);
    assert!(stored_reg.op_log.iter().all(|op| op == &cmd_edit), "Op log doesn't match");
    assert_eq!(stored_reg.op_log_path, log_path);
    assert_eq!(stored_reg.state.as_ref().map(|reg| reg.size()), None);

    // Apply the create cmd now.
    store.try_to_apply_cmd_against_register_state(&cmd_create, &mut stored_reg).unwrap();
    // It should contain the create and edit cmds.
    assert_eq!(stored_reg.state.as_ref(), Some(&register));
    assert_eq!(stored_reg.op_log.len(), 3);
    assert!(
        stored_reg.op_log.iter().all(|op| [&cmd_create, &cmd_edit].contains(&op)),
        "Op log doesn't match"
    );
    assert_eq!(stored_reg.op_log_path, log_path);
    assert_eq!(stored_reg.state.as_ref().map(|reg| reg.size()), Some(1));

    // Apply the create cmd again should change nothing.
    match store.try_to_apply_cmd_against_register_state(&cmd_create, &mut stored_reg) {
        Ok(()) => (),
        Err(err) => panic!("An error should not occur when applying create cmd again: {:?}", err),
    }
}

#[test]
fn test_register_export() {
    let (store, mut dir) = new_store();

    let (cmd_create, authority, sk, name, policy) = create_register();
    let addr = cmd_create.dst();
    let mut register = Register::new(*policy.owner(), name, 0, policy);

    // Store the register and a few edit ops.
    store.write(&cmd_create, &mut dir).unwrap();
    for _ in 0..10 {
        let cmd_edit = edit_register(&mut register, &sk);
        store.write(&cmd_edit, &mut dir).unwrap();
    }

    // Create cmd should be idempotent.
    match store.write(&cmd_create, &mut dir) {
        Ok(()) => (),
        Err(err) => panic!("An error should not occur when applying create cmd again: {:?}", err),
    }

    // Export Registers, get all data we held in storage.
    let dirs = vec![dir];
    let stored_addrs = store.stored_addrs(&dirs);
    assert_eq!(stored_addrs, vec![addr]);

    // Create new store and update it with the data from first store
    let (new_store, mut new_dir) = new_store();
    for addr in stored_addrs {
        let replica = store.get_register_replica(&addr, &dirs[0]).unwrap();
        new_store.update(&replica, &mut new_dir).unwrap();
    }

    // Assert the same tests hold as for the first store
    // create cmd should be idempotent, also on this new store.
    match new_store.write(&cmd_create, &mut new_dir) {
        Ok(()) => (),
        Err(err) => panic!("An error should not occur when applying create cmd again: {:?}", err),
    }

    // Should be able to read the same value from this new store as well.
    let res = new_store.read(&RegisterQuery::Get(addr), authority, &new_dir);

    match res {
        QueryResponse::GetRegister(Ok(reg)) => {
            assert_eq!(reg.address(), &addr, "Should have same address!");
            assert_eq!(reg.owner(), authority, "Should have same owner!");
            assert_eq!(reg, register);
            assert_eq!(reg.size(), 10);
        }
        e => panic!("Could not read! {e:?}"),
    }
}

#[test]
fn create_then_read_gives_an_empty_register() {
    let (store, mut dir) = new_store();
    let (owner, sk) = random_user();
    let policy = Policy { owner, permissions: Vec::new() };
    let cmd = create_reg_w_policy(XorName([0x11; 32]), 7, policy, &sk);
    let addr = RegisterAddress { name: XorName([0x11; 32]), tag: 7 };
    assert_eq!(cmd.dst(), addr);
    store.write(&cmd, &mut dir).unwrap();
    match store.read(&RegisterQuery::Get(addr), owner, &dir) {
        QueryResponse::GetRegister(Ok(reg)) => {
            assert_eq!(reg.size(), 0);
            assert_eq!(reg.owner(), owner);
            assert_eq!(reg.address(), &addr);
        }
        other => panic!("no register: {other:?}"),
    }
}

#[test]
fn writing_a_creation_twice_leaves_one_file() {
    let (store, mut dir) = new_store();
    let (cmd, _, _, _, _) = create_register();
    assert_eq!(store.write(&cmd, &mut dir), Ok(()));
    let once = dir.clone();
    assert_eq!(store.write(&cmd, &mut dir), Ok(()));
    assert_eq!(dir.files.len(), 1);
    assert_eq!(dir, once);
    assert_eq!(dir.files[0].name, register_op_id(&cmd).unwrap());
    assert_eq!(dir.files[0].data, cmd.serialize());
}

#[test]
fn an_edit_before_the_creation_shows_once_the_creation_is_there() {
    let (store, mut dir) = new_store();
    let (cmd_create, owner, sk, name, policy) = create_register();
    let addr = cmd_create.dst();
    let mut register = Register::new(owner, name, 0, policy);
    let e1 = edit_with(&mut register, &sk, b"first value");
    store.write(&e1, &mut dir).unwrap();
    match store.read(&RegisterQuery::Read(addr), owner, &dir) {
        QueryResponse::ReadRegister(Err(e)) => {
            assert_eq!(e, ProtocolError::Storage(Error::RegisterNotFound(addr)))
        }
        other => panic!("there should be no register yet: {other:?}"),
    }
    store.write(&cmd_create, &mut dir).unwrap();
    match store.read(&RegisterQuery::Read(addr), owner, &dir) {
        QueryResponse::ReadRegister(Ok(snapshot)) => {
            assert_eq!(snapshot.entries.len(), 1);
            assert_eq!(snapshot.entries[0].value, b"first value".to_vec());
            assert_eq!(snapshot.heads, vec![snapshot.entries[0].hash]);
        }
        other => panic!("could not read: {other:?}"),
    }
}

#[test]
fn a_corrupted_file_is_passed_over() {
    let (store, mut dir) = new_store();
    let (cmd_create, owner, sk, name, policy) = create_register();
    let addr = cmd_create.dst();
    let mut register = Register::new(owner, name, 0, policy);
    store.write(&cmd_create, &mut dir).unwrap();
    let e1 = edit_with(&mut register, &sk, b"one");
    let e2 = edit_with(&mut register, &sk, b"two");
    store.write(&e1, &mut dir).unwrap();
    store.write(&e2, &mut dir).unwrap();
    assert_eq!(dir.files.len(), 3);
    // Overwrite the file of the second edit.
    dir.files[2].data = vec![0xde, 0xad, 0xbe, 0xef, 0x01, 0x02];
    match store.read(&RegisterQuery::Get(addr), owner, &dir) {
        QueryResponse::GetRegister(Ok(reg)) => {
            assert_eq!(reg.size(), 1);
            assert_eq!(reg.get(match &e1 {
                RegisterCmd::Edit(edit) => edit.op.edit.crdt_op.hash,
                RegisterCmd::Create(_) => unreachable!(),
            }).map(|entry| entry.value.clone()), Ok(b"one".to_vec()));
        }
        other => panic!("could not read: {other:?}"),
    }
    let stored = store.try_load_stored_register(&addr, &dir).unwrap();
    assert_eq!(stored.op_log, vec![cmd_create, e1]);
}

#[test]
fn a_replica_seeds_a_fresh_store() {
    let (store_a, mut dir_a) = new_store();
    let (cmd_create, owner, sk, name, policy) = create_register();
    let addr = cmd_create.dst();
    let mut register = Register::new(owner, name, 0, policy);
    store_a.write(&cmd_create, &mut dir_a).unwrap();
    for i in 0..10u8 {
        let edit = edit_with(&mut register, &sk, &[i, i, i]);
        store_a.write(&edit, &mut dir_a).unwrap();
    }
    let replica = store_a.get_register_replica(&addr, &dir_a).unwrap();
    assert_eq!(replica.address, addr);
    assert_eq!(replica.op_log.len(), 11);

    let store_b = RegisterStorage::new("/tmp/other");
    let mut dir_b = OpDir::new();
    store_b.update(&replica, &mut dir_b).unwrap();

    let in_a = store_a.read(&RegisterQuery::Get(addr), owner, &dir_a);
    let in_b = store_b.read(&RegisterQuery::Get(addr), owner, &dir_b);
    assert_eq!(in_a, in_b);
    match in_b {
        QueryResponse::GetRegister(Ok(reg)) => assert_eq!(reg.size(), 10),
        other => panic!("could not read: {other:?}"),
    }
    assert_eq!(dir_a, dir_b);
}

#[test]
fn a_user_outside_the_policy_has_no_permissions() {
    let (store, mut dir) = new_store();
    let (cmd_create, owner, _, _, _) = create_register();
    store.write(&cmd_create, &mut dir).unwrap();
    let (stranger, _) = random_user();
    let address = cmd_create.dst();
    assert_eq!(
        store.get_user_permissions(address, stranger, owner, &dir),
        QueryResponse::GetRegisterUserPermissions(Err(ProtocolError::Storage(
            Error::NoSuchUser(stranger)
        )))
    );
    // A stranger may not even ask.
    assert_eq!(
        store.get_user_permissions(address, owner, stranger, &dir),
        QueryResponse::GetRegisterUserPermissions(Err(ProtocolError::Storage(
            Error::NoSuchUser(stranger)
        )))
    );
}

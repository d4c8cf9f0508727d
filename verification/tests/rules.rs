use blsttc::SecretKey;
use safenode::address::{prefix_tree_path, RegisterAddress, XorName};
use safenode::entry::{entry_hash, Entry, EntryHash};
use safenode::error::{Error, ProtocolError};
use safenode::messages::{
    CreateRegister, DataAuthority, EditRegister, RegisterCmd, RegisterOp, RegisterQuery,
    ReplicatedRegisterLog, Signature, SignedRegisterCreate, SignedRegisterEdit,
};
use safenode::policy::{Action, Permissions, Policy, PublicKey, User};
use safenode::register::Register;
use safenode::storage::{persist_outcome, register_op_id, OpDir, OpFile, QueryResponse, RegisterStorage};
use safenode::wallet::{sent, WalletClient, WalletError};
use tiny_keccak::{Hasher, Sha3};

fn key_of(sk: &SecretKey) -> PublicKey {
    PublicKey(sk.public_key().to_bytes())
}

fn authority_of(sk: &SecretKey, payload: &[u8]) -> DataAuthority {
    DataAuthority { public_key: key_of(sk), signature: Signature(sk.sign(payload).to_bytes()) }
}

fn creation(name: XorName, tag: u64, policy: Policy, sk: &SecretKey) -> RegisterCmd {
    let op = CreateRegister { name, tag, policy };
    let auth = authority_of(sk, &op.serialize());
    RegisterCmd::Create(SignedRegisterCreate { op, auth })
}

fn edit_of(address: RegisterAddress, entry: Entry, sk: &SecretKey) -> RegisterCmd {
    let op = EditRegister { address, edit: RegisterOp { crdt_op: entry } };
    let auth = authority_of(sk, &op.serialize());
    RegisterCmd::Edit(SignedRegisterEdit { op, auth })
}

fn hash_of(cmd: &RegisterCmd) -> EntryHash {
    match cmd {
        RegisterCmd::Edit(edit) => edit.op.edit.crdt_op.hash,
        RegisterCmd::Create(_) => panic!("a creation has no entry"),
    }
}

fn name(byte: u8) -> XorName {
    XorName([byte; 32])
}

fn owned_by(sk: &SecretKey) -> Policy {
    Policy { owner: User::Key(key_of(sk)), permissions: Vec::new() }
}

fn store() -> RegisterStorage {
    RegisterStorage::new("root")
}

fn sha3_256(data: &[u8]) -> [u8; 32] {
    let mut hasher = Sha3::v256();
    let mut out = [0u8; 32];
    hasher.update(data);
    hasher.finalize(&mut out);
    out
}

fn sha3_512(data: &[u8]) -> [u8; 64] {
    let mut hasher = Sha3::v512();
    let mut out = [0u8; 64];
    hasher.update(data);
    hasher.finalize(&mut out);
    out
}

fn state_of(store: &RegisterStorage, addr: &RegisterAddress, dir: &OpDir) -> Option<Register> {
    store.try_load_stored_register(addr, dir).unwrap().state
}

#[test]
fn the_owner_may_do_anything() {
    let sk = SecretKey::random();
    let policy = owned_by(&sk);
    let owner = User::Key(key_of(&sk));
    assert_eq!(policy.is_action_allowed(owner, Action::Read), Ok(()));
    assert_eq!(policy.is_action_allowed(owner, Action::Write), Ok(()));
    assert_eq!(policy.owner(), &owner);
}

#[test]
fn a_grant_decides_for_its_user() {
    let owner = SecretKey::random();
    let writer = User::Key(key_of(&SecretKey::random()));
    let reader = User::Key(key_of(&SecretKey::random()));
    let policy = Policy {
        owner: User::Key(key_of(&owner)),
        permissions: vec![
            (writer, Permissions::new(true, true)),
            (reader, Permissions::new(true, false)),
        ],
    };
    assert_eq!(policy.is_action_allowed(writer, Action::Write), Ok(()));
    assert_eq!(policy.is_action_allowed(reader, Action::Read), Ok(()));
    assert_eq!(policy.is_action_allowed(reader, Action::Write), Err(Error::AccessDenied(reader)));
    assert_eq!(policy.permissions(reader), Some(Permissions { read: true, write: false }));
    assert_eq!(policy.permissions(User::Anyone), None);
}

#[test]
fn a_user_without_a_grant_is_unknown_to_read_and_denied_to_write() {
    let owner = SecretKey::random();
    let stranger = User::Key(key_of(&SecretKey::random()));
    let policy = owned_by(&owner);
    assert_eq!(policy.is_action_allowed(stranger, Action::Read), Err(Error::NoSuchUser(stranger)));
    assert_eq!(
        policy.is_action_allowed(stranger, Action::Write),
        Err(Error::AccessDenied(stranger))
    );
    assert_eq!(
        policy.is_action_allowed(User::Anyone, Action::Read),
        Err(Error::NoSuchUser(User::Anyone))
    );
}

#[test]
fn the_grant_for_anyone_stands_in_where_a_user_has_none() {
    let owner = SecretKey::random();
    let stranger = User::Key(key_of(&SecretKey::random()));
    let barred = User::Key(key_of(&SecretKey::random()));
    let policy = Policy {
        owner: User::Key(key_of(&owner)),
        permissions: vec![
            (User::Anyone, Permissions::new(true, true)),
            (barred, Permissions::new(true, false)),
        ],
    };
    assert_eq!(policy.is_action_allowed(stranger, Action::Write), Ok(()));
    assert_eq!(policy.is_action_allowed(User::Anyone, Action::Read), Ok(()));
    assert_eq!(policy.is_action_allowed(barred, Action::Write), Err(Error::AccessDenied(barred)));
    // The listing itself is exact.
    assert_eq!(policy.permissions(stranger), None);
}

#[test]
fn the_first_listing_of_a_user_counts() {
    let owner = SecretKey::random();
    let user = User::Key(key_of(&SecretKey::random()));
    let policy = Policy {
        owner: User::Key(key_of(&owner)),
        permissions: vec![
            (user, Permissions::new(true, false)),
            (user, Permissions::new(true, true)),
        ],
    };
    assert_eq!(policy.permissions(user), Some(Permissions::new(true, false)));
    assert_eq!(policy.is_action_allowed(user, Action::Write), Err(Error::AccessDenied(user)));
}

#[test]
fn a_register_with_no_requester_named_asks_as_its_owner() {
    let sk = SecretKey::random();
    let register = Register::new(User::Key(key_of(&sk)), name(1), 3, owned_by(&sk));
    assert_eq!(register.check_permissions(Action::Write, None), Ok(()));
    assert_eq!(register.address(), &RegisterAddress::new(name(1), 3));
    assert_eq!(register.address().name(), &name(1));
    assert_eq!(register.address().tag(), 3);
    assert_eq!(register.policy(), &owned_by(&sk));
    assert_eq!(register.permissions(User::Anyone), Err(Error::NoSuchUser(User::Anyone)));
}

#[test]
fn the_identifier_of_an_address_is_the_digest_of_name_and_tag() {
    let addr = RegisterAddress::new(name(0x11), 7);
    let mut preimage = vec![0x11u8; 32];
    preimage.extend_from_slice(&[7, 0, 0, 0, 0, 0, 0, 0]);
    assert_eq!(addr.id(), XorName(sha3_256(&preimage)));
    assert_ne!(addr.id(), RegisterAddress::new(name(0x11), 8).id());
    assert_ne!(addr.id(), RegisterAddress::new(name(0x12), 7).id());
    assert_eq!(addr.id(), RegisterAddress::new(name(0x11), 7).id());
}

#[test]
fn the_directory_of_a_register_starts_with_the_first_hex_digits() {
    let path = prefix_tree_path(&XorName([0xab; 32]));
    assert_eq!(
        path,
        vec![
            "a".to_string(),
            "b".to_string(),
            "a".to_string(),
            "b".to_string(),
            "ab".repeat(32),
        ]
    );
    let mut id = [0u8; 32];
    id[0] = 0x01;
    id[1] = 0xf9;
    id[31] = 0x0c;
    let path = prefix_tree_path(&XorName(id));
    assert_eq!(path[..4], ["0", "1", "f", "9"].map(String::from));
    assert_eq!(path[4], format!("01f9{}0c", "00".repeat(29)));
}

#[test]
fn the_path_of_a_register_lies_below_the_store() {
    let addr = RegisterAddress::new(name(5), 9);
    let path = RegisterStorage::new("/var/node").address_to_filepath(&addr).unwrap();
    let id = hex::encode(addr.id().0);
    assert_eq!(path.len(), 7);
    assert_eq!(path[0], "/var/node");
    assert_eq!(path[1], "registers");
    for i in 0..4 {
        assert_eq!(path[2 + i], id[i..i + 1]);
    }
    assert_eq!(path[6], id);
    // The same address gives the same path, in any store object.
    assert_eq!(RegisterStorage::new("/var/node").address_to_filepath(&addr).unwrap(), path);
}

#[test]
fn the_hash_of_an_entry_covers_its_parents_and_its_value() {
    let parents = vec![EntryHash([1; 32]), EntryHash([2; 32])];
    let value = vec![9u8, 8, 7];
    let mut preimage = vec![2u8, 0, 0, 0, 0, 0, 0, 0];
    preimage.extend_from_slice(&[1; 32]);
    preimage.extend_from_slice(&[2; 32]);
    preimage.extend_from_slice(&value);
    assert_eq!(entry_hash(&value, &parents), EntryHash(sha3_256(&preimage)));
    let entry = Entry::new(value.clone(), parents.clone());
    assert_eq!(entry.hash, EntryHash(sha3_256(&preimage)));
    assert!(entry.hash_matches());
    let forged = Entry { hash: EntryHash([0; 32]), value, parents };
    assert!(!forged.hash_matches());
    assert!(!forged.same_as(&entry));
    assert!(entry.same_as(&entry.duplicate()));
}

#[test]
fn the_identifier_of_an_operation_is_the_hex_digest_of_its_encoding() {
    let sk = SecretKey::random();
    let cmd = creation(name(4), 1, owned_by(&sk), &sk);
    let id = register_op_id(&cmd).unwrap();
    assert_eq!(id.len(), 128);
    assert_eq!(id, hex::encode(sha3_512(&cmd.serialize())));
    assert!(id.chars().all(|c| c.is_ascii_hexdigit() && !c.is_ascii_uppercase()));
    // Signing anew gives another identifier only if the signature differs.
    let again = creation(name(4), 1, owned_by(&sk), &sk);
    assert_eq!(cmd.serialize() == again.serialize(), id == register_op_id(&again).unwrap());
    let other = creation(name(4), 2, owned_by(&sk), &sk);
    assert_ne!(id, register_op_id(&other).unwrap());
}

#[test]
fn the_encoding_of_a_creation_is_laid_out_field_by_field() {
    let key = PublicKey([7; 48]);
    let other = PublicKey([8; 48]);
    let policy = Policy {
        owner: User::Key(key),
        permissions: vec![
            (User::Anyone, Permissions::new(true, false)),
            (User::Key(other), Permissions::new(false, true)),
        ],
    };
    let op = CreateRegister { name: name(3), tag: 0x0102, policy };
    let auth = DataAuthority { public_key: key, signature: Signature([9; 96]) };
    let mut payload = vec![3u8; 32];
    payload.extend_from_slice(&[0x02, 0x01, 0, 0, 0, 0, 0, 0]);
    payload.push(1);
    payload.extend_from_slice(&[7; 48]);
    payload.extend_from_slice(&[2, 0, 0, 0, 0, 0, 0, 0]);
    payload.extend_from_slice(&[0, 1, 0]);
    payload.push(1);
    payload.extend_from_slice(&[8; 48]);
    payload.extend_from_slice(&[0, 1]);
    assert_eq!(op.serialize(), payload);
    let cmd = RegisterCmd::Create(SignedRegisterCreate { op, auth });
    assert_eq!(cmd.payload(), payload);
    let mut bytes = vec![0u8];
    bytes.extend_from_slice(&payload);
    bytes.extend_from_slice(&[7; 48]);
    bytes.extend_from_slice(&[9; 96]);
    assert_eq!(cmd.serialize(), bytes);
    assert_eq!(RegisterCmd::deserialize(&bytes), Ok(cmd));
}

#[test]
fn the_encoding_of_an_edit_is_laid_out_field_by_field() {
    let entry = Entry {
        hash: EntryHash([5; 32]),
        value: vec![0xaa, 0xbb],
        parents: vec![EntryHash([6; 32])],
    };
    let op = EditRegister {
        address: RegisterAddress::new(name(3), 1),
        edit: RegisterOp { crdt_op: entry },
    };
    let auth = DataAuthority { public_key: PublicKey([7; 48]), signature: Signature([9; 96]) };
    let mut payload = vec![3u8; 32];
    payload.extend_from_slice(&[1, 0, 0, 0, 0, 0, 0, 0]);
    payload.extend_from_slice(&[5; 32]);
    payload.extend_from_slice(&[2, 0, 0, 0, 0, 0, 0, 0]);
    payload.extend_from_slice(&[0xaa, 0xbb]);
    payload.extend_from_slice(&[1, 0, 0, 0, 0, 0, 0, 0]);
    payload.extend_from_slice(&[6; 32]);
    assert_eq!(op.serialize(), payload);
    let cmd = RegisterCmd::Edit(SignedRegisterEdit { op, auth });
    let mut bytes = vec![1u8];
    bytes.extend_from_slice(&payload);
    bytes.extend_from_slice(&[7; 48]);
    bytes.extend_from_slice(&[9; 96]);
    assert_eq!(cmd.serialize(), bytes);
    assert_eq!(RegisterCmd::deserialize(&bytes), Ok(cmd.clone()));
    assert_eq!(cmd.duplicate(), cmd);
}

#[test]
fn bytes_that_are_no_operation_are_refused() {
    let sk = SecretKey::random();
    let cmd = creation(name(4), 1, owned_by(&sk), &sk);
    let bytes = cmd.serialize();
    assert_eq!(RegisterCmd::deserialize(&bytes), Ok(cmd));
    // Trailing bytes.
    let mut longer = bytes.clone();
    longer.push(0);
    assert!(matches!(RegisterCmd::deserialize(&longer), Err(Error::Serialization(_))));
    // A missing byte.
    assert!(matches!(
        RegisterCmd::deserialize(&bytes[..bytes.len() - 1]),
        Err(Error::Serialization(_))
    ));
    // An unknown tag.
    let mut other = bytes.clone();
    other[0] = 2;
    assert!(matches!(RegisterCmd::deserialize(&other), Err(Error::Serialization(_))));
    // A boolean that is neither 0 nor 1, a length beyond the end, nothing at all.
    assert!(matches!(RegisterCmd::deserialize(&[]), Err(Error::Serialization(_))));
    let mut huge = vec![1u8];
    huge.extend_from_slice(&[3; 40]);
    huge.extend_from_slice(&[5; 32]);
    huge.extend_from_slice(&[0xff; 8]);
    huge.extend_from_slice(&[0; 300]);
    assert!(matches!(RegisterCmd::deserialize(&huge), Err(Error::Serialization(_))));
}

#[test]
fn a_creation_with_a_wrong_signature_is_refused() {
    let sk = SecretKey::random();
    let other = SecretKey::random();
    let op = CreateRegister { name: name(1), tag: 0, policy: owned_by(&sk) };
    // Signed by another key than the one named.
    let auth = DataAuthority {
        public_key: key_of(&sk),
        signature: Signature(other.sign(op.serialize()).to_bytes()),
    };
    let cmd = RegisterCmd::Create(SignedRegisterCreate { op, auth });
    let mut dir = OpDir::new();
    assert_eq!(store().write(&cmd, &mut dir), Err(Error::InvalidSignature(key_of(&sk))));
    assert!(dir.files.is_empty());
    // Pushed by another store, it is dropped.
    let replica = ReplicatedRegisterLog { address: cmd.dst(), op_log: vec![cmd.clone()] };
    assert_eq!(store().update(&replica, &mut dir), Ok(()));
    assert!(dir.files.is_empty());
    // Bytes that are no key and no signature verify nothing.
    let junk = DataAuthority { public_key: PublicKey([0xff; 48]), signature: Signature([0xff; 96]) };
    assert_eq!(junk.verify_authority(b"x"), Err(Error::InvalidSignature(PublicKey([0xff; 48]))));
    assert_eq!(authority_of(&sk, b"x").verify_authority(b"x"), Ok(()));
    assert_eq!(
        authority_of(&sk, b"x").verify_authority(b"y"),
        Err(Error::InvalidSignature(key_of(&sk)))
    );
}

#[test]
fn an_edit_with_a_wrong_signature_is_refused_once_the_register_is_there() {
    let sk = SecretKey::random();
    let cmd_create = creation(name(1), 0, owned_by(&sk), &sk);
    let addr = cmd_create.dst();
    let mut dir = OpDir::new();
    store().write(&cmd_create, &mut dir).unwrap();

    let entry = Entry::new(b"value".to_vec(), Vec::new());
    let good = edit_of(addr, entry.clone(), &sk);
    let mut bad = match good.clone() {
        RegisterCmd::Edit(edit) => edit,
        RegisterCmd::Create(_) => unreachable!(),
    };
    bad.auth.signature = Signature(sk.sign(b"something else").to_bytes());
    let bad = RegisterCmd::Edit(bad);

    assert_eq!(store().write(&bad, &mut dir), Err(Error::InvalidSignature(key_of(&sk))));
    assert_eq!(dir.files.len(), 1);
    let replica = ReplicatedRegisterLog { address: addr, op_log: vec![bad, good.clone()] };
    assert_eq!(store().update(&replica, &mut dir), Ok(()));
    assert_eq!(dir.files.len(), 2);
    assert_eq!(dir.files[1].name, register_op_id(&good).unwrap());
    assert_eq!(state_of(&store(), &addr, &dir).map(|reg| reg.size()), Some(1));
}

#[test]
fn an_edit_by_a_key_that_may_not_write_is_refused() {
    let sk = SecretKey::random();
    let reader = SecretKey::random();
    let writer = SecretKey::random();
    let policy = Policy {
        owner: User::Key(key_of(&sk)),
        permissions: vec![
            (User::Key(key_of(&reader)), Permissions::new(true, false)),
            (User::Key(key_of(&writer)), Permissions::new(true, true)),
        ],
    };
    let cmd_create = creation(name(1), 0, policy, &sk);
    let addr = cmd_create.dst();
    let mut dir = OpDir::new();
    store().write(&cmd_create, &mut dir).unwrap();

    let by_reader = edit_of(addr, Entry::new(b"r".to_vec(), Vec::new()), &reader);
    let by_stranger = edit_of(addr, Entry::new(b"s".to_vec(), Vec::new()), &SecretKey::random());
    let by_writer = edit_of(addr, Entry::new(b"w".to_vec(), Vec::new()), &writer);
    assert_eq!(
        store().write(&by_reader, &mut dir),
        Err(Error::AccessDenied(User::Key(key_of(&reader))))
    );
    assert!(matches!(store().write(&by_stranger, &mut dir), Err(Error::AccessDenied(_))));
    assert_eq!(dir.files.len(), 1);
    assert_eq!(store().write(&by_writer, &mut dir), Ok(()));
    assert_eq!(dir.files.len(), 2);
    let replica = ReplicatedRegisterLog { address: addr, op_log: vec![by_reader, by_stranger] };
    assert_eq!(store().update(&replica, &mut dir), Ok(()));
    assert_eq!(dir.files.len(), 2);
}

#[test]
fn an_edit_aimed_at_another_register_is_refused() {
    let sk = SecretKey::random();
    let cmd_create = creation(name(1), 0, owned_by(&sk), &sk);
    let addr = cmd_create.dst();
    let elsewhere = RegisterAddress::new(name(1), 1);
    let mut register = Register::new(User::Key(key_of(&sk)), name(1), 0, owned_by(&sk));
    let edit = edit_of(elsewhere, Entry::new(b"v".to_vec(), Vec::new()), &sk);
    assert_eq!(
        store().apply(&edit, &mut register),
        Err(Error::RegisterAddrMismatch { cmd_dst_addr: elsewhere, reg_addr: addr })
    );
    assert_eq!(register.size(), 0);
    // A creation for this register changes nothing in it.
    assert_eq!(store().apply(&cmd_create, &mut register), Ok(()));
    assert_eq!(register.size(), 0);
}

#[test]
fn an_edit_that_does_not_go_by_its_hash_is_refused() {
    let sk = SecretKey::random();
    let cmd_create = creation(name(1), 0, owned_by(&sk), &sk);
    let addr = cmd_create.dst();
    let forged = Entry { hash: EntryHash([3; 32]), value: b"v".to_vec(), parents: Vec::new() };
    let mut register = Register::new(User::Key(key_of(&sk)), name(1), 0, owned_by(&sk));
    assert_eq!(
        register.apply_op(&RegisterOp { crdt_op: forged.clone() }),
        Err(Error::CrdtApplyError(EntryHash([3; 32])))
    );
    assert_eq!(register.size(), 0);

    let mut dir = OpDir::new();
    store().write(&cmd_create, &mut dir).unwrap();
    let edit = edit_of(addr, forged, &sk);
    assert_eq!(store().write(&edit, &mut dir), Err(Error::CrdtApplyError(EntryHash([3; 32]))));
    assert_eq!(dir.files.len(), 1);
}

#[test]
fn an_invalid_edit_kept_before_the_creation_makes_the_creation_fail() {
    let sk = SecretKey::random();
    let stranger = SecretKey::random();
    let cmd_create = creation(name(1), 0, owned_by(&sk), &sk);
    let addr = cmd_create.dst();
    let edit = edit_of(addr, Entry::new(b"v".to_vec(), Vec::new()), &stranger);
    let mut dir = OpDir::new();
    // Without the register, the edit cannot be checked and is kept.
    assert_eq!(store().write(&edit, &mut dir), Ok(()));
    assert_eq!(dir.files.len(), 1);
    assert_eq!(
        store().write(&cmd_create, &mut dir),
        Err(Error::AccessDenied(User::Key(key_of(&stranger))))
    );
    assert_eq!(dir.files.len(), 1);
    assert_eq!(state_of(&store(), &addr, &dir), None);
}

#[test]
fn reading_a_register_that_is_not_there_fails() {
    let addr = RegisterAddress::new(name(1), 0);
    let dir = OpDir::new();
    assert_eq!(
        store().read(&RegisterQuery::Get(addr), User::Anyone, &dir),
        QueryResponse::GetRegister(Err(ProtocolError::Storage(Error::RegisterNotFound(addr))))
    );
    assert_eq!(
        store().get_register(&addr, Action::Read, User::Anyone, &dir),
        Err(Error::RegisterNotFound(addr))
    );
    assert_eq!(RegisterQuery::Get(addr).dst(), addr);
    assert_eq!(
        RegisterQuery::GetEntry { address: addr, hash: EntryHash([0; 32]) }.dst(),
        addr
    );
}

#[test]
fn every_question_needs_the_right_to_read() {
    let sk = SecretKey::random();
    let reader = User::Key(key_of(&SecretKey::random()));
    let stranger = User::Key(key_of(&SecretKey::random()));
    let policy = Policy {
        owner: User::Key(key_of(&sk)),
        permissions: vec![(reader, Permissions::new(true, false))],
    };
    let cmd_create = creation(name(1), 0, policy.clone(), &sk);
    let addr = cmd_create.dst();
    let mut dir = OpDir::new();
    store().write(&cmd_create, &mut dir).unwrap();
    let entry = Entry::new(b"v".to_vec(), Vec::new());
    store().write(&edit_of(addr, entry.clone(), &sk), &mut dir).unwrap();

    let denied = ProtocolError::Storage(Error::NoSuchUser(stranger));
    assert_eq!(
        store().read(&RegisterQuery::GetOwner(addr), stranger, &dir),
        QueryResponse::GetRegisterOwner(Err(denied.clone()))
    );
    assert_eq!(
        store().read(&RegisterQuery::GetPolicy(addr), stranger, &dir),
        QueryResponse::GetRegisterPolicy(Err(denied.clone()))
    );
    assert_eq!(
        store().read(&RegisterQuery::Read(addr), stranger, &dir),
        QueryResponse::ReadRegister(Err(denied.clone()))
    );
    assert_eq!(
        store().read(&RegisterQuery::GetEntry { address: addr, hash: entry.hash }, stranger, &dir),
        QueryResponse::GetRegisterEntry(Err(denied))
    );

    assert_eq!(
        store().read(&RegisterQuery::GetOwner(addr), reader, &dir),
        QueryResponse::GetRegisterOwner(Ok(User::Key(key_of(&sk))))
    );
    assert_eq!(
        store().read(&RegisterQuery::GetPolicy(addr), reader, &dir),
        QueryResponse::GetRegisterPolicy(Ok(policy))
    );
    assert_eq!(
        store().read(&RegisterQuery::GetEntry { address: addr, hash: entry.hash }, reader, &dir),
        QueryResponse::GetRegisterEntry(Ok(entry))
    );
    assert_eq!(
        store().read(
            &RegisterQuery::GetUserPermissions { address: addr, user: reader },
            reader,
            &dir
        ),
        QueryResponse::GetRegisterUserPermissions(Ok(Permissions::new(true, false)))
    );
}

#[test]
fn an_edit_waits_for_its_parents() {
    let sk = SecretKey::random();
    let mut register = Register::new(User::Key(key_of(&sk)), name(1), 0, owned_by(&sk));
    let parent = Entry::new(b"parent".to_vec(), Vec::new());
    let child = Entry::new(b"child".to_vec(), vec![parent.hash]);
    let grandchild = Entry::new(b"grandchild".to_vec(), vec![child.hash]);

    assert_eq!(register.apply_op(&RegisterOp { crdt_op: grandchild.clone() }), Ok(()));
    assert_eq!(register.apply_op(&RegisterOp { crdt_op: child.clone() }), Ok(()));
    assert_eq!(register.size(), 0);
    assert_eq!(register.get(child.hash), Err(Error::NoSuchEntry(child.hash)));
    assert!(register.read().heads.is_empty());

    assert_eq!(register.apply_op(&RegisterOp { crdt_op: parent.clone() }), Ok(()));
    assert_eq!(register.size(), 3);
    assert_eq!(register.get(child.hash), Ok(&child));
    assert_eq!(register.get(parent.hash), Ok(&parent));
    let snapshot = register.read();
    assert_eq!(snapshot.heads, vec![grandchild.hash]);
    assert_eq!(snapshot.entries, vec![parent.clone(), child.clone(), grandchild.clone()]);

    // Offered again, an edit changes nothing.
    let before = register.clone();
    assert_eq!(register.apply_op(&RegisterOp { crdt_op: child }), Ok(()));
    assert_eq!(register, before);
}

#[test]
fn writing_without_parents_builds_on_the_heads() {
    let sk = SecretKey::random();
    let mut register = Register::new(User::Key(key_of(&sk)), name(1), 0, owned_by(&sk));
    let (first, op) = register.write(b"one".to_vec(), Vec::new());
    assert_eq!(op.crdt_op.parents, Vec::<EntryHash>::new());
    assert_eq!(op.crdt_op.hash, first);
    assert_eq!(op.crdt_op.value, b"one".to_vec());
    let (second, op) = register.write(b"two".to_vec(), Vec::new());
    assert_eq!(op.crdt_op.parents, vec![first]);
    let (third, op) = register.write(b"three".to_vec(), vec![first]);
    assert_eq!(op.crdt_op.parents, vec![first]);
    assert_eq!(register.size(), 3);
    assert_eq!(register.read().heads, vec![second, third]);
    let (_, op) = register.write(b"four".to_vec(), Vec::new());
    assert_eq!(op.crdt_op.parents, vec![second, third]);
    assert_eq!(register.read().heads.len(), 1);
}

#[test]
fn the_order_of_a_batch_does_not_matter() {
    let sk = SecretKey::random();
    let cmd_create = creation(name(1), 0, owned_by(&sk), &sk);
    let addr = cmd_create.dst();
    let a = Entry::new(b"a".to_vec(), Vec::new());
    let b = Entry::new(b"b".to_vec(), vec![a.hash]);
    let c = Entry::new(b"c".to_vec(), vec![a.hash, b.hash]);
    let d = Entry::new(b"d".to_vec(), Vec::new());
    let ops: Vec<RegisterCmd> = vec![
        cmd_create.clone(),
        edit_of(addr, a, &sk),
        edit_of(addr, b, &sk),
        edit_of(addr, c.clone(), &sk),
        edit_of(addr, d.clone(), &sk),
    ];
    let orders: [[usize; 5]; 4] =
        [[0, 1, 2, 3, 4], [4, 3, 2, 1, 0], [3, 0, 4, 2, 1], [2, 4, 1, 3, 0]];
    let mut registers = Vec::new();
    for order in orders {
        let op_log: Vec<RegisterCmd> = order.iter().map(|i| ops[*i].clone()).collect();
        let mut dir = OpDir::new();
        assert_eq!(store().update(&ReplicatedRegisterLog { address: addr, op_log }, &mut dir), Ok(()));
        assert_eq!(dir.files.len(), 5);
        let register = state_of(&store(), &addr, &dir).unwrap();
        assert_eq!(register.size(), 4);
        let mut heads = register.read().heads;
        heads.sort();
        let mut expected = vec![c.hash, d.hash];
        expected.sort();
        assert_eq!(heads, expected);
        registers.push(register);
    }
    for register in &registers {
        assert!(register.same_as(&registers[0]));
    }
    // A register that lacks an edit is another one.
    let mut dir = OpDir::new();
    let fewer = ReplicatedRegisterLog { address: addr, op_log: ops[..4].to_vec() };
    store().update(&fewer, &mut dir).unwrap();
    assert!(!state_of(&store(), &addr, &dir).unwrap().same_as(&registers[0]));
}

#[test]
fn edits_before_their_creation_lead_to_the_same_register() {
    let sk = SecretKey::random();
    let cmd_create = creation(name(1), 0, owned_by(&sk), &sk);
    let addr = cmd_create.dst();
    let mut register = Register::new(User::Key(key_of(&sk)), name(1), 0, owned_by(&sk));
    let mut edits = Vec::new();
    for i in 0..5u8 {
        let (_, op) = register.write(vec![i], Vec::new());
        edits.push(edit_of(addr, op.crdt_op, &sk));
    }
    let mut late = OpDir::new();
    for edit in &edits {
        store().write(edit, &mut late).unwrap();
    }
    store().write(&cmd_create, &mut late).unwrap();
    let mut early = OpDir::new();
    store().write(&cmd_create, &mut early).unwrap();
    for edit in &edits {
        store().write(edit, &mut early).unwrap();
    }
    let a = state_of(&store(), &addr, &late).unwrap();
    let b = state_of(&store(), &addr, &early).unwrap();
    assert!(a.same_as(&b));
    assert!(a.same_as(&register));
    assert_eq!(a.size(), 5);
}

#[test]
fn writing_an_edit_twice_changes_nothing_the_second_time() {
    let sk = SecretKey::random();
    let cmd_create = creation(name(1), 0, owned_by(&sk), &sk);
    let addr = cmd_create.dst();
    let edit = edit_of(addr, Entry::new(b"v".to_vec(), Vec::new()), &sk);
    let mut dir = OpDir::new();
    store().write(&cmd_create, &mut dir).unwrap();
    store().write(&edit, &mut dir).unwrap();
    let once = dir.clone();
    let state = state_of(&store(), &addr, &dir);
    assert_eq!(store().write(&edit, &mut dir), Ok(()));
    assert_eq!(dir, once);
    assert_eq!(state_of(&store(), &addr, &dir), state);
    assert!(dir.has_file(&register_op_id(&edit).unwrap()));
    assert!(!dir.has_file(&"00".repeat(64)));
}

#[test]
fn what_was_written_is_what_is_loaded() {
    let sk = SecretKey::random();
    let cmd_create = creation(name(1), 0, owned_by(&sk), &sk);
    let addr = cmd_create.dst();
    let mut dir = OpDir::new();
    let mut stored = store().try_load_stored_register(&addr, &dir).unwrap();
    let mut register = Register::new(User::Key(key_of(&sk)), name(1), 0, owned_by(&sk));
    let mut ops = vec![cmd_create];
    for i in 0..4u8 {
        let (_, op) = register.write(vec![i; 3], Vec::new());
        ops.push(edit_of(addr, op.crdt_op, &sk));
    }
    for cmd in &ops {
        store().try_to_apply_cmd_against_register_state(cmd, &mut stored).unwrap();
        store().write(cmd, &mut dir).unwrap();
        assert_eq!(store().try_load_stored_register(&addr, &dir).unwrap(), stored);
    }
    assert_eq!(stored.state, Some(register));
    assert_eq!(
        store().open_reg_log_from_disk(&addr, &dir).unwrap().state.map(|reg| reg.size()),
        Some(0)
    );
}

#[test]
fn a_removed_register_is_gone() {
    let sk = SecretKey::random();
    let cmd_create = creation(name(1), 0, owned_by(&sk), &sk);
    let addr = cmd_create.dst();
    let mut dir = OpDir::new();
    store().write(&cmd_create, &mut dir).unwrap();
    let path = store().remove(&addr, &mut dir).unwrap();
    assert_eq!(path, store().address_to_filepath(&addr).unwrap());
    assert_eq!(dir, OpDir::new());
    assert_eq!(state_of(&store(), &addr, &dir), None);
}

#[test]
fn the_addresses_held_come_from_the_first_readable_file_of_each_directory() {
    let sk = SecretKey::random();
    let first = creation(name(1), 0, owned_by(&sk), &sk);
    let second = creation(name(2), 5, owned_by(&sk), &sk);
    let mut dir_one = OpDir::new();
    store().write(&first, &mut dir_one).unwrap();
    let mut dir_two = OpDir { files: vec![OpFile { name: "junk".to_string(), data: vec![1, 2, 3] }] };
    store().write_log_to_disk(&vec![second.clone(), second.clone()], &mut dir_two).unwrap();
    assert_eq!(dir_two.files.len(), 2);
    let unreadable = OpDir { files: vec![OpFile { name: "junk".to_string(), data: vec![] }] };
    let dirs = vec![dir_two, unreadable, OpDir::new(), dir_one];
    assert_eq!(store().stored_addrs(&dirs), vec![second.dst(), first.dst()]);
    assert_eq!(store().stored_addrs(&Vec::new()), Vec::<RegisterAddress>::new());
}

#[test]
fn persisting_ends_with_the_last_error_met() {
    let first = Error::Io("disk full".to_string());
    let last = Error::Io("no permission".to_string());
    assert_eq!(persist_outcome(vec![]), Ok(()));
    assert_eq!(persist_outcome(vec![Ok(()), Ok(())]), Ok(()));
    assert_eq!(
        persist_outcome(vec![Err(first.clone()), Ok(()), Err(last.clone()), Ok(())]),
        Err(last)
    );
    assert_eq!(persist_outcome(vec![Err(first.clone()), Ok(())]), Err(first));
}

#[test]
fn a_wallet_client_hands_back_its_wallet() {
    let mut client = WalletClient::new("client", vec![1u8, 2, 3]);
    {
        let (through, wallet) = client.parts();
        assert_eq!(*through, "client");
        wallet.push(4);
    }
    assert_eq!(client.into_wallet(), vec![1, 2, 3, 4]);
}

#[test]
fn a_transfer_gives_back_the_first_created() {
    assert_eq!(sent(vec!["first", "second"]), Ok("first"));
    assert_eq!(sent(vec![7u64]), Ok(7));
    assert_eq!(
        sent(Vec::<u8>::new()),
        Err(WalletError::CouldNotSendTokens("No DBCs were returned from the wallet.".to_string()))
    );
}

#[test]
fn a_history_is_read_back_from_its_encoding() {
    let sk = SecretKey::random();
    let cmd_create = creation(name(1), 9, owned_by(&sk), &sk);
    let addr = cmd_create.dst();
    let edit = edit_of(addr, Entry::new(b"v".to_vec(), Vec::new()), &sk);
    let replica = ReplicatedRegisterLog { address: addr, op_log: vec![edit.clone(), cmd_create.clone()] };
    let bytes = replica.serialize();

    let mut expected = vec![1u8; 32];
    expected.extend_from_slice(&[9, 0, 0, 0, 0, 0, 0, 0]);
    expected.extend_from_slice(&[2, 0, 0, 0, 0, 0, 0, 0]);
    for op in [&edit, &cmd_create] {
        let encoded = op.serialize();
        expected.extend_from_slice(&(encoded.len() as u64).to_le_bytes());
        expected.extend_from_slice(&encoded);
    }
    assert_eq!(bytes, expected);
    assert_eq!(ReplicatedRegisterLog::deserialize(&bytes), Ok(replica));

    let empty = ReplicatedRegisterLog { address: addr, op_log: Vec::new() };
    assert_eq!(empty.serialize().len(), 48);
    assert_eq!(ReplicatedRegisterLog::deserialize(&empty.serialize()), Ok(empty));

    let mut longer = bytes.clone();
    longer.push(7);
    assert!(matches!(ReplicatedRegisterLog::deserialize(&longer), Err(Error::Serialization(_))));
    assert!(matches!(
        ReplicatedRegisterLog::deserialize(&bytes[..bytes.len() - 1]),
        Err(Error::Serialization(_))
    ));
    // An operation inside that is not well encoded.
    let mut broken = bytes.clone();
    broken[56] = 9;
    assert!(matches!(ReplicatedRegisterLog::deserialize(&broken), Err(Error::Serialization(_))));
    assert!(matches!(ReplicatedRegisterLog::deserialize(&[]), Err(Error::Serialization(_))));
}

#[test]
fn two_registers_are_the_same_whatever_the_order_of_their_edits() {
    let sk = SecretKey::random();
    let owner = User::Key(key_of(&sk));
    let a = RegisterOp { crdt_op: Entry::new(b"a".to_vec(), Vec::new()) };
    let b = RegisterOp { crdt_op: Entry::new(b"b".to_vec(), Vec::new()) };
    let orphan = RegisterOp { crdt_op: Entry::new(b"o".to_vec(), vec![EntryHash([9; 32])]) };
    let mut one = Register::new(owner, name(1), 0, owned_by(&sk));
    let mut other = Register::new(owner, name(1), 0, owned_by(&sk));
    for op in [&a, &b, &orphan] {
        one.apply_op(op).unwrap();
    }
    for op in [&orphan, &b, &a, &b] {
        other.apply_op(op).unwrap();
    }
    assert!(one.same_as(&other));
    assert!(other.same_as(&one));
    assert_ne!(one, other);
    assert_eq!(one.size(), 2);

    let mut fewer = Register::new(owner, name(1), 0, owned_by(&sk));
    fewer.apply_op(&a).unwrap();
    fewer.apply_op(&b).unwrap();
    assert!(!one.same_as(&fewer));
    assert!(!one.same_as(&Register::new(owner, name(1), 1, owned_by(&sk))));
    assert!(!Register::new(owner, name(1), 0, owned_by(&sk))
        .same_as(&Register::new(User::Anyone, name(1), 0, owned_by(&sk))));
    let other_policy = Policy { owner, permissions: vec![(User::Anyone, Permissions::new(true, false))] };
    assert!(!owned_by(&sk).same_as(&other_policy));
    assert!(other_policy.same_as(&other_policy.duplicate()));
    assert!(!Register::new(owner, name(1), 0, owned_by(&sk))
        .same_as(&Register::new(owner, name(1), 0, other_policy)));
}

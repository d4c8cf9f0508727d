//! The byte format of signed operations.
//!
//! Integers are little-endian and of fixed width, byte strings and lists
//! carry their length in front, variants carry a one-byte tag, and fields
//! come in a fixed order. Bytes decode to an operation just when they are
//! its encoding, so bytes with anything behind an encoding decode to
//! nothing.

use crate::address::{RegisterAddress, XorName};
use crate::entry::{push_hashes, spec_hashes_bytes, Entry, EntryHash, EntryView};
use crate::error::{Error, Result};
use crate::messages::{
    CmdView, CreateRegister, DataAuthority, EditRegister, RegisterCmd, RegisterOp, Signature,
    SignedRegisterCreate, SignedRegisterEdit,
};
use crate::policy::{Permissions, Policy, PolicyView, PublicKey, User};
use vstd::bytes::{spec_u64_from_le_bytes, spec_u64_to_le_bytes, u64_from_le_bytes, u64_to_le_bytes};
use vstd::prelude::*;
use vstd::string::StringExecFns;

verus! {

/// The tag of a creation, and of the user `Anyone`.
pub const TAG_FIRST: u8 = 0;

/// The tag of an edit, and of a user known by a key.
pub const TAG_SECOND: u8 = 1;

pub open spec fn enc_bool(b: bool) -> Seq<u8> {
    seq![if b { 1u8 } else { 0u8 }]
}

pub open spec fn enc_user(user: User) -> Seq<u8> {
    match user {
        User::Anyone => seq![TAG_FIRST],
        User::Key(key) => seq![TAG_SECOND] + key.0@,
    }
}

pub open spec fn enc_grant(grant: (User, Permissions)) -> Seq<u8> {
    enc_user(grant.0) + enc_bool(grant.1.read) + enc_bool(grant.1.write)
}

pub open spec fn enc_grants(grants: Seq<(User, Permissions)>) -> Seq<u8>
    decreases grants.len(),
{
    if grants.len() == 0 {
        Seq::empty()
    } else {
        enc_grants(grants.drop_last()) + enc_grant(grants.last())
    }
}

pub open spec fn enc_policy(policy: PolicyView) -> Seq<u8> {
    enc_user(policy.owner) + spec_u64_to_le_bytes(policy.permissions.len() as u64) + enc_grants(
        policy.permissions,
    )
}

pub open spec fn enc_entry(entry: EntryView) -> Seq<u8> {
    entry.hash.0@ + spec_u64_to_le_bytes(entry.value.len() as u64) + entry.value
        + spec_u64_to_le_bytes(entry.parents.len() as u64) + spec_hashes_bytes(entry.parents)
}

pub open spec fn enc_auth(auth: DataAuthority) -> Seq<u8> {
    auth.public_key.0@ + auth.signature.0@
}

/// The bytes of a creation that its signature covers.
pub open spec fn enc_create_op(name: XorName, tag: u64, policy: PolicyView) -> Seq<u8> {
    name.0@ + spec_u64_to_le_bytes(tag) + enc_policy(policy)
}

/// The bytes of an edit that its signature covers.
pub open spec fn enc_edit_op(address: RegisterAddress, entry: EntryView) -> Seq<u8> {
    address.name.0@ + spec_u64_to_le_bytes(address.tag) + enc_entry(entry)
}

impl CmdView {
    /// The bytes that the operation's signature covers: the encoding of the
    /// operation without its signature.
    pub open spec fn payload(self) -> Seq<u8> {
        match self {
            CmdView::Create { name, tag, policy, .. } => enc_create_op(name, tag, policy),
            CmdView::Edit { address, entry, .. } => enc_edit_op(address, entry),
        }
    }

    /// The tag that tells the two kinds of operation apart.
    pub open spec fn tag(self) -> u8 {
        match self {
            CmdView::Create { .. } => TAG_FIRST,
            CmdView::Edit { .. } => TAG_SECOND,
        }
    }

    /// The encoding of the operation: its tag, what the signature covers,
    /// then the key and the signature.
    pub open spec fn encoding(self) -> Seq<u8> {
        seq![self.tag()] + self.payload() + enc_auth(self.auth())
    }

    /// Whether every length in the operation fits the 64 bits that the
    /// encoding has for it. This holds of every operation in memory.
    pub open spec fn encodable(self) -> bool {
        match self {
            CmdView::Create { policy, .. } => policy.permissions.len() <= u64::MAX,
            CmdView::Edit { entry, .. } => entry.value.len() <= u64::MAX && entry.parents.len()
                <= u64::MAX,
        }
    }
}

fn push_bool(out: &mut Vec<u8>, b: bool)
    ensures
        final(out)@ == old(out)@ + enc_bool(b),
{
    out.push(if b { 1u8 } else { 0u8 });
    assert(out@ =~= old(out)@ + enc_bool(b));
}

fn push_u64(out: &mut Vec<u8>, x: u64)
    ensures
        final(out)@ == old(out)@ + spec_u64_to_le_bytes(x),
{
    let bytes = u64_to_le_bytes(x);
    out.extend_from_slice(bytes.as_slice());
}

fn push_user(out: &mut Vec<u8>, user: &User)
    ensures
        final(out)@ == old(out)@ + enc_user(*user),
{
    match user {
        User::Anyone => {
            out.push(TAG_FIRST);
        },
        User::Key(key) => {
            out.push(TAG_SECOND);
            out.extend_from_slice(key.0.as_slice());
        },
    }
    assert(out@ =~= old(out)@ + enc_user(*user));
}

fn push_grants(out: &mut Vec<u8>, grants: &Vec<(User, Permissions)>)
    ensures
        final(out)@ == old(out)@ + enc_grants(grants@),
{
    let ghost before = out@;
    let mut i: usize = 0;
    assert(out@ =~= before + enc_grants(grants@.subrange(0, 0)));
    while i < grants.len()
        invariant
            i <= grants.len(),
            out@ == before + enc_grants(grants@.subrange(0, i as int)),
        decreases grants.len() - i,
    {
        push_user(out, &grants[i].0);
        push_bool(out, grants[i].1.read);
        push_bool(out, grants[i].1.write);
        proof {
            let next = grants@.subrange(0, i as int + 1);
            assert(next.drop_last() =~= grants@.subrange(0, i as int));
            assert(next.last() == grants@[i as int]);
            assert(out@ =~= before + enc_grants(next));
        }
        i += 1;
    }
    assert(grants@.subrange(0, grants@.len() as int) =~= grants@);
}

fn push_policy(out: &mut Vec<u8>, policy: &Policy)
    ensures
        final(out)@ == old(out)@ + enc_policy(policy@),
{
    push_user(out, &policy.owner);
    push_u64(out, policy.permissions.len() as u64);
    push_grants(out, &policy.permissions);
    assert(out@ =~= old(out)@ + enc_policy(policy@));
}

fn push_entry(out: &mut Vec<u8>, entry: &Entry)
    ensures
        final(out)@ == old(out)@ + enc_entry(entry@),
{
    out.extend_from_slice(entry.hash.0.as_slice());
    push_u64(out, entry.value.len() as u64);
    out.extend_from_slice(entry.value.as_slice());
    push_u64(out, entry.parents.len() as u64);
    push_hashes(out, &entry.parents);
    assert(out@ =~= old(out)@ + enc_entry(entry@));
}

fn push_auth(out: &mut Vec<u8>, auth: &DataAuthority)
    ensures
        final(out)@ == old(out)@ + enc_auth(*auth),
{
    out.extend_from_slice(auth.public_key.0.as_slice());
    out.extend_from_slice(auth.signature.0.as_slice());
    assert(out@ =~= old(out)@ + enc_auth(*auth));
}

impl CreateRegister {
    /// The bytes of the creation that its signature covers.
    pub fn serialize(&self) -> (bytes: Vec<u8>)
        ensures
            bytes@ == enc_create_op(self.name, self.tag, self.policy@),
    {
        let mut out: Vec<u8> = Vec::new();
        out.extend_from_slice(self.name.0.as_slice());
        push_u64(&mut out, self.tag);
        push_policy(&mut out, &self.policy);
        assert(out@ =~= enc_create_op(self.name, self.tag, self.policy@));
        out
    }
}

impl EditRegister {
    /// The bytes of the edit that its signature covers.
    pub fn serialize(&self) -> (bytes: Vec<u8>)
        ensures
            bytes@ == enc_edit_op(self.address, self.edit.crdt_op@),
    {
        let mut out: Vec<u8> = Vec::new();
        out.extend_from_slice(self.address.name.0.as_slice());
        push_u64(&mut out, self.address.tag);
        push_entry(&mut out, &self.edit.crdt_op);
        assert(out@ =~= enc_edit_op(self.address, self.edit.crdt_op@));
        out
    }
}

impl RegisterCmd {
    /// Every operation in memory can be encoded.
    pub proof fn lemma_encodable(&self)
        ensures
            self@.encodable(),
    {
        match self {
            RegisterCmd::Create(cmd) => {
                assert(cmd.op.policy.permissions.len() == cmd.op.policy.permissions@.len());
            },
            RegisterCmd::Edit(cmd) => {
                assert(cmd.op.edit.crdt_op.value.len() == cmd.op.edit.crdt_op.value@.len());
                assert(cmd.op.edit.crdt_op.parents.len() == cmd.op.edit.crdt_op.parents@.len());
            },
        }
    }

    /// The bytes of the operation that its signature covers.
    pub fn payload(&self) -> (bytes: Vec<u8>)
        ensures
            bytes@ == self@.payload(),
    {
        match self {
            RegisterCmd::Create(cmd) => cmd.op.serialize(),
            RegisterCmd::Edit(cmd) => cmd.op.serialize(),
        }
    }

    /// The encoding of the operation. The same operation always gives the
    /// same bytes, and reading them back gives the operation.
    pub fn serialize(&self) -> (bytes: Vec<u8>)
        ensures
            bytes@ == self@.encoding(),
            decoding(bytes@) == Some(self@),
    {
        let mut out: Vec<u8> = Vec::new();
        match self {
            RegisterCmd::Create(cmd) => {
                out.push(TAG_FIRST);
                let payload = cmd.op.serialize();
                out.extend_from_slice(payload.as_slice());
                push_auth(&mut out, &cmd.auth);
            },
            RegisterCmd::Edit(cmd) => {
                out.push(TAG_SECOND);
                let payload = cmd.op.serialize();
                out.extend_from_slice(payload.as_slice());
                push_auth(&mut out, &cmd.auth);
            },
        }
        proof {
            assert(out@ =~= self@.encoding());
            self.lemma_encodable();
            crate::roundtrip::lemma_decoding_of_encoding(self@);
        }
        out
    }
}

/// The array that holds exactly these bytes.
pub open spec fn array_of<const N: usize>(bytes: Seq<u8>) -> [u8; N] {
    choose|a: [u8; N]| a@ == bytes
}

pub open spec fn dec_array<const N: usize>(s: Seq<u8>, pos: int) -> Option<([u8; N], int)> {
    if 0 <= pos && pos + N <= s.len() {
        Some((array_of::<N>(s.subrange(pos, pos + N)), pos + N))
    } else {
        None
    }
}

pub open spec fn dec_byte(s: Seq<u8>, pos: int) -> Option<(u8, int)> {
    if 0 <= pos < s.len() {
        Some((s[pos], pos + 1))
    } else {
        None
    }
}

pub open spec fn dec_bool(s: Seq<u8>, pos: int) -> Option<(bool, int)> {
    match dec_byte(s, pos) {
        Some((b, p)) => if b == 0 {
            Some((false, p))
        } else if b == 1 {
            Some((true, p))
        } else {
            None
        },
        None => None,
    }
}

pub open spec fn dec_u64(s: Seq<u8>, pos: int) -> Option<(u64, int)> {
    if 0 <= pos && pos + 8 <= s.len() {
        Some((spec_u64_from_le_bytes(s.subrange(pos, pos + 8)), pos + 8))
    } else {
        None
    }
}

pub open spec fn dec_bytes(s: Seq<u8>, pos: int, n: int) -> Option<(Seq<u8>, int)> {
    if 0 <= pos && 0 <= n && pos + n <= s.len() {
        Some((s.subrange(pos, pos + n), pos + n))
    } else {
        None
    }
}

pub open spec fn dec_hashes(s: Seq<u8>, pos: int, n: int) -> Option<(Seq<EntryHash>, int)> {
    if 0 <= pos && 0 <= n && pos + 32 * n <= s.len() {
        Some(
            (
                Seq::new(
                    n as nat,
                    |i: int| EntryHash(array_of::<32>(s.subrange(pos + 32 * i, pos + 32 * i + 32))),
                ),
                pos + 32 * n,
            ),
        )
    } else {
        None
    }
}

pub open spec fn dec_user(s: Seq<u8>, pos: int) -> Option<(User, int)> {
    match dec_byte(s, pos) {
        Some((tag, p)) => if tag == TAG_FIRST {
            Some((User::Anyone, p))
        } else if tag == TAG_SECOND {
            match dec_array::<48>(s, p) {
                Some((key, end)) => Some((User::Key(PublicKey(key)), end)),
                None => None,
            }
        } else {
            None
        },
        None => None,
    }
}

pub open spec fn dec_grant(s: Seq<u8>, pos: int) -> Option<((User, Permissions), int)> {
    match dec_user(s, pos) {
        Some((user, pos1)) => match dec_bool(s, pos1) {
            Some((read, pos2)) => match dec_bool(s, pos2) {
                Some((write, pos3)) => Some(((user, Permissions { read, write }), pos3)),
                None => None,
            },
            None => None,
        },
        None => None,
    }
}

pub open spec fn dec_grants(s: Seq<u8>, pos: int, n: nat) -> Option<
    (Seq<(User, Permissions)>, int),
>
    decreases n,
{
    if n == 0 {
        Some((Seq::empty(), pos))
    } else {
        match dec_grants(s, pos, (n - 1) as nat) {
            Some((front, p)) => match dec_grant(s, p) {
                Some((grant, end)) => Some((front.push(grant), end)),
                None => None,
            },
            None => None,
        }
    }
}

pub open spec fn dec_policy(s: Seq<u8>, pos: int) -> Option<(PolicyView, int)> {
    match dec_user(s, pos) {
        Some((owner, pos1)) => match dec_u64(s, pos1) {
            Some((n, pos2)) => match dec_grants(s, pos2, n as nat) {
                Some((permissions, pos3)) => Some((PolicyView { owner, permissions }, pos3)),
                None => None,
            },
            None => None,
        },
        None => None,
    }
}

pub open spec fn dec_entry(s: Seq<u8>, pos: int) -> Option<(EntryView, int)> {
    match dec_array::<32>(s, pos) {
        Some((hash, pos1)) => match dec_u64(s, pos1) {
            Some((value_len, pos2)) => match dec_bytes(s, pos2, value_len as int) {
                Some((value, pos3)) => match dec_u64(s, pos3) {
                    Some((n, pos4)) => match dec_hashes(s, pos4, n as int) {
                        Some((parents, pos5)) => Some(
                            (EntryView { hash: EntryHash(hash), value, parents }, pos5),
                        ),
                        None => None,
                    },
                    None => None,
                },
                None => None,
            },
            None => None,
        },
        None => None,
    }
}

pub open spec fn dec_auth(s: Seq<u8>, pos: int) -> Option<(DataAuthority, int)> {
    match dec_array::<48>(s, pos) {
        Some((key, pos1)) => match dec_array::<96>(s, pos1) {
            Some((sig, pos2)) => Some(
                (DataAuthority { public_key: PublicKey(key), signature: Signature(sig) }, pos2),
            ),
            None => None,
        },
        None => None,
    }
}

pub open spec fn dec_address(s: Seq<u8>, pos: int) -> Option<(RegisterAddress, int)> {
    match dec_array::<32>(s, pos) {
        Some((name, pos1)) => match dec_u64(s, pos1) {
            Some((tag, pos2)) => Some((RegisterAddress { name: XorName(name), tag }, pos2)),
            None => None,
        },
        None => None,
    }
}

pub open spec fn dec_create(s: Seq<u8>, pos: int) -> Option<(CmdView, int)> {
    match dec_address(s, pos) {
        Some((addr, pos1)) => match dec_policy(s, pos1) {
            Some((policy, pos2)) => match dec_auth(s, pos2) {
                Some((auth, pos3)) => Some(
                    (CmdView::Create { name: addr.name, tag: addr.tag, policy, auth }, pos3),
                ),
                None => None,
            },
            None => None,
        },
        None => None,
    }
}

pub open spec fn dec_edit(s: Seq<u8>, pos: int) -> Option<(CmdView, int)> {
    match dec_address(s, pos) {
        Some((address, pos1)) => match dec_entry(s, pos1) {
            Some((entry, pos2)) => match dec_auth(s, pos2) {
                Some((auth, pos3)) => Some((CmdView::Edit { address, entry, auth }, pos3)),
                None => None,
            },
            None => None,
        },
        None => None,
    }
}

/// The operation that a byte string stands for: the one read from its
/// front, provided that nothing follows it.
pub open spec fn decoding(s: Seq<u8>) -> Option<CmdView> {
    match dec_byte(s, 0) {
        Some((tag, p)) => {
            let body = if tag == TAG_FIRST {
                dec_create(s, p)
            } else if tag == TAG_SECOND {
                dec_edit(s, p)
            } else {
                None
            };
            match body {
                Some((cmd, end)) => if end == s.len() {
                    Some(cmd)
                } else {
                    None
                },
                None => None,
            }
        },
        None => None,
    }
}

/// Copies the `N` bytes at `pos` into an array.
fn copy_array<const N: usize>(s: &[u8], pos: usize) -> (a: [u8; N])
    requires
        pos + N <= s@.len(),
    ensures
        a@ == s@.subrange(pos as int, pos + N),
        a == array_of::<N>(s@.subrange(pos as int, pos + N)),
{
    let mut a: [u8; N] = vstd::array::array_fill_for_copy_types(0u8);
    let mut i: usize = 0;
    while i < N
        invariant
            i <= N,
            pos + N <= s.len(),
            forall|k: int| 0 <= k < i ==> a@[k] == s@[pos + k],
        decreases N - i,
    {
        a[i] = s[pos + i];
        i += 1;
    }
    proof {
        let sub = s@.subrange(pos as int, pos + N);
        assert(a@ =~= sub);
        let c = array_of::<N>(sub);
        assert(c@ == sub);
        assert(c =~= a);
    }
    a
}

fn read_array<const N: usize>(s: &[u8], pos: usize) -> (res: Option<([u8; N], usize)>)
    ensures
        match res {
            Some((a, end)) => dec_array::<N>(s@, pos as int) == Some((a, end as int)),
            None => dec_array::<N>(s@, pos as int) is None,
        },
{
    if pos > s.len() || N > s.len() - pos {
        return None;
    }
    Some((copy_array::<N>(s, pos), pos + N))
}

fn read_byte(s: &[u8], pos: usize) -> (res: Option<(u8, usize)>)
    ensures
        match res {
            Some((b, p)) => dec_byte(s@, pos as int) == Some((b, p as int)),
            None => dec_byte(s@, pos as int) is None,
        },
{
    if pos < s.len() {
        Some((s[pos], pos + 1))
    } else {
        None
    }
}

fn read_bool(s: &[u8], pos: usize) -> (res: Option<(bool, usize)>)
    ensures
        match res {
            Some((b, p)) => dec_bool(s@, pos as int) == Some((b, p as int)),
            None => dec_bool(s@, pos as int) is None,
        },
{
    match read_byte(s, pos) {
        Some((b, p)) => {
            if b == 0 {
                Some((false, p))
            } else if b == 1 {
                Some((true, p))
            } else {
                None
            }
        },
        None => None,
    }
}

pub(crate) fn read_u64(s: &[u8], pos: usize) -> (res: Option<(u64, usize)>)
    ensures
        match res {
            Some((x, p)) => dec_u64(s@, pos as int) == Some((x, p as int)),
            None => dec_u64(s@, pos as int) is None,
        },
{
    if pos > s.len() || 8 > s.len() - pos {
        return None;
    }
    let x = u64_from_le_bytes(vstd::slice::slice_subrange(s, pos, pos + 8));
    Some((x, pos + 8))
}

pub(crate) fn read_bytes(s: &[u8], pos: usize, n: u64) -> (res: Option<(Vec<u8>, usize)>)
    ensures
        match res {
            Some((v, p)) => dec_bytes(s@, pos as int, n as int) == Some((v@, p as int)),
            None => dec_bytes(s@, pos as int, n as int) is None,
        },
{
    if pos > s.len() || n > (s.len() - pos) as u64 {
        return None;
    }
    let len = n as usize;
    let mut v: Vec<u8> = Vec::new();
    v.extend_from_slice(vstd::slice::slice_subrange(s, pos, pos + len));
    assert(v@ =~= s@.subrange(pos as int, pos + n));
    Some((v, pos + len))
}

fn read_hashes(s: &[u8], pos: usize, n: u64) -> (res: Option<(Vec<EntryHash>, usize)>)
    ensures
        match res {
            Some((v, p)) => dec_hashes(s@, pos as int, n as int) == Some((v@, p as int)),
            None => dec_hashes(s@, pos as int, n as int) is None,
        },
{
    if pos > s.len() || n > ((s.len() - pos) / 32) as u64 {
        return None;
    }
    let count = n as usize;
    let mut v: Vec<EntryHash> = Vec::new();
    let mut i: usize = 0;
    while i < count
        invariant
            i <= count,
            count == n,
            pos + 32 * count <= s.len(),
            v@.len() == i,
            forall|k: int|
                0 <= k < i ==> v@[k] == EntryHash(
                    array_of::<32>(s@.subrange(pos + 32 * k, pos + 32 * k + 32)),
                ),
        decreases count - i,
    {
        v.push(EntryHash(copy_array::<32>(s, pos + 32 * i)));
        i += 1;
    }
    proof {
        let spec = dec_hashes(s@, pos as int, n as int);
        assert(spec is Some);
        assert(v@ =~= spec.unwrap().0);
    }
    Some((v, pos + 32 * count))
}

fn read_user(s: &[u8], pos: usize) -> (res: Option<(User, usize)>)
    ensures
        match res {
            Some((u, p)) => dec_user(s@, pos as int) == Some((u, p as int)),
            None => dec_user(s@, pos as int) is None,
        },
{
    match read_byte(s, pos) {
        Some((tag, p)) => {
            if tag == TAG_FIRST {
                Some((User::Anyone, p))
            } else if tag == TAG_SECOND {
                match read_array::<48>(s, p) {
                    Some((key, end)) => Some((User::Key(PublicKey(key)), end)),
                    None => None,
                }
            } else {
                None
            }
        },
        None => None,
    }
}

fn read_grant(s: &[u8], pos: usize) -> (res: Option<((User, Permissions), usize)>)
    ensures
        match res {
            Some((g, p)) => dec_grant(s@, pos as int) == Some((g, p as int)),
            None => dec_grant(s@, pos as int) is None,
        },
{
    let (user, pos1) = match read_user(s, pos) {
        Some(found) => found,
        None => { return None; },
    };
    let (read, pos2) = match read_bool(s, pos1) {
        Some(found) => found,
        None => { return None; },
    };
    let (write, pos3) = match read_bool(s, pos2) {
        Some(found) => found,
        None => { return None; },
    };
    Some(((user, Permissions { read, write }), pos3))
}

/// Once the grants stop decoding, no longer list decodes either.
proof fn lemma_grants_stay_undecoded(s: Seq<u8>, pos: int, i: nat, n: nat)
    requires
        i <= n,
        dec_grants(s, pos, i) is None,
    ensures
        dec_grants(s, pos, n) is None,
    decreases n,
{
    if n > i {
        lemma_grants_stay_undecoded(s, pos, i, (n - 1) as nat);
    }
}

fn read_grants(s: &[u8], pos: usize, n: u64) -> (res: Option<(Vec<(User, Permissions)>, usize)>)
    ensures
        match res {
            Some((v, p)) => dec_grants(s@, pos as int, n as nat) == Some((v@, p as int)),
            None => dec_grants(s@, pos as int, n as nat) is None,
        },
{
    let mut v: Vec<(User, Permissions)> = Vec::new();
    let mut cur = pos;
    let mut i: u64 = 0;
    while i < n
        invariant
            i <= n,
            dec_grants(s@, pos as int, i as nat) == Some((v@, cur as int)),
        decreases n - i,
    {
        match read_grant(s, cur) {
            Some((grant, end)) => {
                v.push(grant);
                cur = end;
            },
            None => {
                proof {
                    assert(dec_grants(s@, pos as int, (i + 1) as nat) is None);
                    lemma_grants_stay_undecoded(s@, pos as int, (i + 1) as nat, n as nat);
                }
                return None;
            },
        }
        i += 1;
    }
    Some((v, cur))
}

fn read_policy(s: &[u8], pos: usize) -> (res: Option<(Policy, usize)>)
    ensures
        match res {
            Some((policy, p)) => dec_policy(s@, pos as int) == Some((policy@, p as int)),
            None => dec_policy(s@, pos as int) is None,
        },
{
    let (owner, pos1) = match read_user(s, pos) {
        Some(found) => found,
        None => { return None; },
    };
    let (n, pos2) = match read_u64(s, pos1) {
        Some(found) => found,
        None => { return None; },
    };
    let (permissions, pos3) = match read_grants(s, pos2, n) {
        Some(found) => found,
        None => { return None; },
    };
    Some((Policy { owner, permissions }, pos3))
}

fn read_entry(s: &[u8], pos: usize) -> (res: Option<(Entry, usize)>)
    ensures
        match res {
            Some((entry, p)) => dec_entry(s@, pos as int) == Some((entry@, p as int)),
            None => dec_entry(s@, pos as int) is None,
        },
{
    let (hash, pos1) = match read_array::<32>(s, pos) {
        Some(found) => found,
        None => { return None; },
    };
    let (value_len, pos2) = match read_u64(s, pos1) {
        Some(found) => found,
        None => { return None; },
    };
    let (value, pos3) = match read_bytes(s, pos2, value_len) {
        Some(found) => found,
        None => { return None; },
    };
    let (n, pos4) = match read_u64(s, pos3) {
        Some(found) => found,
        None => { return None; },
    };
    let (parents, pos5) = match read_hashes(s, pos4, n) {
        Some(found) => found,
        None => { return None; },
    };
    Some((Entry { hash: EntryHash(hash), value, parents }, pos5))
}

fn read_auth(s: &[u8], pos: usize) -> (res: Option<(DataAuthority, usize)>)
    ensures
        match res {
            Some((auth, p)) => dec_auth(s@, pos as int) == Some((auth, p as int)),
            None => dec_auth(s@, pos as int) is None,
        },
{
    let (key, pos1) = match read_array::<48>(s, pos) {
        Some(found) => found,
        None => { return None; },
    };
    let (sig, pos2) = match read_array::<96>(s, pos1) {
        Some(found) => found,
        None => { return None; },
    };
    Some((DataAuthority { public_key: PublicKey(key), signature: Signature(sig) }, pos2))
}

pub(crate) fn read_address(s: &[u8], pos: usize) -> (res: Option<(RegisterAddress, usize)>)
    ensures
        match res {
            Some((addr, p)) => dec_address(s@, pos as int) == Some((addr, p as int)),
            None => dec_address(s@, pos as int) is None,
        },
{
    let (name, pos1) = match read_array::<32>(s, pos) {
        Some(found) => found,
        None => { return None; },
    };
    let (tag, pos2) = match read_u64(s, pos1) {
        Some(found) => found,
        None => { return None; },
    };
    Some((RegisterAddress { name: XorName(name), tag }, pos2))
}

fn read_create(s: &[u8], pos: usize) -> (res: Option<(RegisterCmd, usize)>)
    ensures
        match res {
            Some((cmd, p)) => dec_create(s@, pos as int) == Some((cmd@, p as int)),
            None => dec_create(s@, pos as int) is None,
        },
{
    let (addr, pos1) = match read_address(s, pos) {
        Some(found) => found,
        None => { return None; },
    };
    let (policy, pos2) = match read_policy(s, pos1) {
        Some(found) => found,
        None => { return None; },
    };
    let (auth, pos3) = match read_auth(s, pos2) {
        Some(found) => found,
        None => { return None; },
    };
    let op = CreateRegister { name: addr.name, tag: addr.tag, policy };
    Some((RegisterCmd::Create(SignedRegisterCreate { op, auth }), pos3))
}

fn read_edit(s: &[u8], pos: usize) -> (res: Option<(RegisterCmd, usize)>)
    ensures
        match res {
            Some((cmd, p)) => dec_edit(s@, pos as int) == Some((cmd@, p as int)),
            None => dec_edit(s@, pos as int) is None,
        },
{
    let (address, pos1) = match read_address(s, pos) {
        Some(found) => found,
        None => { return None; },
    };
    let (entry, pos2) = match read_entry(s, pos1) {
        Some(found) => found,
        None => { return None; },
    };
    let (auth, pos3) = match read_auth(s, pos2) {
        Some(found) => found,
        None => { return None; },
    };
    let op = EditRegister { address, edit: RegisterOp { crdt_op: entry } };
    Some((RegisterCmd::Edit(SignedRegisterEdit { op, auth }), pos3))
}

impl RegisterCmd {
    /// Reads an operation from its encoding. Only bytes that are exactly
    /// the encoding of an operation are read; any others, such as an
    /// encoding with something behind it, are refused.
    pub fn deserialize(bytes: &[u8]) -> (res: Result<RegisterCmd>)
        ensures
            match res {
                Ok(cmd) => decoding(bytes@) == Some(cmd@) && cmd@.encoding() == bytes@,
                Err(e) => decoding(bytes@) is None && e is Serialization && forall|c: CmdView|
                    c.encodable() ==> #[trigger] c.encoding() != bytes@,
            },
    {
        proof {
            if decoding(bytes@) is Some {
                crate::roundtrip::lemma_encoding_of_decoding(bytes@);
            }
            assert forall|c: CmdView| c.encodable() && #[trigger] c.encoding() == bytes@ implies decoding(
                bytes@,
            ) == Some(c) by {
                crate::roundtrip::lemma_decoding_of_encoding(c);
            }
        }
        let (tag, p) = match read_byte(bytes, 0) {
            Some(found) => found,
            None => { return Err(not_an_operation()); },
        };
        let body = if tag == TAG_FIRST {
            read_create(bytes, p)
        } else if tag == TAG_SECOND {
            read_edit(bytes, p)
        } else {
            None
        };
        match body {
            Some((cmd, end)) => {
                if end == bytes.len() {
                    Ok(cmd)
                } else {
                    Err(not_an_operation())
                }
            },
            None => Err(not_an_operation()),
        }
    }
}

/// The error for bytes that hold no operation.
fn not_an_operation() -> (e: Error)
    ensures
        e is Serialization,
{
    Error::Serialization(String::from_str("the bytes are not the encoding of an operation"))
}

} // verus!

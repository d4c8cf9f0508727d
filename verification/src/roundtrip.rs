//! Decoding undoes encoding: what was written is what is read back.

use crate::address::RegisterAddress;
use crate::codec::{
    array_of, dec_address, dec_array, dec_auth, dec_bool, dec_entry, dec_grant, dec_grants,
    dec_hashes, dec_policy, dec_u64, dec_user, decoding, enc_auth, enc_bool, enc_entry,
    enc_grant, enc_grants, enc_policy, enc_user, TAG_SECOND,
};
use crate::entry::{spec_hashes_bytes, EntryHash, EntryView};
use crate::messages::{CmdView, DataAuthority};
use crate::policy::{Permissions, PolicyView, User};
use vstd::bytes::{
    lemma_auto_spec_u64_to_from_le_bytes, spec_u64_from_le_bytes, spec_u64_to_le_bytes,
};
use vstd::array::{spec_array_fill_for_copy_type, spec_array_update};
use vstd::prelude::*;

verus! {

/// Whether `part` stands in `s` at position `pos`.
pub open spec fn stands_at(s: Seq<u8>, pos: int, part: Seq<u8>) -> bool {
    &&& 0 <= pos
    &&& pos + part.len() <= s.len()
    &&& s.subrange(pos, pos + part.len()) == part
}

/// Where two parts stand one behind the other, each stands at its place.
pub proof fn lemma_stands_split(s: Seq<u8>, pos: int, a: Seq<u8>, b: Seq<u8>)
    requires
        stands_at(s, pos, a + b),
    ensures
        stands_at(s, pos, a),
        stands_at(s, pos + a.len(), b),
{
    let whole = s.subrange(pos, pos + (a + b).len());
    assert(s.subrange(pos, pos + a.len()) =~= a) by {
        assert forall|k: int| 0 <= k < a.len() implies s.subrange(pos, pos + a.len())[k] == a[k] by {
            assert(whole[k] == (a + b)[k]);
        }
    }
    assert(s.subrange(pos + a.len(), pos + a.len() + b.len()) =~= b) by {
        assert forall|k: int| 0 <= k < b.len() implies s.subrange(
            pos + a.len(),
            pos + a.len() + b.len(),
        )[k] == b[k] by {
            assert(whole[a.len() + k] == (a + b)[a.len() + k]);
        }
    }
}

pub proof fn lemma_array_of<const N: usize>(a: [u8; N])
    ensures
        array_of::<N>(a@) == a,
{
    let c = array_of::<N>(a@);
    assert(c@ == a@);
    assert(c =~= a);
}

pub proof fn lemma_dec_array<const N: usize>(s: Seq<u8>, pos: int, a: [u8; N])
    requires
        stands_at(s, pos, a@),
    ensures
        dec_array::<N>(s, pos) == Some((a, pos + N)),
{
    lemma_array_of(a);
}

pub proof fn lemma_dec_u64(s: Seq<u8>, pos: int, x: u64)
    requires
        stands_at(s, pos, spec_u64_to_le_bytes(x)),
    ensures
        dec_u64(s, pos) == Some((x, pos + 8)),
        spec_u64_to_le_bytes(x).len() == 8,
{
    lemma_auto_spec_u64_to_from_le_bytes();
}

pub proof fn lemma_dec_bool(s: Seq<u8>, pos: int, b: bool)
    requires
        stands_at(s, pos, enc_bool(b)),
    ensures
        dec_bool(s, pos) == Some((b, pos + 1)),
{
    assert(s.subrange(pos, pos + 1)[0] == enc_bool(b)[0]);
}

pub proof fn lemma_dec_user(s: Seq<u8>, pos: int, user: User)
    requires
        stands_at(s, pos, enc_user(user)),
    ensures
        dec_user(s, pos) == Some((user, pos + enc_user(user).len())),
{
    assert(s.subrange(pos, pos + enc_user(user).len())[0] == enc_user(user)[0]);
    match user {
        User::Anyone => {},
        User::Key(key) => {
            lemma_stands_split(s, pos, seq![TAG_SECOND], key.0@);
            lemma_dec_array::<48>(s, pos + 1, key.0);
        },
    }
}

pub proof fn lemma_dec_grant(s: Seq<u8>, pos: int, grant: (User, Permissions))
    requires
        stands_at(s, pos, enc_grant(grant)),
    ensures
        dec_grant(s, pos) == Some((grant, pos + enc_grant(grant).len())),
{
    let user = enc_user(grant.0);
    let read = enc_bool(grant.1.read);
    let write = enc_bool(grant.1.write);
    lemma_stands_split(s, pos, user + read, write);
    lemma_stands_split(s, pos, user, read);
    lemma_dec_user(s, pos, grant.0);
    lemma_dec_bool(s, pos + user.len(), grant.1.read);
    lemma_dec_bool(s, pos + user.len() + 1, grant.1.write);
}

pub proof fn lemma_dec_grants(s: Seq<u8>, pos: int, grants: Seq<(User, Permissions)>)
    requires
        stands_at(s, pos, enc_grants(grants)),
    ensures
        dec_grants(s, pos, grants.len()) == Some((grants, pos + enc_grants(grants).len())),
    decreases grants.len(),
{
    if grants.len() > 0 {
        let front = grants.drop_last();
        lemma_stands_split(s, pos, enc_grants(front), enc_grant(grants.last()));
        lemma_dec_grants(s, pos, front);
        lemma_dec_grant(s, pos + enc_grants(front).len(), grants.last());
        assert(front.push(grants.last()) =~= grants);
    } else {
        assert(grants =~= Seq::empty());
    }
}

pub proof fn lemma_dec_policy(s: Seq<u8>, pos: int, policy: PolicyView)
    requires
        stands_at(s, pos, enc_policy(policy)),
        policy.permissions.len() <= u64::MAX,
    ensures
        dec_policy(s, pos) == Some((policy, pos + enc_policy(policy).len())),
{
    let owner = enc_user(policy.owner);
    let count = spec_u64_to_le_bytes(policy.permissions.len() as u64);
    let grants = enc_grants(policy.permissions);
    lemma_stands_split(s, pos, owner + count, grants);
    lemma_stands_split(s, pos, owner, count);
    lemma_dec_user(s, pos, policy.owner);
    lemma_dec_u64(s, pos + owner.len(), policy.permissions.len() as u64);
    lemma_dec_grants(s, pos + owner.len() + 8, policy.permissions);
}

pub proof fn lemma_dec_hashes(s: Seq<u8>, pos: int, hashes: Seq<EntryHash>)
    requires
        stands_at(s, pos, spec_hashes_bytes(hashes)),
    ensures
        dec_hashes(s, pos, hashes.len() as int) == Some((hashes, pos + 32 * hashes.len())),
{
    let bytes = spec_hashes_bytes(hashes);
    let whole = s.subrange(pos, pos + bytes.len());
    let got = dec_hashes(s, pos, hashes.len() as int).unwrap().0;
    assert forall|i: int| 0 <= i < hashes.len() implies got[i] == hashes[i] by {
        let part = s.subrange(pos + 32 * i, pos + 32 * i + 32);
        assert(part =~= hashes[i].0@) by {
            assert forall|k: int| 0 <= k < 32 implies part[k] == hashes[i].0@[k] by {
                assert(whole[32 * i + k] == bytes[32 * i + k]);
                assert((32 * i + k) / 32 == i);
                assert((32 * i + k) % 32 == k);
            }
        }
        lemma_array_of(hashes[i].0);
    }
    assert(got =~= hashes);
}

pub proof fn lemma_dec_entry(s: Seq<u8>, pos: int, entry: EntryView)
    requires
        stands_at(s, pos, enc_entry(entry)),
        entry.value.len() <= u64::MAX,
        entry.parents.len() <= u64::MAX,
    ensures
        dec_entry(s, pos) == Some((entry, pos + enc_entry(entry).len())),
{
    let hash = entry.hash.0@;
    let value_len = spec_u64_to_le_bytes(entry.value.len() as u64);
    let count = spec_u64_to_le_bytes(entry.parents.len() as u64);
    let parents = spec_hashes_bytes(entry.parents);
    lemma_stands_split(s, pos, hash + value_len + entry.value + count, parents);
    lemma_stands_split(s, pos, hash + value_len + entry.value, count);
    lemma_stands_split(s, pos, hash + value_len, entry.value);
    lemma_stands_split(s, pos, hash, value_len);
    lemma_dec_array::<32>(s, pos, entry.hash.0);
    lemma_dec_u64(s, pos + 32, entry.value.len() as u64);
    lemma_dec_u64(s, pos + 40 + entry.value.len(), entry.parents.len() as u64);
    lemma_dec_hashes(s, pos + 48 + entry.value.len(), entry.parents);
}

pub proof fn lemma_dec_auth(s: Seq<u8>, pos: int, auth: DataAuthority)
    requires
        stands_at(s, pos, enc_auth(auth)),
    ensures
        dec_auth(s, pos) == Some((auth, pos + 144)),
{
    lemma_stands_split(s, pos, auth.public_key.0@, auth.signature.0@);
    lemma_dec_array::<48>(s, pos, auth.public_key.0);
    lemma_dec_array::<96>(s, pos + 48, auth.signature.0);
}

pub proof fn lemma_dec_address(s: Seq<u8>, pos: int, addr: RegisterAddress)
    requires
        stands_at(s, pos, addr.name.0@ + spec_u64_to_le_bytes(addr.tag)),
    ensures
        dec_address(s, pos) == Some((addr, pos + 40)),
{
    lemma_stands_split(s, pos, addr.name.0@, spec_u64_to_le_bytes(addr.tag));
    lemma_dec_array::<32>(s, pos, addr.name.0);
    lemma_dec_u64(s, pos + 32, addr.tag);
}

/// Bytes that begin with the encoding of an operation decode to that
/// operation if they end with it, and to nothing if they go on.
pub proof fn lemma_decoding_of_front(s: Seq<u8>, cmd: CmdView)
    requires
        cmd.encodable(),
        stands_at(s, 0, cmd.encoding()),
    ensures
        decoding(s) == if s.len() == cmd.encoding().len() {
            Some(cmd)
        } else {
            None
        },
{
    let tag = seq![cmd.tag()];
    let payload = cmd.payload();
    let auth = enc_auth(cmd.auth());
    assert(stands_at(s, 0, tag + payload + auth));
    lemma_stands_split(s, 0, tag + payload, auth);
    lemma_stands_split(s, 0, tag, payload);
    assert(s.subrange(0, 1)[0] == tag[0]);
    assert(s[0] == cmd.tag());
    lemma_auto_spec_u64_to_from_le_bytes();
    match cmd {
        CmdView::Create { name, tag, policy, auth } => {
            let addr = RegisterAddress { name, tag };
            let head = name.0@ + spec_u64_to_le_bytes(tag);
            lemma_stands_split(s, 1, head, enc_policy(policy));
            lemma_dec_address(s, 1, addr);
            lemma_dec_policy(s, 41, policy);
            lemma_dec_auth(s, 41 + enc_policy(policy).len() as int, auth);
        },
        CmdView::Edit { address, entry, auth } => {
            let head = address.name.0@ + spec_u64_to_le_bytes(address.tag);
            lemma_stands_split(s, 1, head, enc_entry(entry));
            lemma_dec_address(s, 1, address);
            lemma_dec_entry(s, 41, entry);
            lemma_dec_auth(s, 41 + enc_entry(entry).len() as int, auth);
        },
    }
}

/// Reading back the encoding of an operation gives that operation.
pub proof fn lemma_decoding_of_encoding(cmd: CmdView)
    requires
        cmd.encodable(),
    ensures
        decoding(cmd.encoding()) == Some(cmd),
{
    let s = cmd.encoding();
    assert(s.subrange(0, s.len() as int) =~= s);
    lemma_decoding_of_front(s, cmd);
}

/// Bytes that go on behind the encoding of an operation are refused.
pub proof fn law_trailing_bytes_refused(cmd: CmdView, extra: Seq<u8>)
    requires
        cmd.encodable(),
        extra.len() > 0,
    ensures
        decoding(cmd.encoding() + extra) is None,
{
    let s = cmd.encoding() + extra;
    assert(s.subrange(0, cmd.encoding().len() as int) =~= cmd.encoding());
    lemma_decoding_of_front(s, cmd);
}

/// There is an array for the first `k` of any `N` bytes.
proof fn lemma_array_for<const N: usize>(bytes: Seq<u8>, k: nat) -> (a: [u8; N])
    requires
        bytes.len() == N,
        k <= N,
    ensures
        forall|i: int| 0 <= i < k ==> a@[i] == bytes[i],
    decreases k,
{
    if k == 0 {
        spec_array_fill_for_copy_type::<u8, N>(0u8)
    } else {
        let before = lemma_array_for::<N>(bytes, (k - 1) as nat);
        let a = spec_array_update(before, k - 1, bytes[k - 1]);
        assert(a@ == before@.update(k - 1, bytes[k - 1]));
        a
    }
}

/// The array of `N` bytes holds just those bytes.
pub proof fn lemma_array_holds<const N: usize>(bytes: Seq<u8>)
    requires
        bytes.len() == N,
    ensures
        array_of::<N>(bytes)@ == bytes,
{
    let a = lemma_array_for::<N>(bytes, N as nat);
    assert(a@ =~= bytes);
}

pub proof fn lemma_read_array<const N: usize>(s: Seq<u8>, pos: int)
    requires
        dec_array::<N>(s, pos) is Some,
    ensures
        dec_array::<N>(s, pos).unwrap().1 == pos + N,
        stands_at(s, pos, dec_array::<N>(s, pos).unwrap().0@),
{
    lemma_array_holds::<N>(s.subrange(pos, pos + N));
}

pub proof fn lemma_read_u64(s: Seq<u8>, pos: int)
    requires
        dec_u64(s, pos) is Some,
    ensures
        dec_u64(s, pos).unwrap().1 == pos + 8,
        spec_u64_to_le_bytes(dec_u64(s, pos).unwrap().0).len() == 8,
        stands_at(s, pos, spec_u64_to_le_bytes(dec_u64(s, pos).unwrap().0)),
{
    lemma_auto_spec_u64_to_from_le_bytes();
    let part = s.subrange(pos, pos + 8);
    assert(spec_u64_to_le_bytes(spec_u64_from_le_bytes(part)) == part);
}

pub proof fn lemma_read_bool(s: Seq<u8>, pos: int)
    requires
        dec_bool(s, pos) is Some,
    ensures
        dec_bool(s, pos).unwrap().1 == pos + 1,
        stands_at(s, pos, enc_bool(dec_bool(s, pos).unwrap().0)),
{
    assert(s.subrange(pos, pos + 1) =~= enc_bool(dec_bool(s, pos).unwrap().0));
}

/// Where two parts stand one behind the other, they stand there together.
pub proof fn lemma_stands_join(s: Seq<u8>, pos: int, a: Seq<u8>, b: Seq<u8>)
    requires
        stands_at(s, pos, a),
        stands_at(s, pos + a.len(), b),
    ensures
        stands_at(s, pos, a + b),
{
    assert(s.subrange(pos, pos + (a + b).len()) =~= a + b) by {
        assert forall|k: int| 0 <= k < (a + b).len() implies s.subrange(
            pos,
            pos + (a + b).len(),
        )[k] == (a + b)[k] by {
            if k < a.len() {
                assert(s.subrange(pos, pos + a.len())[k] == a[k]);
            } else {
                assert(s.subrange(pos + a.len(), pos + a.len() + b.len())[k - a.len()] == b[k
                    - a.len()]);
            }
        }
    }
}

pub proof fn lemma_read_user(s: Seq<u8>, pos: int)
    requires
        dec_user(s, pos) is Some,
    ensures
        dec_user(s, pos).unwrap().1 == pos + enc_user(dec_user(s, pos).unwrap().0).len(),
        stands_at(s, pos, enc_user(dec_user(s, pos).unwrap().0)),
{
    let user = dec_user(s, pos).unwrap().0;
    assert(s.subrange(pos, pos + 1) =~= seq![s[pos]]);
    match user {
        User::Anyone => {},
        User::Key(key) => {
            lemma_read_array::<48>(s, pos + 1);
            lemma_stands_join(s, pos, seq![TAG_SECOND], key.0@);
        },
    }
}

pub proof fn lemma_read_grant(s: Seq<u8>, pos: int)
    requires
        dec_grant(s, pos) is Some,
    ensures
        dec_grant(s, pos).unwrap().1 == pos + enc_grant(dec_grant(s, pos).unwrap().0).len(),
        stands_at(s, pos, enc_grant(dec_grant(s, pos).unwrap().0)),
{
    let grant = dec_grant(s, pos).unwrap().0;
    let pos1 = dec_user(s, pos).unwrap().1;
    lemma_read_user(s, pos);
    lemma_read_bool(s, pos1);
    lemma_read_bool(s, pos1 + 1);
    lemma_stands_join(s, pos, enc_user(grant.0), enc_bool(grant.1.read));
    lemma_stands_join(s, pos, enc_user(grant.0) + enc_bool(grant.1.read), enc_bool(grant.1.write));
}

pub proof fn lemma_read_grants(s: Seq<u8>, pos: int, n: nat)
    requires
        dec_grants(s, pos, n) is Some,
        0 <= pos <= s.len(),
    ensures
        dec_grants(s, pos, n).unwrap().0.len() == n,
        dec_grants(s, pos, n).unwrap().1 == pos + enc_grants(dec_grants(s, pos, n).unwrap().0).len(),
        stands_at(s, pos, enc_grants(dec_grants(s, pos, n).unwrap().0)),
    decreases n,
{
    let grants = dec_grants(s, pos, n).unwrap().0;
    if n > 0 {
        let front = dec_grants(s, pos, (n - 1) as nat).unwrap().0;
        let p = dec_grants(s, pos, (n - 1) as nat).unwrap().1;
        lemma_read_grants(s, pos, (n - 1) as nat);
        lemma_read_grant(s, p);
        assert(grants.drop_last() =~= front);
        lemma_stands_join(s, pos, enc_grants(front), enc_grant(grants.last()));
    } else {
        assert(s.subrange(pos, pos) =~= Seq::<u8>::empty());
    }
}

pub proof fn lemma_read_policy(s: Seq<u8>, pos: int)
    requires
        dec_policy(s, pos) is Some,
    ensures
        dec_policy(s, pos).unwrap().1 == pos + enc_policy(dec_policy(s, pos).unwrap().0).len(),
        stands_at(s, pos, enc_policy(dec_policy(s, pos).unwrap().0)),
        dec_policy(s, pos).unwrap().0.permissions.len() <= u64::MAX,
{
    let policy = dec_policy(s, pos).unwrap().0;
    let pos1 = dec_user(s, pos).unwrap().1;
    let n = dec_u64(s, pos1).unwrap().0;
    lemma_read_user(s, pos);
    lemma_read_u64(s, pos1);
    lemma_read_grants(s, pos1 + 8, n as nat);
    let owner = enc_user(policy.owner);
    let count = spec_u64_to_le_bytes(n);
    assert(policy.permissions.len() as u64 == n);
    assert(pos1 == pos + owner.len());
    lemma_stands_join(s, pos, owner, count);
    assert((owner + count).len() == owner.len() + 8);
    lemma_stands_join(s, pos, owner + count, enc_grants(policy.permissions));
}

pub proof fn lemma_read_hashes(s: Seq<u8>, pos: int, n: int)
    requires
        dec_hashes(s, pos, n) is Some,
    ensures
        dec_hashes(s, pos, n).unwrap().0.len() == n,
        dec_hashes(s, pos, n).unwrap().1 == pos + 32 * n,
        stands_at(s, pos, spec_hashes_bytes(dec_hashes(s, pos, n).unwrap().0)),
{
    let hashes = dec_hashes(s, pos, n).unwrap().0;
    let bytes = spec_hashes_bytes(hashes);
    assert(s.subrange(pos, pos + bytes.len()) =~= bytes) by {
        assert forall|k: int| 0 <= k < bytes.len() implies s.subrange(pos, pos + bytes.len())[k]
            == bytes[k] by {
            let i = k / 32;
            let part = s.subrange(pos + 32 * i, pos + 32 * i + 32);
            lemma_array_holds::<32>(part);
            assert(hashes[i].0@ == part);
            assert(part[k % 32] == s[pos + 32 * i + k % 32]);
        }
    }
}

pub proof fn lemma_read_entry(s: Seq<u8>, pos: int)
    requires
        dec_entry(s, pos) is Some,
    ensures
        dec_entry(s, pos).unwrap().1 == pos + enc_entry(dec_entry(s, pos).unwrap().0).len(),
        stands_at(s, pos, enc_entry(dec_entry(s, pos).unwrap().0)),
        dec_entry(s, pos).unwrap().0.value.len() <= u64::MAX,
        dec_entry(s, pos).unwrap().0.parents.len() <= u64::MAX,
{
    let entry = dec_entry(s, pos).unwrap().0;
    let value_len = dec_u64(s, pos + 32).unwrap().0;
    let pos3 = pos + 40 + value_len;
    let n = dec_u64(s, pos3).unwrap().0;
    lemma_read_array::<32>(s, pos);
    lemma_read_u64(s, pos + 32);
    lemma_read_u64(s, pos3);
    lemma_read_hashes(s, pos3 + 8, n as int);
    let hash = entry.hash.0@;
    let len = spec_u64_to_le_bytes(value_len);
    let count = spec_u64_to_le_bytes(n);
    assert(entry.value.len() as u64 == value_len);
    assert(entry.parents.len() as u64 == n);
    assert(stands_at(s, pos + 40, entry.value));
    assert((hash + len).len() == 40);
    assert((hash + len + entry.value).len() == 40 + value_len);
    assert((hash + len + entry.value + count).len() == 48 + value_len);
    lemma_stands_join(s, pos, hash, len);
    lemma_stands_join(s, pos, hash + len, entry.value);
    lemma_stands_join(s, pos, hash + len + entry.value, count);
    lemma_stands_join(s, pos, hash + len + entry.value + count, spec_hashes_bytes(entry.parents));
}

pub proof fn lemma_read_auth(s: Seq<u8>, pos: int)
    requires
        dec_auth(s, pos) is Some,
    ensures
        dec_auth(s, pos).unwrap().1 == pos + 144,
        stands_at(s, pos, enc_auth(dec_auth(s, pos).unwrap().0)),
{
    let auth = dec_auth(s, pos).unwrap().0;
    lemma_read_array::<48>(s, pos);
    lemma_read_array::<96>(s, pos + 48);
    lemma_stands_join(s, pos, auth.public_key.0@, auth.signature.0@);
}

pub proof fn lemma_read_address(s: Seq<u8>, pos: int)
    requires
        dec_address(s, pos) is Some,
    ensures
        dec_address(s, pos).unwrap().1 == pos + 40,
        stands_at(
            s,
            pos,
            dec_address(s, pos).unwrap().0.name.0@ + spec_u64_to_le_bytes(
                dec_address(s, pos).unwrap().0.tag,
            ),
        ),
{
    let addr = dec_address(s, pos).unwrap().0;
    lemma_read_array::<32>(s, pos);
    lemma_read_u64(s, pos + 32);
    lemma_stands_join(s, pos, addr.name.0@, spec_u64_to_le_bytes(addr.tag));
}

/// What decodes to an operation is the encoding of that operation.
pub proof fn lemma_encoding_of_decoding(s: Seq<u8>)
    requires
        decoding(s) is Some,
    ensures
        decoding(s).unwrap().encodable(),
        decoding(s).unwrap().encoding() == s,
{
    let cmd = decoding(s).unwrap();
    assert(s.subrange(0, 1) =~= seq![cmd.tag()]);
    lemma_auto_spec_u64_to_from_le_bytes();
    lemma_read_address(s, 1);
    match cmd {
        CmdView::Create { name, tag, policy, auth } => {
            lemma_read_policy(s, 41);
            lemma_read_auth(s, 41 + enc_policy(policy).len() as int);
            let head = name.0@ + spec_u64_to_le_bytes(tag);
            assert(head.len() == 40);
            lemma_stands_join(s, 1, head, enc_policy(policy));
            assert(cmd.payload() == head + enc_policy(policy));
        },
        CmdView::Edit { address, entry, auth } => {
            lemma_read_entry(s, 41);
            lemma_read_auth(s, 41 + enc_entry(entry).len() as int);
            let head = address.name.0@ + spec_u64_to_le_bytes(address.tag);
            assert(head.len() == 40);
            lemma_stands_join(s, 1, head, enc_entry(entry));
            assert(cmd.payload() == head + enc_entry(entry));
        },
    }
    lemma_stands_join(s, 0, seq![cmd.tag()], cmd.payload());
    assert((seq![cmd.tag()] + cmd.payload()).len() == 1 + cmd.payload().len());
    lemma_stands_join(s, 0, seq![cmd.tag()] + cmd.payload(), enc_auth(cmd.auth()));
    assert(s.subrange(0, s.len() as int) =~= s);
}

/// Decoding is the inverse of encoding: bytes decode to an operation just
/// when they are its encoding.
pub proof fn law_decoding_inverts_encoding(s: Seq<u8>, cmd: CmdView)
    ensures
        decoding(s) == Some(cmd) <==> cmd.encodable() && cmd.encoding() == s,
{
    if decoding(s) == Some(cmd) {
        lemma_encoding_of_decoding(s);
    }
    if cmd.encodable() && cmd.encoding() == s {
        lemma_decoding_of_encoding(cmd);
    }
}

} // verus!

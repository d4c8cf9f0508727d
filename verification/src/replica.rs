//! The byte format of a register's history, as one store hands it to
//! another: the address, then the operations, each behind its length.

use crate::address::RegisterAddress;
use crate::codec::{
    dec_address, dec_bytes, dec_u64, decoding, read_address, read_bytes, read_u64,
};
use crate::error::{Error, Result};
use crate::messages::{log_view, CmdView, RegisterCmd, ReplicatedRegisterLog};
use crate::roundtrip::{
    lemma_dec_address, lemma_dec_u64, lemma_decoding_of_encoding, lemma_stands_split, stands_at,
};
use vstd::bytes::{lemma_auto_spec_u64_to_from_le_bytes, spec_u64_to_le_bytes, u64_to_le_bytes};
use vstd::prelude::*;
use vstd::string::StringExecFns;

verus! {

/// A register's history as a mathematical value.
pub struct ReplicaView {
    pub address: RegisterAddress,
    pub op_log: Seq<CmdView>,
}

impl View for ReplicatedRegisterLog {
    type V = ReplicaView;

    open spec fn view(&self) -> ReplicaView {
        ReplicaView { address: self.address, op_log: log_view(self.op_log@) }
    }
}

/// One operation of a history: the length of its encoding, then the
/// encoding.
pub open spec fn enc_op(cmd: CmdView) -> Seq<u8> {
    spec_u64_to_le_bytes(cmd.encoding().len() as u64) + cmd.encoding()
}

pub open spec fn enc_ops(ops: Seq<CmdView>) -> Seq<u8>
    decreases ops.len(),
{
    if ops.len() == 0 {
        Seq::empty()
    } else {
        enc_ops(ops.drop_last()) + enc_op(ops.last())
    }
}

pub open spec fn dec_op(s: Seq<u8>, pos: int) -> Option<(CmdView, int)> {
    match dec_u64(s, pos) {
        Some((len, pos1)) => match dec_bytes(s, pos1, len as int) {
            Some((bytes, pos2)) => match decoding(bytes) {
                Some(cmd) => Some((cmd, pos2)),
                None => None,
            },
            None => None,
        },
        None => None,
    }
}

pub open spec fn dec_ops(s: Seq<u8>, pos: int, n: nat) -> Option<(Seq<CmdView>, int)>
    decreases n,
{
    if n == 0 {
        Some((Seq::empty(), pos))
    } else {
        match dec_ops(s, pos, (n - 1) as nat) {
            Some((front, p)) => match dec_op(s, p) {
                Some((cmd, end)) => Some((front.push(cmd), end)),
                None => None,
            },
            None => None,
        }
    }
}

impl ReplicaView {
    /// The encoding of the history: name and tag of the address, the number
    /// of operations, then the operations.
    pub open spec fn encoding(self) -> Seq<u8> {
        self.address.name.0@ + spec_u64_to_le_bytes(self.address.tag) + spec_u64_to_le_bytes(
            self.op_log.len() as u64,
        ) + enc_ops(self.op_log)
    }

    /// Whether every length in the history fits the 64 bits that the
    /// encoding has for it. This holds of every history in memory.
    pub open spec fn encodable(self) -> bool {
        &&& self.op_log.len() <= u64::MAX
        &&& forall|i: int|
            0 <= i < self.op_log.len() ==> (#[trigger] self.op_log[i]).encodable()
                && self.op_log[i].encoding().len() <= u64::MAX
    }
}

/// The history that a byte string stands for, provided that nothing
/// follows it.
pub open spec fn decoding_replica(s: Seq<u8>) -> Option<ReplicaView> {
    match dec_address(s, 0) {
        Some((address, pos1)) => match dec_u64(s, pos1) {
            Some((n, pos2)) => match dec_ops(s, pos2, n as nat) {
                Some((op_log, end)) => if end == s.len() {
                    Some(ReplicaView { address, op_log })
                } else {
                    None
                },
                None => None,
            },
            None => None,
        },
        None => None,
    }
}

pub proof fn lemma_dec_op(s: Seq<u8>, pos: int, cmd: CmdView)
    requires
        stands_at(s, pos, enc_op(cmd)),
        cmd.encodable(),
        cmd.encoding().len() <= u64::MAX,
    ensures
        dec_op(s, pos) == Some((cmd, pos + enc_op(cmd).len())),
{
    let len = spec_u64_to_le_bytes(cmd.encoding().len() as u64);
    lemma_stands_split(s, pos, len, cmd.encoding());
    lemma_dec_u64(s, pos, cmd.encoding().len() as u64);
    lemma_decoding_of_encoding(cmd);
}

pub proof fn lemma_dec_ops(s: Seq<u8>, pos: int, ops: Seq<CmdView>)
    requires
        stands_at(s, pos, enc_ops(ops)),
        forall|i: int|
            0 <= i < ops.len() ==> (#[trigger] ops[i]).encodable() && ops[i].encoding().len()
                <= u64::MAX,
    ensures
        dec_ops(s, pos, ops.len()) == Some((ops, pos + enc_ops(ops).len())),
    decreases ops.len(),
{
    if ops.len() > 0 {
        let front = ops.drop_last();
        lemma_stands_split(s, pos, enc_ops(front), enc_op(ops.last()));
        assert forall|i: int| 0 <= i < front.len() implies (#[trigger] front[i]).encodable()
            && front[i].encoding().len() <= u64::MAX by {
            assert(front[i] == ops[i]);
        }
        lemma_dec_ops(s, pos, front);
        assert(ops[ops.len() - 1] == ops.last());
        lemma_dec_op(s, pos + enc_ops(front).len(), ops.last());
        assert(front.push(ops.last()) =~= ops);
    } else {
        assert(ops =~= Seq::empty());
    }
}

/// Reading back the encoding of a history gives that history.
pub proof fn lemma_decoding_of_replica(replica: ReplicaView)
    requires
        replica.encodable(),
    ensures
        decoding_replica(replica.encoding()) == Some(replica),
{
    let s = replica.encoding();
    let head = replica.address.name.0@ + spec_u64_to_le_bytes(replica.address.tag);
    let count = spec_u64_to_le_bytes(replica.op_log.len() as u64);
    let ops = enc_ops(replica.op_log);
    assert(s.subrange(0, s.len() as int) =~= s);
    assert(stands_at(s, 0, head + count + ops));
    lemma_auto_spec_u64_to_from_le_bytes();
    lemma_stands_split(s, 0, head + count, ops);
    lemma_stands_split(s, 0, head, count);
    lemma_dec_address(s, 0, replica.address);
    lemma_dec_u64(s, head.len() as int, replica.op_log.len() as u64);
    lemma_dec_ops(s, (head + count).len() as int, replica.op_log);
}

/// Once the operations stop decoding, no longer list decodes either.
proof fn lemma_ops_stay_undecoded(s: Seq<u8>, pos: int, i: nat, n: nat)
    requires
        i <= n,
        dec_ops(s, pos, i) is None,
    ensures
        dec_ops(s, pos, n) is None,
    decreases n,
{
    if n > i {
        lemma_ops_stay_undecoded(s, pos, i, (n - 1) as nat);
    }
}

/// The error for bytes that hold no history.
fn not_a_history() -> (e: Error)
    ensures
        e is Serialization,
{
    Error::Serialization(String::from_str("the bytes are not the encoding of a register's history"))
}

impl ReplicatedRegisterLog {
    /// The encoding of the history. Reading it back gives the history.
    pub fn serialize(&self) -> (bytes: Vec<u8>)
        ensures
            bytes@ == self@.encoding(),
            self@.encodable(),
            decoding_replica(bytes@) == Some(self@),
    {
        let mut out: Vec<u8> = Vec::new();
        out.extend_from_slice(self.address.name.0.as_slice());
        let tag = u64_to_le_bytes(self.address.tag);
        out.extend_from_slice(tag.as_slice());
        let count = u64_to_le_bytes(self.op_log.len() as u64);
        out.extend_from_slice(count.as_slice());
        let ghost head = out@;
        let ghost ops = log_view(self.op_log@);
        let mut i: usize = 0;
        assert(out@ =~= head + enc_ops(ops.subrange(0, 0)));
        while i < self.op_log.len()
            invariant
                i <= self.op_log.len(),
                ops == log_view(self.op_log@),
                out@ == head + enc_ops(ops.subrange(0, i as int)),
                forall|k: int|
                    0 <= k < i ==> (#[trigger] ops[k]).encodable() && ops[k].encoding().len()
                        <= u64::MAX,
            decreases self.op_log.len() - i,
        {
            let encoded = self.op_log[i].serialize();
            let len = u64_to_le_bytes(encoded.len() as u64);
            out.extend_from_slice(len.as_slice());
            out.extend_from_slice(encoded.as_slice());
            proof {
                self.op_log[i as int].lemma_encodable();
                let next = ops.subrange(0, i as int + 1);
                assert(next.drop_last() =~= ops.subrange(0, i as int));
                assert(next.last() == ops[i as int]);
                assert(out@ =~= head + enc_ops(next));
            }
            i += 1;
        }
        proof {
            assert(ops.subrange(0, ops.len() as int) =~= ops);
            assert(out@ =~= self@.encoding());
            lemma_decoding_of_replica(self@);
        }
        out
    }

    /// Reads a history from its encoding. Bytes that are no history's
    /// encoding, or that go on behind one, are refused.
    pub fn deserialize(bytes: &[u8]) -> (res: Result<ReplicatedRegisterLog>)
        ensures
            match res {
                Ok(replica) => decoding_replica(bytes@) == Some(replica@),
                Err(e) => decoding_replica(bytes@) is None && e is Serialization,
            },
    {
        let (address, pos1) = match read_address(bytes, 0) {
            Some(found) => found,
            None => { return Err(not_a_history()); },
        };
        let (n, pos2) = match read_u64(bytes, pos1) {
            Some(found) => found,
            None => { return Err(not_a_history()); },
        };
        let mut op_log: Vec<RegisterCmd> = Vec::new();
        let mut cur = pos2;
        let mut i: u64 = 0;
        assert(log_view(op_log@) =~= Seq::<CmdView>::empty());
        while i < n
            invariant
                i <= n,
                dec_address(bytes@, 0) == Some((address, pos1 as int)),
                dec_u64(bytes@, pos1 as int) == Some((n, pos2 as int)),
                dec_ops(bytes@, pos2 as int, i as nat) == Some((log_view(op_log@), cur as int)),
            decreases n - i,
        {
            let ghost before = log_view(op_log@);
            let step = match read_u64(bytes, cur) {
                Some((len, q1)) => match read_bytes(bytes, q1, len) {
                    Some((encoded, q2)) => match RegisterCmd::deserialize(encoded.as_slice()) {
                        Ok(cmd) => Some((cmd, q2)),
                        Err(_) => None,
                    },
                    None => None,
                },
                None => None,
            };
            match step {
                Some((cmd, end)) => {
                    let ghost view = cmd@;
                    op_log.push(cmd);
                    cur = end;
                    assert(log_view(op_log@) =~= before.push(view));
                },
                None => {
                    proof {
                        assert(dec_ops(bytes@, pos2 as int, (i + 1) as nat) is None);
                        lemma_ops_stay_undecoded(bytes@, pos2 as int, (i + 1) as nat, n as nat);
                    }
                    return Err(not_a_history());
                },
            }
            i += 1;
        }
        if cur == bytes.len() {
            Ok(ReplicatedRegisterLog { address, op_log })
        } else {
            Err(not_a_history())
        }
    }
}

} // verus!

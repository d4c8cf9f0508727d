//! Convergence: the register that a set of operations leads to does not
//! depend on the order in which they come.

use crate::codec::decoding;
use crate::entry::{EntryHash, EntryView};
use crate::error::{Error, Result};
use crate::laws::{
    faithful, lemma_creation_is_found, lemma_decoded_holds, lemma_decoded_log_push,
    lemma_first_creation_push, lemma_replay_keeps, lemma_replay_push,
};
use crate::messages::CmdView;
use crate::model::{
    absorbed, checked_replay, created, decoded_log, file_of, first_creation, has_file, loaded,
    op_id, persisted, replay, signed, try_apply, updated, written, FileView, StoredView,
};
use crate::policy::{Action, User};
use crate::register::RegisterView;
use crate::roundtrip::lemma_decoding_of_encoding;
use vstd::prelude::*;

verus! {

/// Whether an operation is well made: its signature matches, and an edit
/// goes by the hash of its content.
pub open spec fn well_made(cmd: CmdView) -> bool {
    &&& signed(cmd)
    &&& cmd is Edit ==> cmd->entry.hash_matches()
}

/// Whether two operations go together: they are aimed at the same address;
/// two creations make the same register; a creation lets the signer of an
/// edit write; and two edits under one hash are the same edit.
pub open spec fn compatible(a: CmdView, b: CmdView) -> bool {
    &&& a.dst() == b.dst()
    &&& (a is Create && b is Create) ==> created(a) == created(b)
    &&& (a is Create && b is Edit) ==> a->policy.verdict(
        User::Key(b.auth().public_key),
        Action::Write,
    ) is Ok
    &&& (a is Edit && b is Edit && a->entry.hash == b->entry.hash) ==> a->entry == b->entry
}

/// Whether the operations are valid operations for one register: each is
/// well made, and any two go together.
pub open spec fn valid_set(ops: Seq<CmdView>) -> bool {
    &&& forall|c: CmdView| #[trigger] ops.contains(c) ==> well_made(c)
    &&& forall|c: CmdView, d: CmdView|
        #[trigger] ops.contains(c) && #[trigger] ops.contains(d) ==> compatible(c, d)
}

/// Whether two logs hold the same operations, in whatever order and number.
pub open spec fn same_operations(a: Seq<CmdView>, b: Seq<CmdView>) -> bool {
    forall|c: CmdView|
        #![trigger a.contains(c)]
        #![trigger b.contains(c)]
        a.contains(c) <==> b.contains(c)
}

/// What a register knows after the edits of a log were accepted in turn.
pub open spec fn grown(known: Map<EntryHash, EntryView>, log: Seq<CmdView>) -> Map<
    EntryHash,
    EntryView,
>
    decreases log.len(),
{
    if log.len() == 0 {
        known
    } else {
        let so_far = grown(known, log.drop_last());
        match log.last() {
            CmdView::Edit { entry, .. } => if so_far.contains_key(entry.hash) {
                so_far
            } else {
                so_far.insert(entry.hash, entry)
            },
            CmdView::Create { .. } => so_far,
        }
    }
}

/// The register that a log rebuilds: that of its first creation, with
/// every edit of the log replayed.
pub open spec fn rebuilt(log: Seq<CmdView>) -> Option<Result<RegisterView>> {
    match first_creation(log) {
        Some(cmd) => Some(replay(created(cmd), log)),
        None => None,
    }
}

/// Where every edit goes by the hash of its content, a replay accepts them
/// all.
pub proof fn lemma_replay_accepts_all(register: RegisterView, log: Seq<CmdView>)
    requires
        forall|c: CmdView| #[trigger] log.contains(c) ==> well_made(c),
    ensures
        replay(register, log) == Ok::<RegisterView, Error>(
            RegisterView { known: grown(register.known, log), ..register },
        ),
    decreases log.len(),
{
    if log.len() > 0 {
        let front = log.drop_last();
        assert forall|c: CmdView| #[trigger] front.contains(c) implies well_made(c) by {
            let i = choose|i: int| 0 <= i < front.len() && front[i] == c;
            assert(log[i] == c);
            assert(log.contains(c));
        }
        lemma_replay_accepts_all(register, front);
        assert(log.contains(log.last())) by {
            assert(log[log.len() - 1] == log.last());
        }
    }
}

/// Under one hash a register that started empty knows the edit of the log
/// that goes by it, whichever came first.
pub proof fn lemma_grown_holds(log: Seq<CmdView>)
    requires
        valid_set(log),
    ensures
        forall|h: EntryHash| #[trigger]
            grown(Map::empty(), log).contains_key(h) ==> exists|i: int|
                0 <= i < log.len() && (#[trigger] log[i]) is Edit && log[i]->entry.hash == h,
        forall|i: int|
            0 <= i < log.len() && (#[trigger] log[i]) is Edit ==> grown(
                Map::empty(),
                log,
            ).contains_key(log[i]->entry.hash) && grown(Map::empty(), log)[log[i]->entry.hash]
                == log[i]->entry,
    decreases log.len(),
{
    let all = grown(Map::empty(), log);
    if log.len() > 0 {
        let front = log.drop_last();
        let last = log.last();
        let so_far = grown(Map::empty(), front);
        assert(valid_set(front)) by {
            assert forall|c: CmdView| #[trigger] front.contains(c) implies log.contains(c) by {
                let i = choose|i: int| 0 <= i < front.len() && front[i] == c;
                assert(log[i] == c);
            }
        }
        lemma_grown_holds(front);
        assert forall|h: EntryHash| #[trigger] all.contains_key(h) implies exists|i: int|
            0 <= i < log.len() && (#[trigger] log[i]) is Edit && log[i]->entry.hash == h by {
            if so_far.contains_key(h) {
                let i = choose|i: int|
                    0 <= i < front.len() && (#[trigger] front[i]) is Edit && front[i]->entry.hash
                        == h;
                assert(log[i] == front[i]);
            } else {
                assert(log[log.len() - 1] == last);
            }
        }
        assert forall|i: int| 0 <= i < log.len() && (#[trigger] log[i]) is Edit implies all.contains_key(
            log[i]->entry.hash,
        ) && all[log[i]->entry.hash] == log[i]->entry by {
            let h = log[i]->entry.hash;
            if i < front.len() {
                assert(front[i] == log[i]);
                assert(so_far.contains_key(h) && so_far[h] == log[i]->entry);
            } else {
                if so_far.contains_key(h) {
                    let j = choose|j: int|
                        0 <= j < front.len() && (#[trigger] front[j]) is Edit
                            && front[j]->entry.hash == h;
                    assert(log[j] == front[j]);
                    assert(log.contains(log[j]));
                    assert(log.contains(log[i]));
                    assert(compatible(log[j], log[i]));
                }
            }
        }
    }
}

/// The first creation of a log is a creation of the log.
pub proof fn lemma_first_creation_is_there(log: Seq<CmdView>)
    requires
        first_creation(log) is Some,
    ensures
        first_creation(log).unwrap() is Create,
        log.contains(first_creation(log).unwrap()),
    decreases log.len(),
{
    if log.len() > 0 {
        let front = log.drop_last();
        if first_creation(front) is Some {
            lemma_first_creation_is_there(front);
            let i = choose|i: int| 0 <= i < front.len() && front[i] == first_creation(front).unwrap();
            assert(log[i] == front[i]);
        } else {
            assert(log[log.len() - 1] == log.last());
        }
    }
}

/// Order independence of loading: two logs that hold the same valid
/// operations rebuild the same register, whatever the order of either.
pub proof fn law_rebuilt_from_any_order(a: Seq<CmdView>, b: Seq<CmdView>)
    requires
        valid_set(a),
        same_operations(a, b),
    ensures
        rebuilt(a) == rebuilt(b),
        rebuilt(a) matches Some(res) ==> res is Ok,
{
    assert(valid_set(b));
    if first_creation(a) is Some {
        lemma_first_creation_is_there(a);
        let ca = first_creation(a).unwrap();
        let j = choose|j: int| 0 <= j < b.len() && b[j] == ca;
        lemma_creation_is_found(b, j);
    }
    if first_creation(b) is Some {
        lemma_first_creation_is_there(b);
        let cb = first_creation(b).unwrap();
        let j = choose|j: int| 0 <= j < a.len() && a[j] == cb;
        lemma_creation_is_found(a, j);
    }
    if first_creation(a) is Some {
        let ca = first_creation(a).unwrap();
        let cb = first_creation(b).unwrap();
        assert(a.contains(ca) && a.contains(cb));
        assert(compatible(ca, cb));
        let start = created(ca);
        assert(start.known =~= Map::empty());
        lemma_replay_accepts_all(start, a);
        lemma_replay_accepts_all(start, b);
        lemma_grown_holds(a);
        lemma_grown_holds(b);
        let ka = grown(Map::empty(), a);
        let kb = grown(Map::empty(), b);
        assert forall|h: EntryHash| ka.contains_key(h) implies kb.contains_key(h) && kb[h]
            == ka[h] by {
            let i = choose|i: int|
                0 <= i < a.len() && (#[trigger] a[i]) is Edit && a[i]->entry.hash == h;
            assert(a.contains(a[i]));
            let j = choose|j: int| 0 <= j < b.len() && b[j] == a[i];
            assert(b[j] is Edit);
        }
        assert forall|h: EntryHash| kb.contains_key(h) implies ka.contains_key(h) by {
            let i = choose|i: int|
                0 <= i < b.len() && (#[trigger] b[i]) is Edit && b[i]->entry.hash == h;
            assert(b.contains(b[i]));
            let j = choose|j: int| 0 <= j < a.len() && a[j] == b[i];
            assert(a[j] is Edit);
        }
        assert(ka =~= kb);
    }
}

/// The register of a log, where it rebuilds one.
pub open spec fn rebuilt_state(log: Seq<CmdView>) -> Option<RegisterView> {
    match rebuilt(log) {
        Some(Ok(register)) => Some(register),
        _ => None,
    }
}

/// What is known of a register once a log was seen and rebuilt.
pub open spec fn known_from(log: Seq<CmdView>, path: Seq<Seq<char>>) -> StoredView {
    StoredView { state: rebuilt_state(log), op_log: log, op_log_path: path }
}

/// Loading a directory gives what is known from the log read from it.
pub proof fn lemma_loaded_is_rebuilt(files: Seq<FileView>, path: Seq<Seq<char>>)
    ensures
        loaded(files, path) matches Ok(stored) ==> stored == known_from(decoded_log(files), path),
        (rebuilt(decoded_log(files)) matches Some(res) ==> res is Ok) ==> loaded(files, path)
            is Ok,
{
}

/// The operations of the front of a valid set are a valid set.
pub proof fn lemma_valid_front(ops: Seq<CmdView>)
    requires
        valid_set(ops),
        ops.len() > 0,
    ensures
        valid_set(ops.drop_last()),
        ops.contains(ops.last()),
        forall|c: CmdView| #[trigger] ops.drop_last().contains(c) ==> ops.contains(c),
{
    let front = ops.drop_last();
    assert forall|c: CmdView| #[trigger] front.contains(c) implies ops.contains(c) by {
        let i = choose|i: int| 0 <= i < front.len() && front[i] == c;
        assert(ops[i] == c);
    }
    assert(ops[ops.len() - 1] == ops.last());
}

/// Operations that go together with a creation pass every check of the
/// register that it makes, so the replay with checks is the replay without.
pub proof fn lemma_valid_replay(creation: CmdView, all: Seq<CmdView>, log: Seq<CmdView>)
    requires
        valid_set(all),
        creation is Create,
        all.contains(creation),
        forall|c: CmdView| #[trigger] log.contains(c) ==> all.contains(c),
    ensures
        checked_replay(created(creation), log) is Ok,
        checked_replay(created(creation), log) == replay(created(creation), log),
    decreases log.len(),
{
    if log.len() > 0 {
        let front = log.drop_last();
        let last = log.last();
        assert forall|c: CmdView| #[trigger] front.contains(c) implies all.contains(c) by {
            let i = choose|i: int| 0 <= i < front.len() && front[i] == c;
            assert(log[i] == c);
            assert(log.contains(c));
        }
        lemma_valid_replay(creation, all, front);
        lemma_replay_keeps(created(creation), front);
        assert(log[log.len() - 1] == last);
        assert(log.contains(last));
        assert(all.contains(last));
        assert(compatible(creation, last));
        assert(well_made(last));
    }
}

/// An operation that forms a valid set with the log seen so far is taken
/// in, and what is known afterwards is what the longer log rebuilds.
pub proof fn lemma_take_valid(path: Seq<Seq<char>>, log: Seq<CmdView>, last: CmdView)
    requires
        valid_set(log.push(last)),
    ensures
        try_apply(known_from(log, path), last) == Ok::<StoredView, Error>(
            known_from(log.push(last), path),
        ),
{
    let ops = log.push(last);
    assert(ops.drop_last() =~= log);
    lemma_valid_front(ops);
    law_rebuilt_from_any_order(log, log);
    law_rebuilt_from_any_order(ops, ops);
    lemma_first_creation_push(log, last);
    assert(well_made(last));
    match first_creation(log) {
        Some(c) => {
            lemma_first_creation_is_there(log);
            assert(ops.contains(c));
            assert(compatible(c, last));
            lemma_replay_push(created(c), log, last);
            lemma_replay_keeps(created(c), log);
        },
        None => {
            if last is Create {
                lemma_valid_replay(last, ops, log);
                lemma_replay_push(created(last), log, last);
            }
        },
    }
}

/// An update with operations that form a valid set with the log seen so
/// far takes them all in, and arrives at what the whole log rebuilds.
pub proof fn lemma_update_takes_all(path: Seq<Seq<char>>, seen: Seq<CmdView>, ops: Seq<CmdView>)
    requires
        valid_set(seen + ops),
    ensures
        absorbed(known_from(seen, path), ops) == (known_from(seen + ops, path), ops),
    decreases ops.len(),
{
    if ops.len() == 0 {
        assert(ops =~= Seq::empty());
        assert(seen + ops =~= seen);
    } else {
        let front = ops.drop_last();
        let last = ops.last();
        assert((seen + ops).drop_last() =~= seen + front);
        lemma_valid_front(seen + ops);
        lemma_update_takes_all(path, seen, front);
        assert((seen + front).push(last) =~= seen + ops);
        lemma_take_valid(path, seen + front, last);
        assert(front.push(last) =~= ops);
    }
}

/// Two logs that are each other's rearrangement hold the same operations,
/// also behind a common front.
pub proof fn lemma_rearranged(seen: Seq<CmdView>, a: Seq<CmdView>, b: Seq<CmdView>)
    requires
        a.to_multiset() == b.to_multiset(),
    ensures
        same_operations(seen + a, seen + b),
{
    assert forall|c: CmdView|
        #![trigger (seen + a).contains(c)]
        #![trigger (seen + b).contains(c)]
        (seen + a).contains(c) <==> (seen + b).contains(c) by {
        vstd::seq_lib::to_multiset_contains(a, c);
        vstd::seq_lib::to_multiset_contains(b, c);
        if (seen + a).contains(c) {
            let i = choose|i: int| 0 <= i < (seen + a).len() && (seen + a)[i] == c;
            if i < seen.len() {
                assert((seen + b)[i] == c);
            } else {
                assert(a[i - seen.len()] == c);
                assert(a.contains(c));
                let j = choose|j: int| 0 <= j < b.len() && b[j] == c;
                assert((seen + b)[seen.len() + j] == c);
            }
        }
        if (seen + b).contains(c) {
            let i = choose|i: int| 0 <= i < (seen + b).len() && (seen + b)[i] == c;
            if i < seen.len() {
                assert((seen + a)[i] == c);
            } else {
                assert(b[i - seen.len()] == c);
                assert(b.contains(c));
                let j = choose|j: int| 0 <= j < a.len() && a[j] == c;
                assert((seen + a)[seen.len() + j] == c);
            }
        }
    }
}

/// Order independence: pushing a set of valid operations to a store in one
/// order or in another takes all of them in and arrives at the same
/// register. The operations are valid where they form a valid set together
/// with what the directory holds already.
pub proof fn law_order_independence(
    files: Seq<FileView>,
    path: Seq<Seq<char>>,
    a: Seq<CmdView>,
    b: Seq<CmdView>,
)
    requires
        valid_set(decoded_log(files) + a),
        a.to_multiset() == b.to_multiset(),
    ensures
        loaded(files, path) matches Ok(stored) && absorbed(stored, a).0.state == absorbed(
            stored,
            b,
        ).0.state && absorbed(stored, a).1 == a && absorbed(stored, b).1 == b,
{
    let seen = decoded_log(files);
    lemma_rearranged(seen, a, b);
    assert(valid_set(seen + b));
    law_rebuilt_from_any_order(seen + a, seen + b);
    assert(valid_set(seen)) by {
        assert forall|c: CmdView| #[trigger] seen.contains(c) implies (seen + a).contains(c) by {
            let i = choose|i: int| 0 <= i < seen.len() && seen[i] == c;
            assert((seen + a)[i] == c);
        }
    }
    law_rebuilt_from_any_order(seen, seen);
    lemma_loaded_is_rebuilt(files, path);
    lemma_update_takes_all(path, seen, a);
    lemma_update_takes_all(path, seen, b);
}

/// What becomes of a directory when the operations are written to it one
/// after the other; the first write that is refused ends the run.
pub open spec fn written_all(files: Seq<FileView>, path: Seq<Seq<char>>, ops: Seq<CmdView>) -> Result<
    Seq<FileView>,
>
    decreases ops.len(),
{
    if ops.len() == 0 {
        Ok(files)
    } else {
        match written_all(files, path, ops.drop_last()) {
            Ok(so_far) => written(so_far, path, ops.last()),
            Err(e) => Err(e),
        }
    }
}

/// Whether different operations have different identifiers. It fails only
/// where two different encodings share a digest.
pub open spec fn distinct_ids(ops: Seq<CmdView>) -> bool {
    forall|c: CmdView, d: CmdView|
        #[trigger] ops.contains(c) && #[trigger] ops.contains(d) && op_id(c) == op_id(d) ==> c
            == d
}

/// Whether a file of the directory that goes by the name of one of the
/// operations holds that operation.
pub open spec fn faithful_to(files: Seq<FileView>, ops: Seq<CmdView>) -> bool {
    forall|c: CmdView| #[trigger] ops.contains(c) ==> faithful(files, c)
}

/// Whether every length in the operations fits the 64 bits that the
/// encoding has for it. This holds of all operations in memory.
pub open spec fn encodable_all(ops: Seq<CmdView>) -> bool {
    forall|c: CmdView| #[trigger] ops.contains(c) ==> c.encodable()
}

/// Whether the file is the file of one of the operations.
pub open spec fn file_of_one(file: FileView, ops: Seq<CmdView>) -> bool {
    exists|c: CmdView| #[trigger] ops.contains(c) && file == file_of(c)
}

/// An operation of the log read from a directory was read from one of its
/// files.
pub proof fn lemma_decoded_from(files: Seq<FileView>, cmd: CmdView)
    requires
        decoded_log(files).contains(cmd),
    ensures
        exists|i: int| 0 <= i < files.len() && decoding((#[trigger] files[i]).data) == Some(cmd),
    decreases files.len(),
{
    let log = decoded_log(files);
    let k = choose|k: int| 0 <= k < log.len() && log[k] == cmd;
    if files.len() > 0 {
        let front = files.drop_last();
        let short = decoded_log(front);
        if k < short.len() {
            assert(short[k] == cmd);
            lemma_decoded_from(front, cmd);
            let i = choose|i: int|
                0 <= i < front.len() && decoding((#[trigger] front[i]).data) == Some(cmd);
            assert(files[i] == front[i]);
        } else {
            assert(decoding(files[files.len() - 1].data) == Some(cmd));
        }
    }
}

/// Persisting operations only adds files behind those that were there,
/// each the file of one of the operations; and the log read afterwards
/// holds what it held before and the operations.
pub proof fn lemma_persisted_log(files: Seq<FileView>, ops: Seq<CmdView>)
    requires
        distinct_ids(ops),
        faithful_to(files, ops),
        encodable_all(ops),
    ensures
        persisted(files, ops).len() >= files.len(),
        persisted(files, ops).subrange(0, files.len() as int) == files,
        forall|j: int|
            files.len() <= j < persisted(files, ops).len() ==> file_of_one(
                #[trigger] persisted(files, ops)[j],
                ops,
            ),
        same_operations(decoded_log(persisted(files, ops)), decoded_log(files) + ops),
    decreases ops.len(),
{
    let all = persisted(files, ops);
    let seen = decoded_log(files);
    if ops.len() == 0 {
        assert(all.subrange(0, files.len() as int) =~= files);
        assert(seen + ops =~= seen);
    } else {
        let front = ops.drop_last();
        let last = ops.last();
        let before = persisted(files, front);
        assert forall|c: CmdView| #[trigger] front.contains(c) implies ops.contains(c) by {
            let i = choose|i: int| 0 <= i < front.len() && front[i] == c;
            assert(ops[i] == c);
        }
        assert(ops[ops.len() - 1] == last);
        assert(ops.contains(last));
        lemma_persisted_log(files, front);
        assert(all.subrange(0, files.len() as int) =~= files) by {
            assert(before.subrange(0, files.len() as int) == files);
            assert forall|i: int| 0 <= i < files.len() implies all.subrange(
                0,
                files.len() as int,
            )[i] == files[i] by {
                assert(before.subrange(0, files.len() as int)[i] == before[i]);
            }
        }
        assert forall|j: int| files.len() <= j < all.len() implies file_of_one(
            #[trigger] all[j],
            ops,
        ) by {
            if j < before.len() {
                assert(file_of_one(before[j], front));
                let c = choose|c: CmdView| #[trigger] front.contains(c) && before[j] == file_of(c);
                assert(ops.contains(c) && all[j] == file_of(c));
            } else {
                assert(ops.contains(last) && all[j] == file_of(last));
            }
        }
        lemma_decoding_of_encoding(last);
        assert(decoded_log(all).contains(last)) by {
            if has_file(before, op_id(last)) {
                let i = choose|i: int|
                    0 <= i < before.len() && (#[trigger] before[i]).name == op_id(last);
                if i < files.len() {
                    assert(before.subrange(0, files.len() as int)[i] == before[i]);
                    assert(faithful(files, last));
                    assert(files[i].data == last.encoding());
                } else {
                    assert(file_of_one(before[i], front));
                    let c = choose|c: CmdView|
                        #[trigger] front.contains(c) && before[i] == file_of(c);
                    assert(ops.contains(c));
                    assert(c == last);
                }
                lemma_decoded_holds(before, i, last);
            } else {
                lemma_decoded_log_push(before, last);
                let log = decoded_log(all);
                assert(log[log.len() - 1] == last);
            }
        }
        assert forall|c: CmdView|
            #![trigger decoded_log(all).contains(c)]
            #![trigger (seen + ops).contains(c)]
            decoded_log(all).contains(c) <==> (seen + ops).contains(c) by {
            if decoded_log(all).contains(c) && c != last {
                if has_file(before, op_id(last)) {
                } else {
                    lemma_decoded_log_push(before, last);
                    let log = decoded_log(all);
                    let k = choose|k: int| 0 <= k < log.len() && log[k] == c;
                    assert(decoded_log(before)[k] == c);
                }
                assert(decoded_log(before).contains(c));
                assert((seen + front).contains(c));
                let k = choose|k: int| 0 <= k < (seen + front).len() && (seen + front)[k] == c;
                assert((seen + ops)[k] == c);
            }
            if c == last {
                assert((seen + ops)[seen.len() + ops.len() - 1] == last);
            }
            if (seen + ops).contains(c) && c != last {
                let k = choose|k: int| 0 <= k < (seen + ops).len() && (seen + ops)[k] == c;
                assert((seen + front)[k] == c);
                assert((seen + front).contains(c));
                assert(decoded_log(before).contains(c));
                if has_file(before, op_id(last)) {
                } else {
                    lemma_decoded_log_push(before, last);
                    let m = choose|m: int|
                        0 <= m < decoded_log(before).len() && decoded_log(before)[m] == c;
                    assert(decoded_log(all)[m] == c);
                }
            }
        }
    }
}

/// Writing operations that form a valid set with what the directory holds
/// succeeds for each of them, persists them all, and leaves a directory
/// that loads to the register that all the operations rebuild.
pub proof fn lemma_writes_of_valid(files: Seq<FileView>, path: Seq<Seq<char>>, ops: Seq<CmdView>)
    requires
        valid_set(decoded_log(files) + ops),
        distinct_ids(ops),
        faithful_to(files, ops),
        encodable_all(ops),
    ensures
        written_all(files, path, ops) == Ok::<Seq<FileView>, Error>(persisted(files, ops)),
        loaded(persisted(files, ops), path) matches Ok(stored) && stored.state == rebuilt_state(
            decoded_log(files) + ops,
        ),
    decreases ops.len(),
{
    let seen = decoded_log(files);
    let all = persisted(files, ops);
    lemma_persisted_log(files, ops);
    let log = decoded_log(all);
    assert(valid_set(log));
    law_rebuilt_from_any_order(log, seen + ops);
    lemma_loaded_is_rebuilt(all, path);
    if ops.len() > 0 {
        let front = ops.drop_last();
        let last = ops.last();
        let before = persisted(files, front);
        assert((seen + ops).drop_last() =~= seen + front);
        lemma_valid_front(seen + ops);
        assert forall|c: CmdView| #[trigger] front.contains(c) implies ops.contains(c) by {
            let i = choose|i: int| 0 <= i < front.len() && front[i] == c;
            assert(ops[i] == c);
        }
        lemma_writes_of_valid(files, path, front);
        lemma_persisted_log(files, front);
        lemma_loaded_is_rebuilt(before, path);
        let short = decoded_log(before);
        assert(valid_set(short.push(last))) by {
            assert forall|c: CmdView| #[trigger] short.push(last).contains(c) implies (seen
                + ops).contains(c) by {
                let k = choose|k: int| 0 <= k < short.push(last).len() && short.push(last)[k] == c;
                if k < short.len() {
                    assert(short[k] == c);
                    assert(short.contains(c));
                    assert((seen + front).contains(c));
                }
            }
        }
        lemma_take_valid(path, short, last);
    }
}

/// Create-last safety: where edits come before the creation they belong
/// to, writing them and then the creation leaves a directory that loads to
/// the same register as writing the creation first and the edits after it.
pub proof fn law_create_last(path: Seq<Seq<char>>, creation: CmdView, edits: Seq<CmdView>)
    requires
        creation is Create,
        valid_set(edits.push(creation)),
        distinct_ids(edits.push(creation)),
        encodable_all(edits.push(creation)),
    ensures
        written_all(Seq::empty(), path, edits.push(creation)) matches Ok(late) && written_all(
            Seq::empty(),
            path,
            seq![creation] + edits,
        ) matches Ok(early) && loaded(late, path) matches Ok(a) && loaded(early, path) matches Ok(
            b,
        ) && a.state is Some && a.state == b.state,
{
    let none = Seq::<FileView>::empty();
    let late = edits.push(creation);
    let early = seq![creation] + edits;
    assert(decoded_log(none) + late =~= late);
    assert(decoded_log(none) + early =~= early);
    assert(same_operations(late, early)) by {
        assert forall|c: CmdView|
            #![trigger late.contains(c)]
            #![trigger early.contains(c)]
            late.contains(c) <==> early.contains(c) by {
            if late.contains(c) {
                let i = choose|i: int| 0 <= i < late.len() && late[i] == c;
                if i < edits.len() {
                    assert(early[i + 1] == c);
                } else {
                    assert(early[0] == c);
                }
            }
            if early.contains(c) {
                let i = choose|i: int| 0 <= i < early.len() && early[i] == c;
                if i == 0 {
                    assert(late[edits.len() as int] == c);
                } else {
                    assert(late[i - 1] == c);
                }
            }
        }
    }
    assert(valid_set(early));
    assert(distinct_ids(early));
    assert(encodable_all(early));
    lemma_writes_of_valid(none, path, late);
    lemma_writes_of_valid(none, path, early);
    law_rebuilt_from_any_order(late, early);
    assert(late[edits.len() as int] is Create);
    lemma_creation_is_found(late, edits.len() as int);
}

/// Order independence, as seen on disk: pushing a set of valid operations
/// to a store in one order or in another leaves directories that load to
/// the same register.
pub proof fn law_update_converges(
    files: Seq<FileView>,
    path: Seq<Seq<char>>,
    a: Seq<CmdView>,
    b: Seq<CmdView>,
)
    requires
        valid_set(decoded_log(files) + a),
        a.to_multiset() == b.to_multiset(),
        distinct_ids(a),
        faithful_to(files, a),
        encodable_all(a),
    ensures
        updated(files, path, a) matches Ok(one) && updated(files, path, b) matches Ok(other)
            && loaded(one, path) matches Ok(x) && loaded(other, path) matches Ok(y) && x.state
            == y.state,
{
    let seen = decoded_log(files);
    law_order_independence(files, path, a, b);
    lemma_rearranged(seen, a, b);
    lemma_rearranged(Seq::empty(), a, b);
    assert(Seq::<CmdView>::empty() + a =~= a);
    assert(Seq::<CmdView>::empty() + b =~= b);
    assert(valid_set(seen + b));
    assert(distinct_ids(b));
    assert(faithful_to(files, b));
    assert(encodable_all(b));
    lemma_writes_of_valid(files, path, a);
    lemma_writes_of_valid(files, path, b);
    law_rebuilt_from_any_order(seen + a, seen + b);
}

/// The order of the files in a directory is irrelevant: two directories
/// that hold the same files, with valid operations in them, load to the
/// same register.
pub proof fn law_any_file_order(a: Seq<FileView>, b: Seq<FileView>, path: Seq<Seq<char>>)
    requires
        a.to_multiset() == b.to_multiset(),
        valid_set(decoded_log(a)),
    ensures
        loaded(a, path) matches Ok(x) && loaded(b, path) matches Ok(y) && x.state == y.state,
{
    let log_a = decoded_log(a);
    let log_b = decoded_log(b);
    assert(same_operations(log_a, log_b)) by {
        assert forall|c: CmdView|
            #![trigger log_a.contains(c)]
            #![trigger log_b.contains(c)]
            log_a.contains(c) <==> log_b.contains(c) by {
            if log_a.contains(c) {
                lemma_decoded_from(a, c);
                let i = choose|i: int|
                    0 <= i < a.len() && decoding((#[trigger] a[i]).data) == Some(c);
                vstd::seq_lib::to_multiset_contains(a, a[i]);
                vstd::seq_lib::to_multiset_contains(b, a[i]);
                assert(a.contains(a[i]));
                let j = choose|j: int| 0 <= j < b.len() && b[j] == a[i];
                lemma_decoded_holds(b, j, c);
            }
            if log_b.contains(c) {
                lemma_decoded_from(b, c);
                let i = choose|i: int|
                    0 <= i < b.len() && decoding((#[trigger] b[i]).data) == Some(c);
                vstd::seq_lib::to_multiset_contains(a, b[i]);
                vstd::seq_lib::to_multiset_contains(b, b[i]);
                assert(b.contains(b[i]));
                let j = choose|j: int| 0 <= j < a.len() && a[j] == b[i];
                lemma_decoded_holds(a, j, c);
            }
        }
    }
    law_rebuilt_from_any_order(log_a, log_b);
    lemma_loaded_is_rebuilt(a, path);
    lemma_loaded_is_rebuilt(b, path);
}

} // verus!

//! The register: a set of hash-linked entries that grows by edits, in
//! whatever order they arrive.
//!
//! An edit is accepted as soon as it goes by the hash of its content. It
//! becomes an entry of the register once all its parents are entries; until
//! then it waits. So the entries always form a graph without cycles, and
//! which entries there are depends only on which edits were accepted, not
//! on their order.

use crate::address::{RegisterAddress, XorName};
use crate::entry::{Entry, EntryHash, EntryView};
use crate::error::{Error, Result};
use crate::messages::RegisterOp;
use crate::policy::{Action, Permissions, Policy, PolicyView, User};
use vstd::prelude::*;

verus! {

/// A register as a mathematical value: where it lives, whose it is, and
/// every edit it has accepted, by hash.
pub struct RegisterView {
    pub address: RegisterAddress,
    pub owner: User,
    pub policy: PolicyView,
    pub known: Map<EntryHash, EntryView>,
}

/// Whether `hash` and all that it rests on are among the accepted edits,
/// within `depth` steps from parent to parent.
pub open spec fn grounded_in(known: Map<EntryHash, EntryView>, hash: EntryHash, depth: nat) -> bool
    decreases depth,
{
    &&& depth > 0
    &&& known.contains_key(hash)
    &&& forall|k: int|
        0 <= k < known[hash].parents.len() ==> grounded_in(
            known,
            #[trigger] known[hash].parents[k],
            (depth - 1) as nat,
        )
}

/// Whether `hash` and all that it rests on are among the accepted edits.
pub open spec fn grounded(known: Map<EntryHash, EntryView>, hash: EntryHash) -> bool {
    exists|depth: nat| grounded_in(known, hash, depth)
}

impl RegisterView {
    /// A register that has accepted no edit yet.
    pub open spec fn empty(owner: User, name: XorName, tag: u64, policy: PolicyView) -> RegisterView {
        RegisterView { address: RegisterAddress { name, tag }, owner, policy, known: Map::empty() }
    }

    /// The entries of the register: the accepted edits whose parents, and
    /// theirs in turn, have all been accepted.
    pub open spec fn entries(self) -> Map<EntryHash, EntryView> {
        self.known.restrict(Set::new(|h: EntryHash| grounded(self.known, h)))
    }

    /// The heads: the entries that no entry has as a parent.
    pub open spec fn heads(self) -> Set<EntryHash> {
        Set::new(
            |h: EntryHash|
                self.entries().contains_key(h) && forall|c: EntryHash|
                    self.entries().contains_key(c) ==> !(#[trigger] self.entries()[c]).parents.contains(
                        h,
                    ),
        )
    }

    /// The register after it was offered an edit that goes by the hash of
    /// its content. An edit whose hash is known already changes nothing.
    pub open spec fn accept(self, edit: EntryView) -> RegisterView {
        if self.known.contains_key(edit.hash) {
            self
        } else {
            RegisterView { known: self.known.insert(edit.hash, edit), ..self }
        }
    }

    /// The outcome of offering an edit: one that does not go by the hash of
    /// its content is refused.
    pub open spec fn apply(self, edit: EntryView) -> Result<RegisterView> {
        if edit.hash_matches() {
            Ok(self.accept(edit))
        } else {
            Err(Error::CrdtApplyError(edit.hash))
        }
    }
}

/// More steps never hurt.
pub proof fn lemma_grounded_deeper(
    known: Map<EntryHash, EntryView>,
    hash: EntryHash,
    depth: nat,
    deeper: nat,
)
    requires
        grounded_in(known, hash, depth),
        depth <= deeper,
    ensures
        grounded_in(known, hash, deeper),
    decreases depth,
{
    assert forall|k: int| 0 <= k < known[hash].parents.len() implies grounded_in(
        known,
        #[trigger] known[hash].parents[k],
        (deeper - 1) as nat,
    ) by {
        lemma_grounded_deeper(
            known,
            known[hash].parents[k],
            (depth - 1) as nat,
            (deeper - 1) as nat,
        );
    }
}

/// Whether `to` is reached from `from` in exactly `steps` steps, each from
/// an accepted edit to one of its parents.
pub open spec fn reaches(
    known: Map<EntryHash, EntryView>,
    from: EntryHash,
    to: EntryHash,
    steps: nat,
) -> bool
    decreases steps,
{
    if steps == 0 {
        from == to
    } else {
        known.contains_key(from) && exists|k: int|
            0 <= k < known[from].parents.len() && reaches(
                known,
                #[trigger] known[from].parents[k],
                to,
                (steps - 1) as nat,
            )
    }
}

/// What is reached from a grounded edit is grounded in as many steps less.
pub proof fn lemma_grounded_along(
    known: Map<EntryHash, EntryView>,
    from: EntryHash,
    to: EntryHash,
    steps: nat,
    depth: nat,
)
    requires
        grounded_in(known, from, depth),
        reaches(known, from, to, steps),
    ensures
        depth > steps,
        grounded_in(known, to, (depth - steps) as nat),
    decreases steps,
{
    if steps > 0 {
        let k = choose|k: int|
            0 <= k < known[from].parents.len() && reaches(
                known,
                #[trigger] known[from].parents[k],
                to,
                (steps - 1) as nat,
            );
        lemma_grounded_along(
            known,
            known[from].parents[k],
            to,
            (steps - 1) as nat,
            (depth - 1) as nat,
        );
    }
}

/// A grounded edit is not reached from itself, within any depth.
proof fn lemma_no_way_back(known: Map<EntryHash, EntryView>, hash: EntryHash, steps: nat, depth: nat)
    requires
        steps >= 1,
        grounded_in(known, hash, depth),
    ensures
        !reaches(known, hash, hash, steps),
    decreases depth,
{
    if reaches(known, hash, hash, steps) {
        lemma_grounded_along(known, hash, hash, steps, depth);
        lemma_no_way_back(known, hash, steps, (depth - steps) as nat);
    }
}

impl RegisterView {
    /// Offering an edit twice is the same as offering it once.
    pub proof fn law_accept_is_idempotent(self, edit: EntryView)
        ensures
            self.accept(edit).accept(edit) == self.accept(edit),
    {
    }

    /// Two edits can be offered in either order, unless they are different
    /// edits under one hash.
    pub proof fn law_accept_commutes(self, first: EntryView, second: EntryView)
        requires
            first.hash == second.hash ==> first == second,
        ensures
            self.accept(first).accept(second) == self.accept(second).accept(first),
    {
        assert(self.accept(first).accept(second).known =~= self.accept(second).accept(
            first,
        ).known);
    }

    /// The entries form a graph without cycles: no entry is among its own
    /// ancestors.
    pub proof fn law_acyclic(self, hash: EntryHash, steps: nat)
        requires
            self.entries().contains_key(hash),
            steps >= 1,
        ensures
            !reaches(self.known, hash, hash, steps),
    {
        let depth = choose|depth: nat| grounded_in(self.known, hash, depth);
        lemma_no_way_back(self.known, hash, steps, depth);
    }
}

/// Whether the list holds an entry under this hash.
spec fn holds(list: Seq<Entry>, hash: EntryHash) -> bool {
    exists|i: int| 0 <= i < list.len() && (#[trigger] list[i]).hash == hash
}

/// A position in the list of an entry under this hash.
spec fn place(list: Seq<Entry>, hash: EntryHash) -> int {
    choose|i: int| 0 <= i < list.len() && (#[trigger] list[i]).hash == hash
}

/// Whether all parents of `entry` are in the list.
spec fn ready(list: Seq<Entry>, entry: Entry) -> bool {
    forall|k: int| 0 <= k < entry.parents@.len() ==> holds(list, #[trigger] entry.parents@[k])
}

/// Whether no two entries of the list share a hash.
spec fn distinct(list: Seq<Entry>) -> bool {
    forall|i: int, j: int|
        0 <= i < j < list.len() ==> (#[trigger] list[i]).hash != (#[trigger] list[j]).hash
}

/// Whether every entry of the list goes by the hash of its content.
spec fn hashed(list: Seq<Entry>) -> bool {
    forall|i: int| 0 <= i < list.len() ==> (#[trigger] list[i])@.hash_matches()
}

/// Whether every entry of the list stands behind all its parents.
spec fn ordered(list: Seq<Entry>) -> bool {
    forall|i: int| 0 <= i < list.len() ==> ready(list.subrange(0, i), #[trigger] list[i])
}

/// Whether every entry of `pending` lacks a parent in `entries`.
spec fn stuck(entries: Seq<Entry>, pending: Seq<Entry>) -> bool {
    forall|j: int| 0 <= j < pending.len() ==> !ready(entries, #[trigger] pending[j])
}

/// Whether the two lists share no hash.
spec fn apart(entries: Seq<Entry>, pending: Seq<Entry>) -> bool {
    forall|i: int, j: int|
        0 <= i < entries.len() && 0 <= j < pending.len() ==> (#[trigger] entries[i]).hash != (
        #[trigger] pending[j]).hash
}

/// What the two lists hold, by hash.
spec fn known_of(entries: Seq<Entry>, pending: Seq<Entry>) -> Map<EntryHash, EntryView> {
    Map::new(
        |h: EntryHash| holds(entries, h) || holds(pending, h),
        |h: EntryHash|
            if holds(entries, h) {
                entries[place(entries, h)]@
            } else {
                pending[place(pending, h)]@
            },
    )
}

/// All but the last condition on the two lists of a register.
spec fn sound(entries: Seq<Entry>, pending: Seq<Entry>) -> bool {
    &&& hashed(entries)
    &&& hashed(pending)
    &&& distinct(entries)
    &&& distinct(pending)
    &&& apart(entries, pending)
    &&& ordered(entries)
}

/// Under distinct hashes, the map holds each entry under its hash.
proof fn lemma_known_of(entries: Seq<Entry>, pending: Seq<Entry>)
    requires
        distinct(entries),
        distinct(pending),
        apart(entries, pending),
    ensures
        forall|i: int|
            0 <= i < entries.len() ==> known_of(entries, pending).contains_key(
                (#[trigger] entries[i]).hash,
            ) && known_of(entries, pending)[entries[i].hash] == entries[i]@,
        forall|j: int|
            0 <= j < pending.len() ==> known_of(entries, pending).contains_key(
                (#[trigger] pending[j]).hash,
            ) && known_of(entries, pending)[pending[j].hash] == pending[j]@,
{
    let known = known_of(entries, pending);
    assert forall|i: int| 0 <= i < entries.len() implies known.contains_key(
        (#[trigger] entries[i]).hash,
    ) && known[entries[i].hash] == entries[i]@ by {
        let h = entries[i].hash;
        assert(holds(entries, h));
        let p = place(entries, h);
        assert(p == i);
    }
    assert forall|j: int| 0 <= j < pending.len() implies known.contains_key(
        (#[trigger] pending[j]).hash,
    ) && known[pending[j].hash] == pending[j]@ by {
        let h = pending[j].hash;
        assert(holds(pending, h));
        if holds(entries, h) {
            let i = place(entries, h);
            assert(entries[i].hash == pending[j].hash);
        }
        let p = place(pending, h);
        assert(p == j);
    }
}

/// Every entry of the first list is grounded, within as many steps as its
/// position.
proof fn lemma_entries_grounded(entries: Seq<Entry>, pending: Seq<Entry>, i: int)
    requires
        sound(entries, pending),
        0 <= i < entries.len(),
    ensures
        grounded_in(known_of(entries, pending), entries[i].hash, (i + 1) as nat),
    decreases i,
{
    let known = known_of(entries, pending);
    lemma_known_of(entries, pending);
    let e = entries[i];
    assert(known[e.hash] == e@);
    assert forall|k: int| 0 <= k < known[e.hash].parents.len() implies grounded_in(
        known,
        #[trigger] known[e.hash].parents[k],
        i as nat,
    ) by {
        let p = e.parents@[k];
        assert(ready(entries.subrange(0, i), e));
        assert(holds(entries.subrange(0, i), p));
        let j = place(entries.subrange(0, i), p);
        assert(entries.subrange(0, i)[j] == entries[j]);
        lemma_entries_grounded(entries, pending, j);
        lemma_grounded_deeper(known, p, (j + 1) as nat, i as nat);
    }
}

/// Whatever is grounded is in the first list, where the second list is
/// stuck.
proof fn lemma_grounded_are_entries(
    entries: Seq<Entry>,
    pending: Seq<Entry>,
    hash: EntryHash,
    depth: nat,
)
    requires
        sound(entries, pending),
        stuck(entries, pending),
        grounded_in(known_of(entries, pending), hash, depth),
    ensures
        holds(entries, hash),
    decreases depth,
{
    let known = known_of(entries, pending);
    lemma_known_of(entries, pending);
    if !holds(entries, hash) {
        assert(holds(pending, hash));
        let j = place(pending, hash);
        let e = pending[j];
        assert(known[hash] == e@);
        assert(!ready(entries, e));
        let k = choose|k: int| 0 <= k < e.parents@.len() && !holds(entries, #[trigger] e.parents@[k]);
        assert(grounded_in(known, known[hash].parents[k], (depth - 1) as nat));
        lemma_grounded_are_entries(entries, pending, e.parents@[k], (depth - 1) as nat);
    }
}

/// With the second list stuck, the first list holds exactly what is
/// grounded.
proof fn lemma_entries_are_the_grounded(entries: Seq<Entry>, pending: Seq<Entry>)
    requires
        sound(entries, pending),
        stuck(entries, pending),
    ensures
        forall|h: EntryHash| holds(entries, h) <==> grounded(known_of(entries, pending), h),
{
    let known = known_of(entries, pending);
    assert forall|h: EntryHash| holds(entries, h) <==> grounded(known, h) by {
        if holds(entries, h) {
            let i = place(entries, h);
            lemma_entries_grounded(entries, pending, i);
        }
        if grounded(known, h) {
            let d = choose|d: nat| grounded_in(known, h, d);
            lemma_grounded_are_entries(entries, pending, h, d);
        }
    }
}

/// Taking in an edit under a new hash keeps the lists sound and adds the
/// edit to what they hold.
proof fn lemma_take_in(entries: Seq<Entry>, pending: Seq<Entry>, edit: Entry)
    requires
        sound(entries, pending),
        !holds(entries, edit.hash),
        !holds(pending, edit.hash),
        edit@.hash_matches(),
    ensures
        sound(entries, pending.push(edit)),
        known_of(entries, pending.push(edit)) == known_of(entries, pending).insert(
            edit.hash,
            edit@,
        ),
{
    let after = pending.push(edit);
    assert(distinct(after)) by {
        assert forall|i: int, j: int| 0 <= i < j < after.len() implies (#[trigger] after[i]).hash
            != (#[trigger] after[j]).hash by {
            if j == pending.len() {
                assert(pending[i].hash != edit.hash);
            } else {
                assert(pending[i].hash != pending[j].hash);
            }
        }
    }
    assert(apart(entries, after)) by {
        assert forall|i: int, j: int|
            0 <= i < entries.len() && 0 <= j < after.len() implies (#[trigger] entries[i]).hash != (
        #[trigger] after[j]).hash by {
            if j < pending.len() {
                assert(entries[i].hash != pending[j].hash);
            }
        }
    }
    assert(hashed(after)) by {
        assert forall|i: int| 0 <= i < after.len() implies (#[trigger] after[i])@.hash_matches() by {
            if i < pending.len() {
                assert(pending[i]@.hash_matches());
            }
        }
    }
    let before_map = known_of(entries, pending);
    let after_map = known_of(entries, after);
    lemma_known_of(entries, pending);
    lemma_known_of(entries, after);
    assert forall|h: EntryHash| after_map.contains_key(h) <==> before_map.insert(
        edit.hash,
        edit@,
    ).contains_key(h) by {
        if holds(after, h) {
            let j = place(after, h);
            if j < pending.len() {
                assert(pending[j].hash == h);
            }
        }
        if holds(pending, h) {
            let j = place(pending, h);
            assert(after[j].hash == h);
        }
        if h == edit.hash {
            assert(after[pending.len() as int].hash == h);
        }
    }
    assert forall|h: EntryHash| after_map.contains_key(h) implies after_map[h] == before_map.insert(
        edit.hash,
        edit@,
    )[h] by {
        if holds(entries, h) {
            let i = place(entries, h);
            assert(entries[i].hash == h);
        } else if h == edit.hash {
            assert(after[pending.len() as int].hash == h);
            assert(after_map[after[pending.len() as int].hash] == after[pending.len() as int]@);
        } else {
            let j = place(after, h);
            assert(j < pending.len());
            assert(after_map[after[j].hash] == after[j]@);
            assert(before_map[pending[j].hash] == pending[j]@);
        }
    }
    assert(after_map =~= before_map.insert(edit.hash, edit@));
}

/// Moving an edit whose parents are all entries from the waiting list to
/// the entries keeps the lists sound and changes nothing in what they hold.
proof fn lemma_adopt(entries: Seq<Entry>, pending: Seq<Entry>, j: int)
    requires
        sound(entries, pending),
        0 <= j < pending.len(),
        ready(entries, pending[j]),
    ensures
        sound(entries.push(pending[j]), pending.remove(j)),
        known_of(entries.push(pending[j]), pending.remove(j)) == known_of(entries, pending),
{
    let moved = pending[j];
    let grown = entries.push(moved);
    let rest = pending.remove(j);
    assert(hashed(grown)) by {
        assert forall|i: int| 0 <= i < grown.len() implies (#[trigger] grown[i])@.hash_matches() by {
            if i < entries.len() {
                assert(entries[i]@.hash_matches());
            } else {
                assert(pending[j]@.hash_matches());
            }
        }
    }
    assert(hashed(rest)) by {
        assert forall|i: int| 0 <= i < rest.len() implies (#[trigger] rest[i])@.hash_matches() by {
            if i < j {
                assert(pending[i]@.hash_matches());
            } else {
                assert(pending[i + 1]@.hash_matches());
            }
        }
    }
    assert(distinct(grown)) by {
        assert forall|a: int, b: int| 0 <= a < b < grown.len() implies (#[trigger] grown[a]).hash
            != (#[trigger] grown[b]).hash by {
            if b == entries.len() {
                assert(entries[a].hash != pending[j].hash);
            } else {
                assert(entries[a].hash != entries[b].hash);
            }
        }
    }
    assert(distinct(rest)) by {
        assert forall|a: int, b: int| 0 <= a < b < rest.len() implies (#[trigger] rest[a]).hash != (
        #[trigger] rest[b]).hash by {
            let a0 = if a < j { a } else { a + 1 };
            let b0 = if b < j { b } else { b + 1 };
            assert(pending[a0].hash != pending[b0].hash);
        }
    }
    assert(apart(grown, rest)) by {
        assert forall|a: int, b: int|
            0 <= a < grown.len() && 0 <= b < rest.len() implies (#[trigger] grown[a]).hash != (
        #[trigger] rest[b]).hash by {
            let b0 = if b < j { b } else { b + 1 };
            if a < entries.len() {
                assert(entries[a].hash != pending[b0].hash);
            } else {
                if b0 < j {
                    assert(pending[b0].hash != pending[j].hash);
                } else {
                    assert(pending[j].hash != pending[b0].hash);
                }
            }
        }
    }
    assert(ordered(grown)) by {
        assert forall|i: int| 0 <= i < grown.len() implies ready(
            grown.subrange(0, i),
            #[trigger] grown[i],
        ) by {
            if i < entries.len() {
                assert(ready(entries.subrange(0, i), entries[i]));
                assert(grown.subrange(0, i) =~= entries.subrange(0, i));
            } else {
                assert(grown.subrange(0, i) =~= entries);
            }
        }
    }
    let before_map = known_of(entries, pending);
    let after_map = known_of(grown, rest);
    lemma_known_of(entries, pending);
    lemma_known_of(grown, rest);
    assert forall|h: EntryHash| after_map.contains_key(h) <==> before_map.contains_key(h) by {
        if holds(grown, h) {
            let i = place(grown, h);
            if i < entries.len() {
                assert(entries[i].hash == h);
            } else {
                assert(pending[j].hash == h);
            }
        }
        if holds(rest, h) {
            let b = place(rest, h);
            let b0 = if b < j { b } else { b + 1 };
            assert(pending[b0].hash == h);
        }
        if holds(entries, h) {
            let i = place(entries, h);
            assert(grown[i].hash == h);
        }
        if holds(pending, h) {
            let b = place(pending, h);
            if b == j {
                assert(grown[entries.len() as int].hash == h);
            } else {
                let b1 = if b < j { b } else { b - 1 };
                assert(rest[b1].hash == h);
            }
        }
    }
    assert forall|h: EntryHash| after_map.contains_key(h) implies after_map[h] == before_map[h] by {
        if holds(grown, h) {
            let i = place(grown, h);
            assert(after_map[grown[i].hash] == grown[i]@);
            if i < entries.len() {
                assert(before_map[entries[i].hash] == entries[i]@);
            } else {
                assert(before_map[pending[j].hash] == pending[j]@);
            }
        } else {
            let b = place(rest, h);
            let b0 = if b < j { b } else { b + 1 };
            assert(after_map[rest[b].hash] == rest[b]@);
            assert(before_map[pending[b0].hash] == pending[b0]@);
        }
    }
    assert(after_map =~= before_map);
}

/// Finds an entry under the hash.
fn find(list: &Vec<Entry>, hash: &EntryHash) -> (res: Option<usize>)
    ensures
        match res {
            Some(i) => i < list@.len() && list@[i as int].hash == *hash,
            None => !holds(list@, *hash),
        },
{
    let mut i: usize = 0;
    while i < list.len()
        invariant
            i <= list.len(),
            forall|k: int| 0 <= k < i ==> (#[trigger] list@[k]).hash != *hash,
        decreases list.len() - i,
    {
        if list[i].hash.same_as(hash) {
            return Some(i);
        }
        i += 1;
    }
    None
}

/// Whether all parents of the entry are in the list.
fn is_ready(list: &Vec<Entry>, entry: &Entry) -> (res: bool)
    ensures
        res == ready(list@, *entry),
{
    let mut k: usize = 0;
    while k < entry.parents.len()
        invariant
            k <= entry.parents.len(),
            forall|m: int| 0 <= m < k ==> holds(list@, #[trigger] entry.parents@[m]),
        decreases entry.parents.len() - k,
    {
        if find(list, &entry.parents[k]).is_none() {
            return false;
        }
        k += 1;
    }
    true
}

/// Finds a waiting edit whose parents are all entries.
fn find_ready(entries: &Vec<Entry>, pending: &Vec<Entry>) -> (res: Option<usize>)
    ensures
        match res {
            Some(j) => j < pending@.len() && ready(entries@, pending@[j as int]),
            None => stuck(entries@, pending@),
        },
{
    let mut j: usize = 0;
    while j < pending.len()
        invariant
            j <= pending.len(),
            forall|m: int| 0 <= m < j ==> !ready(entries@, #[trigger] pending@[m]),
        decreases pending.len() - j,
    {
        if is_ready(entries, &pending[j]) {
            return Some(j);
        }
        j += 1;
    }
    None
}

/// Whether some entry of the list has the hash among its parents.
spec fn is_parent(list: Seq<Entry>, hash: EntryHash) -> bool {
    exists|i: int| 0 <= i < list.len() && (#[trigger] list[i]).parents@.contains(hash)
}

/// Whether the hash is among the parents listed.
fn parents_hold(parents: &Vec<EntryHash>, hash: &EntryHash) -> (res: bool)
    ensures
        res == parents@.contains(*hash),
{
    let mut k: usize = 0;
    while k < parents.len()
        invariant
            k <= parents.len(),
            forall|m: int| 0 <= m < k ==> parents@[m] != *hash,
        decreases parents.len() - k,
    {
        if parents[k].same_as(hash) {
            return true;
        }
        k += 1;
    }
    false
}

/// Whether some entry of the list has the hash among its parents.
fn has_child(list: &Vec<Entry>, hash: &EntryHash) -> (res: bool)
    ensures
        res == is_parent(list@, *hash),
{
    let mut i: usize = 0;
    while i < list.len()
        invariant
            i <= list.len(),
            forall|m: int| 0 <= m < i ==> !(#[trigger] list@[m]).parents@.contains(*hash),
        decreases list.len() - i,
    {
        if parents_hold(&list[i].parents, hash) {
            return true;
        }
        i += 1;
    }
    false
}

/// A register: its address, its owner and policy, and its entries.
#[derive(Clone, Debug, PartialEq, Eq)]
pub struct Register {
    address: RegisterAddress,
    owner: User,
    policy: Policy,
    /// The entries, each behind all its parents.
    entries: Vec<Entry>,
    /// The accepted edits that still wait for a parent.
    pending: Vec<Entry>,
}

/// What a register shows to a reader: its entries and its heads.
#[derive(Clone, Debug, PartialEq, Eq)]
pub struct Snapshot {
    pub entries: Vec<Entry>,
    pub heads: Vec<EntryHash>,
}

impl Snapshot {
    /// Whether the snapshot shows the register as it stands: every entry
    /// once, and the heads.
    pub open spec fn shows(&self, register: RegisterView) -> bool {
        &&& self.heads@.no_duplicates()
        &&& forall|h: EntryHash| self.heads@.contains(h) <==> register.heads().contains(h)
        &&& self.entries@.len() == register.entries().dom().len()
        &&& forall|i: int|
            0 <= i < self.entries@.len() ==> register.entries().contains_key(
                (#[trigger] self.entries@[i]).hash,
            ) && self.entries@[i]@ == register.entries()[self.entries@[i].hash]
        &&& forall|h: EntryHash|
            register.entries().contains_key(h) ==> exists|i: int|
                0 <= i < self.entries@.len() && (#[trigger] self.entries@[i]).hash == h
    }
}

impl View for Register {
    type V = RegisterView;

    closed spec fn view(&self) -> RegisterView {
        RegisterView {
            address: self.address,
            owner: self.owner,
            policy: self.policy@,
            known: known_of(self.entries@, self.pending@),
        }
    }
}

impl Register {
    /// The invariant of a register: every accepted edit goes by the hash of
    /// its content, no hash occurs twice, every entry stands behind all its
    /// parents, and every waiting edit lacks a parent among the entries.
    pub closed spec fn wf(&self) -> bool {
        &&& sound(self.entries@, self.pending@)
        &&& stuck(self.entries@, self.pending@)
    }

    /// Every accepted edit goes by the hash of its content, and the entries
    /// are closed under parents.
    pub proof fn law_invariants(&self)
        requires
            self.wf(),
        ensures
            forall|h: EntryHash| #[trigger]
                self@.known.contains_key(h) ==> self@.known[h].hash == h
                    && self@.known[h].hash_matches(),
            forall|h: EntryHash, k: int|
                self@.entries().contains_key(h) && 0 <= k < self@.entries()[h].parents.len()
                    ==> self@.entries().contains_key(#[trigger] self@.entries()[h].parents[k]),
    {
        let known = self@.known;
        lemma_known_of(self.entries@, self.pending@);
        assert forall|h: EntryHash| #[trigger] known.contains_key(h) implies known[h].hash == h
            && known[h].hash_matches() by {
            if holds(self.entries@, h) {
                let i = place(self.entries@, h);
                assert(known[self.entries@[i].hash] == self.entries@[i]@);
                assert(self.entries@[i]@.hash_matches());
            } else {
                let j = place(self.pending@, h);
                assert(known[self.pending@[j].hash] == self.pending@[j]@);
                assert(self.pending@[j]@.hash_matches());
            }
        }
        assert forall|h: EntryHash, k: int|
            self@.entries().contains_key(h) && 0 <= k < self@.entries()[h].parents.len() implies self@.entries().contains_key(
            #[trigger] self@.entries()[h].parents[k],
        ) by {
            let d = choose|d: nat| grounded_in(known, h, d);
            let p = known[h].parents[k];
            assert(grounded_in(known, p, (d - 1) as nat));
        }
    }

    /// A new register, with no entry yet.
    pub fn new(owner: User, name: XorName, tag: u64, policy: Policy) -> (register: Register)
        ensures
            register.wf(),
            register@ == RegisterView::empty(owner, name, tag, policy@),
    {
        let register = Register {
            address: RegisterAddress { name, tag },
            owner,
            policy,
            entries: Vec::new(),
            pending: Vec::new(),
        };
        assert(register@.known =~= Map::empty());
        register
    }

    /// The address of the register.
    pub fn address(&self) -> (address: &RegisterAddress)
        ensures
            *address == self@.address,
    {
        &self.address
    }

    /// The owner of the register.
    pub fn owner(&self) -> (owner: User)
        ensures
            owner == self@.owner,
    {
        self.owner
    }

    /// The policy of the register.
    pub fn policy(&self) -> (policy: &Policy)
        ensures
            policy@ == self@.policy,
    {
        &self.policy
    }

    /// What the policy grants exactly this user.
    pub fn permissions(&self, user: User) -> (res: Result<Permissions>)
        ensures
            res == match self@.policy.grant(user) {
                Some(perms) => Ok::<Permissions, Error>(perms),
                None => Err::<Permissions, Error>(Error::NoSuchUser(user)),
            },
    {
        match self.policy.permissions(user) {
            Some(perms) => Ok(perms),
            None => Err(Error::NoSuchUser(user)),
        }
    }

    /// Decides whether `requester` may do `action`; with no requester named,
    /// the owner asks.
    pub fn check_permissions(&self, action: Action, requester: Option<User>) -> (res: Result<()>)
        ensures
            res == self@.policy.verdict(
                match requester {
                    Some(user) => user,
                    None => self@.owner,
                },
                action,
            ),
    {
        let user = match requester {
            Some(user) => user,
            None => self.owner,
        };
        self.policy.is_action_allowed(user, action)
    }

    /// There are as many entries as the list of them is long.
    proof fn lemma_count(&self)
        requires
            self.wf(),
        ensures
            self@.entries().dom().finite(),
            self@.entries().dom().len() == self.entries@.len(),
    {
        lemma_entries_are_the_grounded(self.entries@, self.pending@);
        let hashes = Seq::new(self.entries@.len(), |i: int| self.entries@[i].hash);
        assert(hashes.no_duplicates());
        hashes.unique_seq_to_set();
        assert(hashes.to_set() =~= self@.entries().dom()) by {
            assert forall|h: EntryHash| hashes.to_set().contains(h) <==> self@.entries().dom().contains(h) by {
                if hashes.to_set().contains(h) {
                    let i = choose|i: int| 0 <= i < hashes.len() && hashes[i] == h;
                    assert(self.entries@[i].hash == h);
                }
                if holds(self.entries@, h) {
                    let i = place(self.entries@, h);
                    assert(hashes[i] == h);
                }
            }
        }
    }

    /// There are as many accepted edits as the two lists are long.
    proof fn lemma_count_known(&self)
        requires
            self.wf(),
        ensures
            self@.known.dom().finite(),
            self@.known.dom().len() == self.entries@.len() + self.pending@.len(),
    {
        let all = self.entries@ + self.pending@;
        let hashes = Seq::new(all.len(), |i: int| all[i].hash);
        assert(hashes.no_duplicates()) by {
            assert forall|i: int, j: int| 0 <= i < j < hashes.len() implies hashes[i]
                != hashes[j] by {
                let n = self.entries@.len() as int;
                if j < n {
                    assert(self.entries@[i].hash != self.entries@[j].hash);
                } else if i < n {
                    assert(self.entries@[i].hash != self.pending@[j - n].hash);
                } else {
                    assert(self.pending@[i - n].hash != self.pending@[j - n].hash);
                }
            }
        }
        hashes.unique_seq_to_set();
        assert(hashes.to_set() =~= self@.known.dom()) by {
            assert forall|h: EntryHash| hashes.to_set().contains(h) <==> self@.known.dom().contains(
                h,
            ) by {
                let n = self.entries@.len() as int;
                if hashes.to_set().contains(h) {
                    let i = choose|i: int| 0 <= i < hashes.len() && hashes[i] == h;
                    if i < n {
                        assert(self.entries@[i].hash == h);
                    } else {
                        assert(self.pending@[i - n].hash == h);
                    }
                }
                if holds(self.entries@, h) {
                    let i = place(self.entries@, h);
                    assert(hashes[i] == h);
                }
                if holds(self.pending@, h) {
                    let j = place(self.pending@, h);
                    assert(hashes[n + j] == h);
                }
            }
        }
    }

    /// Whether every entry of the list is known to `other`, just as it is.
    fn all_known_to(list: &Vec<Entry>, other: &Register) -> (res: bool)
        requires
            other.wf(),
        ensures
            res == forall|i: int|
                0 <= i < list@.len() ==> other@.known.contains_key((#[trigger] list@[i]).hash)
                    && other@.known[list@[i].hash] == list@[i]@,
    {
        proof {
            lemma_known_of(other.entries@, other.pending@);
        }
        let mut i: usize = 0;
        while i < list.len()
            invariant
                i <= list.len(),
                other.wf(),
                forall|m: int|
                    0 <= m < i ==> other@.known.contains_key((#[trigger] list@[m]).hash)
                        && other@.known[list@[m].hash] == list@[m]@,
                forall|m: int|
                    0 <= m < other.entries@.len() ==> other@.known.contains_key(
                        (#[trigger] other.entries@[m]).hash,
                    ) && other@.known[other.entries@[m].hash] == other.entries@[m]@,
                forall|m: int|
                    0 <= m < other.pending@.len() ==> other@.known.contains_key(
                        (#[trigger] other.pending@[m]).hash,
                    ) && other@.known[other.pending@[m].hash] == other.pending@[m]@,
            decreases list.len() - i,
        {
            let entry = &list[i];
            let same = match find(&other.entries, &entry.hash) {
                Some(x) => other.entries[x].same_as(entry),
                None => match find(&other.pending, &entry.hash) {
                    Some(y) => other.pending[y].same_as(entry),
                    None => false,
                },
            };
            if !same {
                return false;
            }
            i += 1;
        }
        true
    }

    /// Whether two registers are in the same state: the same address,
    /// owner and policy, and the same accepted edits, in whatever order
    /// they came.
    pub fn same_as(&self, other: &Register) -> (same: bool)
        requires
            self.wf(),
            other.wf(),
        ensures
            same == (self@ == other@),
    {
        proof {
            self.lemma_count_known();
            other.lemma_count_known();
            lemma_known_of(self.entries@, self.pending@);
        }
        if !self.address.same_as(&other.address) || !self.owner.same_as(&other.owner)
            || !self.policy.same_as(&other.policy) {
            return false;
        }
        if self.entries.len() != other.entries.len() || self.pending.len() != other.pending.len() {
            proof {
                if self@ == other@ {
                    self.lemma_count();
                    other.lemma_count();
                }
            }
            return false;
        }
        let same = Self::all_known_to(&self.entries, other) && Self::all_known_to(
            &self.pending,
            other,
        );
        proof {
            if same {
                assert forall|h: EntryHash| self@.known.contains_key(h) implies other@.known.contains_key(
                    h,
                ) && other@.known[h] == self@.known[h] by {
                    if holds(self.entries@, h) {
                        let i = place(self.entries@, h);
                        assert(self@.known[self.entries@[i].hash] == self.entries@[i]@);
                    } else {
                        let j = place(self.pending@, h);
                        assert(self@.known[self.pending@[j].hash] == self.pending@[j]@);
                    }
                }
                assert(self@.known.dom().subset_of(other@.known.dom()));
                vstd::set_lib::lemma_subset_equality(self@.known.dom(), other@.known.dom());
                assert(self@.known =~= other@.known);
            }
        }
        same
    }

    /// The number of entries.
    pub fn size(&self) -> (n: u64)
        requires
            self.wf(),
        ensures
            n == self@.entries().dom().len(),
            self@.entries().dom().finite(),
    {
        proof {
            self.lemma_count();
        }
        self.entries.len() as u64
    }

    /// The entry under a hash.
    pub fn get(&self, hash: EntryHash) -> (res: Result<&Entry>)
        requires
            self.wf(),
        ensures
            match res {
                Ok(entry) => self@.entries().contains_key(hash) && entry@ == self@.entries()[hash],
                Err(e) => !self@.entries().contains_key(hash) && e == Error::NoSuchEntry(hash),
            },
    {
        proof {
            lemma_entries_are_the_grounded(self.entries@, self.pending@);
            lemma_known_of(self.entries@, self.pending@);
        }
        match find(&self.entries, &hash) {
            Some(i) => {
                assert(holds(self.entries@, hash));
                Ok(&self.entries[i])
            },
            None => Err(Error::NoSuchEntry(hash)),
        }
    }

    /// Offers an edit to the register. An edit that does not go by the hash
    /// of its content is refused; one whose hash is known already changes
    /// nothing; any other is accepted, whether its parents are known or not.
    pub fn apply_op(&mut self, op: &RegisterOp) -> (res: Result<()>)
        requires
            old(self).wf(),
        ensures
            final(self).wf(),
            match old(self)@.apply(op.crdt_op@) {
                Ok(after) => res is Ok && final(self)@ == after,
                Err(e) => res == Err::<(), Error>(e) && final(self)@ == old(self)@,
            },
    {
        let edit = &op.crdt_op;
        if !edit.hash_matches() {
            return Err(Error::CrdtApplyError(edit.hash));
        }
        if find(&self.entries, &edit.hash).is_some() || find(&self.pending, &edit.hash).is_some() {
            return Ok(());
        }
        let copy = edit.duplicate();
        proof {
            lemma_take_in(self.entries@, self.pending@, copy);
        }
        self.pending.push(copy);
        loop
            invariant
                sound(self.entries@, self.pending@),
                self@ == old(self)@.accept(op.crdt_op@),
            ensures
                self.wf(),
            decreases self.pending.len(),
        {
            match find_ready(&self.entries, &self.pending) {
                Some(j) => {
                    proof {
                        lemma_adopt(self.entries@, self.pending@, j as int);
                    }
                    let moved = self.pending.remove(j);
                    self.entries.push(moved);
                },
                None => {
                    break ;
                },
            }
        }
        Ok(())
    }

    /// The hashes of the heads.
    fn head_hashes(&self) -> (heads: Vec<EntryHash>)
        requires
            self.wf(),
        ensures
            heads@.no_duplicates(),
            forall|h: EntryHash| heads@.contains(h) <==> self@.heads().contains(h),
    {
        let mut heads: Vec<EntryHash> = Vec::new();
        let mut i: usize = 0;
        while i < self.entries.len()
            invariant
                i <= self.entries.len(),
                distinct(self.entries@),
                forall|m: int|
                    0 <= m < heads@.len() ==> holds(
                        self.entries@.subrange(0, i as int),
                        #[trigger] heads@[m],
                    ),
                forall|x: int|
                    0 <= x < i && !is_parent(self.entries@, (#[trigger] self.entries@[x]).hash)
                        ==> heads@.contains(self.entries@[x].hash),
                forall|m: int|
                    0 <= m < heads@.len() ==> !is_parent(self.entries@, #[trigger] heads@[m]),
                heads@.no_duplicates(),
            decreases self.entries.len() - i,
        {
            if !has_child(&self.entries, &self.entries[i].hash) {
                let ghost before = heads@;
                heads.push(self.entries[i].hash);
                proof {
                    let h = self.entries@[i as int].hash;
                    assert(!before.contains(h)) by {
                        if before.contains(h) {
                            let m = choose|m: int| 0 <= m < before.len() && before[m] == h;
                            let x = place(self.entries@.subrange(0, i as int), before[m]);
                            assert(self.entries@.subrange(0, i as int)[x] == self.entries@[x]);
                            assert(self.entries@[x].hash != self.entries@[i as int].hash);
                        }
                    }
                    assert forall|x: int|
                        0 <= x < i + 1 && !is_parent(
                            self.entries@,
                            (#[trigger] self.entries@[x]).hash,
                        ) implies heads@.contains(self.entries@[x].hash) by {
                        if x < i {
                            let m = choose|m: int|
                                0 <= m < before.len() && before[m] == self.entries@[x].hash;
                            assert(heads@[m] == self.entries@[x].hash);
                        } else {
                            assert(heads@[before.len() as int] == h);
                        }
                    }
                    assert forall|m: int| 0 <= m < heads@.len() implies holds(
                        self.entries@.subrange(0, i + 1),
                        #[trigger] heads@[m],
                    ) by {
                        if m < before.len() {
                            let x = place(self.entries@.subrange(0, i as int), before[m]);
                            assert(self.entries@.subrange(0, i + 1)[x].hash == before[m]);
                        } else {
                            assert(self.entries@.subrange(0, i + 1)[i as int].hash == h);
                        }
                    }
                }
            } else {
                proof {
                    assert forall|m: int| 0 <= m < heads@.len() implies holds(
                        self.entries@.subrange(0, i + 1),
                        #[trigger] heads@[m],
                    ) by {
                        let x = place(self.entries@.subrange(0, i as int), heads@[m]);
                        assert(self.entries@.subrange(0, i + 1)[x].hash == heads@[m]);
                    }
                }
            }
            i += 1;
        }
        proof {
            lemma_entries_are_the_grounded(self.entries@, self.pending@);
            lemma_known_of(self.entries@, self.pending@);
            let view = self@;
            assert forall|h: EntryHash| heads@.contains(h) <==> view.heads().contains(h) by {
                if heads@.contains(h) {
                    let m = choose|m: int| 0 <= m < heads@.len() && heads@[m] == h;
                    let x = place(self.entries@.subrange(0, i as int), heads@[m]);
                    assert(self.entries@.subrange(0, i as int)[x] == self.entries@[x]);
                    assert(holds(self.entries@, h));
                    assert forall|c: EntryHash| view.entries().contains_key(c) implies !(
                    #[trigger] view.entries()[c]).parents.contains(h) by {
                        let y = place(self.entries@, c);
                        assert(view.known[self.entries@[y].hash] == self.entries@[y]@);
                        assert(!self.entries@[y].parents@.contains(h));
                    }
                }
                if view.heads().contains(h) {
                    let x = place(self.entries@, h);
                    if is_parent(self.entries@, h) {
                        let y = choose|y: int|
                            0 <= y < self.entries@.len() && (
                            #[trigger] self.entries@[y]).parents@.contains(h);
                        let c = self.entries@[y].hash;
                        assert(holds(self.entries@, c));
                        assert(view.known[self.entries@[y].hash] == self.entries@[y]@);
                        assert(view.entries()[c].parents.contains(h));
                    }
                    assert(heads@.contains(self.entries@[x].hash));
                }
            }
        }
        heads
    }

    /// The entries and the heads, as they stand.
    pub fn read(&self) -> (snapshot: Snapshot)
        requires
            self.wf(),
        ensures
            snapshot.shows(self@),
    {
        let heads = self.head_hashes();
        let mut entries: Vec<Entry> = Vec::new();
        let mut i: usize = 0;
        while i < self.entries.len()
            invariant
                i <= self.entries.len(),
                entries@.len() == i,
                forall|m: int| 0 <= m < i ==> (#[trigger] entries@[m])@ == self.entries@[m]@,
            decreases self.entries.len() - i,
        {
            entries.push(self.entries[i].duplicate());
            i += 1;
        }
        proof {
            self.lemma_count();
            lemma_entries_are_the_grounded(self.entries@, self.pending@);
            lemma_known_of(self.entries@, self.pending@);
            assert forall|m: int| 0 <= m < entries@.len() implies self@.entries().contains_key(
                (#[trigger] entries@[m]).hash,
            ) && entries@[m]@ == self@.entries()[entries@[m].hash] by {
                assert(entries@[m]@ == self.entries@[m]@);
                assert(holds(self.entries@, self.entries@[m].hash));
                assert(self@.known[self.entries@[m].hash] == self.entries@[m]@);
            }
            assert forall|h: EntryHash| self@.entries().contains_key(h) implies exists|m: int|
                0 <= m < entries@.len() && (#[trigger] entries@[m]).hash == h by {
                let x = place(self.entries@, h);
                assert(entries@[x]@ == self.entries@[x]@);
                assert(entries@[x].hash == h);
            }
        }
        Snapshot { entries, heads }
    }

    /// Writes a value into the register, on top of the given parents or,
    /// where none are given, on top of the current heads. Returns the hash
    /// of the new entry and the edit to hand to other replicas.
    pub fn write(&mut self, value: Vec<u8>, parents: Vec<EntryHash>) -> (res: (EntryHash, RegisterOp))
        requires
            old(self).wf(),
        ensures
            final(self).wf(),
            res.1.crdt_op@.hash == res.0,
            res.1.crdt_op@.hash_matches(),
            res.1.crdt_op@.value == value@,
            parents@.len() > 0 ==> res.1.crdt_op@.parents == parents@,
            parents@.len() == 0 ==> res.1.crdt_op@.parents.no_duplicates() && forall|h: EntryHash|
                res.1.crdt_op@.parents.contains(h) <==> old(self)@.heads().contains(h),
            final(self)@ == old(self)@.accept(res.1.crdt_op@),
    {
        let on_top_of = if parents.len() == 0 {
            self.head_hashes()
        } else {
            parents
        };
        let entry = Entry::new(value, on_top_of);
        let hash = entry.hash;
        let op = RegisterOp { crdt_op: entry };
        let applied = self.apply_op(&op);
        assert(applied is Ok);
        (hash, op)
    }
}

} // verus!

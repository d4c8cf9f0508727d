//! The entries of a register: values linked to their parents by hash.

use crate::address::bytes_eq;
use crate::digest::{sha3_256, sha3_256_digest};
use vstd::bytes::{spec_u64_to_le_bytes, u64_to_le_bytes};
use vstd::prelude::*;

verus! {

/// The content hash that names an entry.
#[derive(Clone, Copy, Debug, PartialEq, Eq, PartialOrd, Ord, Hash)]
pub struct EntryHash(pub [u8; 32]);

/// One entry of a register: a value, the entries it was written on top of,
/// and the hash it goes by.
#[derive(Clone, Debug, PartialEq, Eq)]
pub struct Entry {
    pub hash: EntryHash,
    pub value: Vec<u8>,
    pub parents: Vec<EntryHash>,
}

/// An entry as a mathematical value.
pub struct EntryView {
    pub hash: EntryHash,
    pub value: Seq<u8>,
    pub parents: Seq<EntryHash>,
}

impl View for Entry {
    type V = EntryView;

    open spec fn view(&self) -> EntryView {
        EntryView { hash: self.hash, value: self.value@, parents: self.parents@ }
    }
}

/// The parents' hashes laid end to end, 32 bytes each.
pub open spec fn spec_hashes_bytes(hashes: Seq<EntryHash>) -> Seq<u8> {
    Seq::new(32 * hashes.len(), |i: int| hashes[i / 32].0@[i % 32])
}

/// The bytes an entry's hash is taken over: the number of parents, the
/// parents, then the value.
pub open spec fn spec_entry_preimage(value: Seq<u8>, parents: Seq<EntryHash>) -> Seq<u8> {
    spec_u64_to_le_bytes(parents.len() as u64) + spec_hashes_bytes(parents) + value
}

/// The hash that an entry with this value and these parents goes by.
pub open spec fn spec_entry_hash(value: Seq<u8>, parents: Seq<EntryHash>) -> Seq<u8> {
    sha3_256(spec_entry_preimage(value, parents))
}

impl EntryView {
    /// Whether the entry goes by the hash of its own content.
    pub open spec fn hash_matches(self) -> bool {
        self.hash.0@ == spec_entry_hash(self.value, self.parents)
    }
}

impl EntryHash {
    /// Whether two hashes are the same.
    pub fn same_as(&self, other: &EntryHash) -> (same: bool)
        ensures
            same == (*self == *other),
    {
        let same = bytes_eq(self.0.as_slice(), other.0.as_slice());
        proof {
            if same {
                assert(self.0 =~= other.0);
            }
        }
        same
    }
}

/// Appends the hashes to `out`, 32 bytes each.
pub fn push_hashes(out: &mut Vec<u8>, hashes: &Vec<EntryHash>)
    ensures
        final(out)@ == old(out)@ + spec_hashes_bytes(hashes@),
{
    let ghost before = out@;
    let mut i: usize = 0;
    while i < hashes.len()
        invariant
            i <= hashes.len(),
            out@ == before + spec_hashes_bytes(hashes@.subrange(0, i as int)),
        decreases hashes.len() - i,
    {
        let ghost prev = out@;
        out.extend_from_slice(hashes[i].0.as_slice());
        proof {
            let done = hashes@.subrange(0, i as int);
            let next = hashes@.subrange(0, i as int + 1);
            assert(spec_hashes_bytes(next) =~= spec_hashes_bytes(done) + hashes@[i as int].0@) by {
                assert forall|k: int| 0 <= k < 32 * next.len() implies spec_hashes_bytes(next)[k] == (
                spec_hashes_bytes(done) + hashes@[i as int].0@)[k] by {
                    if k < 32 * done.len() {
                        assert(next[k / 32] == done[k / 32]);
                    } else {
                        assert(k / 32 == i as int);
                        assert(k % 32 == k - 32 * done.len());
                    }
                }
            }
            assert(out@ =~= before + spec_hashes_bytes(next));
        }
        i += 1;
    }
    assert(hashes@.subrange(0, hashes@.len() as int) =~= hashes@);
}

/// Computes the hash that an entry with this value and these parents goes
/// by.
pub fn entry_hash(value: &Vec<u8>, parents: &Vec<EntryHash>) -> (hash: EntryHash)
    ensures
        hash.0@ == spec_entry_hash(value@, parents@),
{
    let mut preimage = u64_to_le_bytes(parents.len() as u64);
    push_hashes(&mut preimage, parents);
    preimage.extend_from_slice(value.as_slice());
    assert(preimage@ =~= spec_entry_preimage(value@, parents@));
    EntryHash(sha3_256_digest(preimage.as_slice()))
}

impl Entry {
    /// Builds the entry for a value written on top of the given parents,
    /// under the hash of that content.
    pub fn new(value: Vec<u8>, parents: Vec<EntryHash>) -> (entry: Entry)
        ensures
            entry@.value == value@,
            entry@.parents == parents@,
            entry@.hash_matches(),
    {
        let hash = entry_hash(&value, &parents);
        Entry { hash, value, parents }
    }

    /// Whether the entry goes by the hash of its own content.
    pub fn hash_matches(&self) -> (ok: bool)
        ensures
            ok == self@.hash_matches(),
    {
        let expected = entry_hash(&self.value, &self.parents);
        let ok = bytes_eq(self.hash.0.as_slice(), expected.0.as_slice());
        ok
    }

    /// Whether two entries are the same: hash, value and parents.
    pub fn same_as(&self, other: &Entry) -> (same: bool)
        ensures
            same == (self@ == other@),
    {
        if !self.hash.same_as(&other.hash) {
            return false;
        }
        if !bytes_eq(self.value.as_slice(), other.value.as_slice()) {
            return false;
        }
        if self.parents.len() != other.parents.len() {
            return false;
        }
        let mut k: usize = 0;
        while k < self.parents.len()
            invariant
                k <= self.parents.len(),
                self.parents@.len() == other.parents@.len(),
                forall|m: int| 0 <= m < k ==> self.parents@[m] == other.parents@[m],
            decreases self.parents.len() - k,
        {
            if !self.parents[k].same_as(&other.parents[k]) {
                return false;
            }
            k += 1;
        }
        assert(self.parents@ =~= other.parents@);
        true
    }

    /// A copy of the entry.
    pub fn duplicate(&self) -> (copy: Entry)
        ensures
            copy@ == self@,
    {
        let mut value: Vec<u8> = Vec::new();
        value.extend_from_slice(self.value.as_slice());
        let mut parents: Vec<EntryHash> = Vec::new();
        parents.extend_from_slice(self.parents.as_slice());
        assert(value@ =~= self.value@);
        assert(parents@ =~= self.parents@);
        Entry { hash: self.hash, value, parents }
    }
}

} // verus!

//! Register addresses and the directory each one is stored under.

use crate::digest::{hex_encode, hex_text, sha3_256, sha3_256_digest};
use vstd::bytes::{spec_u64_to_le_bytes, u64_to_le_bytes};
use vstd::prelude::*;
use vstd::string::StrSliceExecFns;
use vstd::string::StringExecFns;

verus! {

/// How many single-character directories lie between the store's root and a
/// register's own directory.
pub const PREFIX_TREE_DEPTH: usize = 4;

/// A 32-byte name in the network's address space.
#[derive(Clone, Copy, Debug, PartialEq, Eq, PartialOrd, Ord, Hash)]
pub struct XorName(pub [u8; 32]);

/// Where a register lives: a name and a tag. Two addresses are the same
/// register only if both agree.
#[derive(Clone, Copy, Debug, PartialEq, Eq, PartialOrd, Ord, Hash)]
pub struct RegisterAddress {
    pub name: XorName,
    pub tag: u64,
}

/// Whether two byte slices hold the same bytes.
pub fn bytes_eq(a: &[u8], b: &[u8]) -> (same: bool)
    ensures
        same == (a@ == b@),
{
    if a.len() != b.len() {
        return false;
    }
    let mut i: usize = 0;
    while i < a.len()
        invariant
            i <= a.len(),
            a@.len() == b@.len(),
            forall|k: int| 0 <= k < i ==> a@[k] == b@[k],
        decreases a.len() - i,
    {
        if a[i] != b[i] {
            return false;
        }
        i += 1;
    }
    assert(a@ =~= b@);
    true
}

impl XorName {
    /// Whether two names are the same.
    pub fn same_as(&self, other: &XorName) -> (same: bool)
        ensures
            same == (*self == *other),
    {
        let same = bytes_eq(self.0.as_slice(), other.0.as_slice());
        proof {
            if same {
                assert(self.0 =~= other.0);
            }
        }
        same
    }
}

impl RegisterAddress {
    /// The bytes that identify an address: the name followed by the tag,
    /// little-endian.
    pub open spec fn spec_id_preimage(self) -> Seq<u8> {
        self.name.0@ + spec_u64_to_le_bytes(self.tag)
    }

    /// The identifier of an address: the SHA3-256 digest of its name and tag.
    pub open spec fn spec_id(self) -> Seq<u8> {
        sha3_256(self.spec_id_preimage())
    }

    pub fn new(name: XorName, tag: u64) -> (addr: RegisterAddress)
        ensures
            addr.name == name,
            addr.tag == tag,
    {
        RegisterAddress { name, tag }
    }

    /// The name part of the address.
    pub fn name(&self) -> (name: &XorName)
        ensures
            *name == self.name,
    {
        &self.name
    }

    /// The tag part of the address.
    pub fn tag(&self) -> (tag: u64)
        ensures
            tag == self.tag,
    {
        self.tag
    }

    /// Whether two addresses are the same.
    pub fn same_as(&self, other: &RegisterAddress) -> (same: bool)
        ensures
            same == (*self == *other),
    {
        self.tag == other.tag && self.name.same_as(&other.name)
    }

    /// The identifier that covers both the name and the tag. Equal addresses
    /// have equal identifiers.
    pub fn id(&self) -> (id: XorName)
        ensures
            id.0@ == self.spec_id(),
    {
        let mut preimage: Vec<u8> = Vec::new();
        preimage.extend_from_slice(self.name.0.as_slice());
        let tag_bytes = u64_to_le_bytes(self.tag);
        preimage.extend_from_slice(tag_bytes.as_slice());
        assert(preimage@ =~= self.spec_id_preimage());
        XorName(sha3_256_digest(preimage.as_slice()))
    }
}

/// The directory of a register below the store's directory: one directory
/// per leading hex digit of the identifier, then one named by the whole
/// identifier in hex.
pub open spec fn spec_prefix_tree_path(id: Seq<u8>) -> Seq<Seq<char>> {
    Seq::new(PREFIX_TREE_DEPTH as nat, |i: int| hex_text(id).subrange(i, i + 1)).push(hex_text(id))
}

/// Hex digits are ASCII.
pub proof fn lemma_hex_text_is_ascii(data: Seq<u8>)
    ensures
        vstd::utf8::is_ascii_chars(hex_text(data)),
        hex_text(data).len() == 2 * data.len(),
{
    assert forall|i: int| 0 <= i < hex_text(data).len() implies '\0' <= #[trigger] hex_text(
        data,
    )[i] <= '\u{7f}' by {}
}

/// Computes the directory of a register below the store's directory from
/// the register's identifier.
pub fn prefix_tree_path(id: &XorName) -> (path: Vec<String>)
    ensures
        path@.len() == PREFIX_TREE_DEPTH + 1,
        forall|i: int| 0 <= i < path@.len() ==> path@[i]@ == spec_prefix_tree_path(id.0@)[i],
{
    let full = hex_encode(id.0.as_slice());
    proof {
        lemma_hex_text_is_ascii(id.0@);
    }
    let mut path: Vec<String> = Vec::new();
    let mut i: usize = 0;
    while i < PREFIX_TREE_DEPTH
        invariant
            i <= PREFIX_TREE_DEPTH,
            full@ == hex_text(id.0@),
            full@.len() == 64,
            vstd::utf8::is_ascii_chars(full@),
            path@.len() == i,
            forall|k: int| 0 <= k < i ==> path@[k]@ == spec_prefix_tree_path(id.0@)[k],
        decreases PREFIX_TREE_DEPTH - i,
    {
        let digit = full.as_str().substring_ascii(i, i + 1);
        path.push(String::from_str(digit));
        i += 1;
    }
    path.push(full);
    path
}

} // verus!

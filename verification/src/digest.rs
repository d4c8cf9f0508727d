//! Hashing, signature checking and hex encoding, as done by the crates this
//! library relies on. The contracts in this file are taken on trust.

use tiny_keccak::Hasher;
use vstd::prelude::*;

verus! {

/// The SHA3-256 digest of a byte string.
pub uninterp spec fn sha3_256(data: Seq<u8>) -> Seq<u8>;

/// The SHA3-512 digest of a byte string.
pub uninterp spec fn sha3_512(data: Seq<u8>) -> Seq<u8>;

/// Whether a BLS signature, given by its 96 compressed bytes, matches a
/// message under a public key, given by its 48 compressed bytes.
pub uninterp spec fn bls_verifies(public_key: Seq<u8>, signature: Seq<u8>, message: Seq<u8>) -> bool;

/// The lower-case hex digit for a value below sixteen.
pub open spec fn hex_digit(n: int) -> char {
    if n == 0 {
        '0'
    } else if n == 1 {
        '1'
    } else if n == 2 {
        '2'
    } else if n == 3 {
        '3'
    } else if n == 4 {
        '4'
    } else if n == 5 {
        '5'
    } else if n == 6 {
        '6'
    } else if n == 7 {
        '7'
    } else if n == 8 {
        '8'
    } else if n == 9 {
        '9'
    } else if n == 10 {
        'a'
    } else if n == 11 {
        'b'
    } else if n == 12 {
        'c'
    } else if n == 13 {
        'd'
    } else if n == 14 {
        'e'
    } else {
        'f'
    }
}

/// The lower-case hex text of a byte string: two digits per byte, the high
/// half first.
pub open spec fn hex_text(data: Seq<u8>) -> Seq<char> {
    Seq::new(
        2 * data.len(),
        |i: int|
            if i % 2 == 0 {
                hex_digit(data[i / 2] as int / 16)
            } else {
                hex_digit(data[i / 2] as int % 16)
            },
    )
}

/// Runs tiny-keccak's `Sha3::v256` hasher over `data` and squeezes 32 bytes.
/// The result is a function of `data` alone; it is known here only by name.
#[verifier::external_body]
pub(crate) fn sha3_256_digest(data: &[u8]) -> (digest: [u8; 32])
    ensures
        digest@ == sha3_256(data@),
{
    let mut hasher = tiny_keccak::Sha3::v256();
    let mut output = [0u8; 32];
    hasher.update(data);
    hasher.finalize(&mut output);
    output
}

/// Runs tiny-keccak's `Sha3::v512` hasher over `data` and squeezes 64 bytes.
/// The result is a function of `data` alone; it is known here only by name.
#[verifier::external_body]
pub(crate) fn sha3_512_digest(data: &[u8]) -> (digest: [u8; 64])
    ensures
        digest@ == sha3_512(data@),
{
    let mut hasher = tiny_keccak::Sha3::v512();
    let mut output = [0u8; 64];
    hasher.update(data);
    hasher.finalize(&mut output);
    output
}

/// Decodes the key and the signature with blsttc's `PublicKey::from_bytes`
/// and `Signature::from_bytes`, then calls `PublicKey::verify`. Bytes that
/// decode to no key or no signature verify nothing. The answer is a function
/// of the three byte strings alone; it is known here only by name.
#[verifier::external_body]
pub(crate) fn bls_verify(public_key: &[u8; 48], signature: &[u8; 96], message: &[u8]) -> (ok: bool)
    ensures
        ok == bls_verifies(public_key@, signature@, message@),
{
    match (blsttc::PublicKey::from_bytes(*public_key), blsttc::Signature::from_bytes(*signature)) {
        (Ok(key), Ok(sig)) => key.verify(&sig, message),
        _ => false,
    }
}

/// Calls `hex::encode`, which writes each byte as two lower-case hex digits,
/// the high half first.
#[verifier::external_body]
pub(crate) fn hex_encode(data: &[u8]) -> (text: String)
    ensures
        text@ == hex_text(data@),
{
    hex::encode(data)
}

} // verus!

//! The digest primitive: Keccak-256 over bytes, written as lowercase hex.

use tiny_keccak::Hasher;
use vstd::prelude::*;

verus! {

/// The 32-byte Keccak-256 digest of a byte string.
pub uninterp spec fn keccak256_of(input: Seq<u8>) -> Seq<u8>;

/// The lowercase hex digit of a value below sixteen.
pub open spec fn hex_digit(n: u8) -> char {
    seq!['0', '1', '2', '3', '4', '5', '6', '7', '8', '9', 'a', 'b', 'c', 'd', 'e', 'f'][(n
        % 16) as int]
}

/// Two lowercase hex digits per byte, high nibble first.
pub open spec fn hex_of(b: Seq<u8>) -> Seq<char>
    decreases b.len(),
{
    if b.len() == 0 {
        Seq::empty()
    } else {
        hex_of(b.drop_last()) + seq![hex_digit(b.last() / 16), hex_digit(b.last() % 16)]
    }
}

/// The canonical digest string of a byte string.
pub open spec fn digest_of(b: Seq<u8>) -> Seq<char> {
    hex_of(keccak256_of(b))
}

pub proof fn lemma_hex_len(b: Seq<u8>)
    ensures
        hex_of(b).len() == 2 * b.len(),
    decreases b.len(),
{
    if b.len() > 0 {
        lemma_hex_len(b.drop_last());
    }
}

/// Relies on tiny_keccak's `Keccak::v256`: `update` with the input, then
/// `finalize`, gives the Keccak-256 digest of the input.
#[verifier::external_body]
fn keccak256(input: &[u8]) -> (r: [u8; 32])
    ensures
        r@ == keccak256_of(input@),
{
    let mut keccak = tiny_keccak::Keccak::v256();
    let mut out = [0u8; 32];
    keccak.update(input);
    keccak.finalize(&mut out);
    out
}

/// Relies on hex::encode: each byte becomes two lowercase hex digits, high
/// nibble first, in the order of the input.
#[verifier::external_body]
fn hex_encode(b: &[u8]) -> (r: String)
    ensures
        r@ == hex_of(b@),
{
    hex::encode(b)
}

/// Hashes a byte string to its 64-character hex digest.
pub fn hash_bytes(input: &[u8]) -> (r: String)
    ensures
        r@ == digest_of(input@),
        r@.len() == 64,
{
    let h = keccak256(input);
    let r = hex_encode(&h);
    proof {
        lemma_hex_len(h@);
    }
    r
}

} // verus!

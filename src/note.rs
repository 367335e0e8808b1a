//! Notes, the secrets that open them, and the commitment and nullifier
//! derived from a secret.

use crate::digest::{digest_of, hash_bytes};
use vstd::prelude::*;

verus! {

/// A note's public identity: its commitment digest.
#[derive(Clone, Debug)]
pub struct NoteCommitment {
    pub commitment: String,
}

impl View for NoteCommitment {
    type V = Seq<char>;

    open spec fn view(&self) -> Seq<char> {
        self.commitment@
    }
}

/// The commitments of a sequence of notes, in order.
pub open spec fn commitments_of(notes: Seq<NoteCommitment>) -> Seq<Seq<char>> {
    notes.map_values(|n: NoteCommitment| n@)
}

/// Domain tag of commitments.
pub open spec fn cm_tag() -> Seq<u8> {
    seq![99u8, 109u8]
}

/// Domain tag of nullifiers.
pub open spec fn nf_tag() -> Seq<u8> {
    seq![110u8, 102u8]
}

/// The commitment that a secret opens.
pub open spec fn cm_of(rho: Seq<u8>) -> Seq<char> {
    digest_of(cm_tag() + rho)
}

/// The spend marker that a secret reveals.
pub open spec fn nf_of(rho: Seq<u8>) -> Seq<char> {
    digest_of(nf_tag() + rho)
}

/// The commitment and the nullifier of one secret are hashed under distinct
/// tags, so their pre-images never coincide.
pub proof fn lemma_tags_separate(rho: Seq<u8>)
    ensures
        cm_tag() + rho != nf_tag() + rho,
{
    assert((cm_tag() + rho)[0] != (nf_tag() + rho)[0]);
}

fn tagged_digest(t0: u8, t1: u8, rho: &[u8; 32]) -> (r: String)
    ensures
        r@ == digest_of(seq![t0, t1] + rho@),
        r@.len() == 64,
{
    let mut buf: Vec<u8> = Vec::new();
    buf.push(t0);
    buf.push(t1);
    let mut i: usize = 0;
    while i < 32
        invariant
            i <= 32,
            rho@.len() == 32,
            buf@ == seq![t0, t1] + rho@.take(i as int),
        decreases 32 - i,
    {
        buf.push(rho[i]);
        i = i + 1;
        assert(buf@ =~= seq![t0, t1] + rho@.take(i as int));
    }
    assert(rho@.take(32) =~= rho@);
    hash_bytes(buf.as_slice())
}

/// The commitment of a note opened by `rho`.
pub fn cm_from_rho(rho: &[u8; 32]) -> (r: String)
    ensures
        r@ == cm_of(rho@),
        r@.len() == 64,
{
    let r = tagged_digest(99, 109, rho);
    assert(seq![99u8, 109u8] =~= cm_tag());
    r
}

/// The nullifier revealed when the note opened by `rho` is spent.
pub fn nf_from_rho(rho: &[u8; 32]) -> (r: String)
    ensures
        r@ == nf_of(rho@),
        r@.len() == 64,
{
    let r = tagged_digest(110, 102, rho);
    assert(seq![110u8, 102u8] =~= nf_tag());
    r
}

} // verus!

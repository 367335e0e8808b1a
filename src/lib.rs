//! A client-side note wallet whose state is advanced block by block and
//! bound to its history by a chained digest that stands in for a proof.

pub mod digest;
pub mod note;
pub mod secrets;
pub mod aggregate;
pub mod delta;
pub mod wallet;

pub use aggregate::wallet_commitment;
pub use delta::{compute_next_proof, encode_delta, BlockDelta};
pub use digest::hash_bytes;
pub use note::{cm_from_rho, nf_from_rho, NoteCommitment};
pub use secrets::SecretMap;
pub use wallet::{
    add_owned_note, apply_block, new_owned_note, verify_chain, verify_transition, SequenceError,
    WalletState,
};

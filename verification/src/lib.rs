use vstd::prelude::*;

pub mod block;
pub mod blockchain;
pub mod codec;
pub mod store;
pub mod transaction;
pub mod utils;
pub mod utxo_set;
pub mod wallet;

verus! {

/// Failures surfaced by chain-store and index operations.
#[derive(Clone, Copy, Debug, PartialEq, Eq, Structural)]
pub enum ChainError {
    /// The tip pointer references a hash with no well-formed block record
    /// behind it, or an append would collide with an existing record.
    CorruptState,
    /// A persisted record did not decode to a well-formed value.
    SerializationFailure,
    /// An address did not decode to an owner digest.
    InvalidAddress,
    /// The sealing algorithm exhausted its nonce range without finding a
    /// digest below the target.
    SealExhausted,
}

} // verus!

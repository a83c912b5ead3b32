use vstd::prelude::*;

verus! {

/// Why a block or a transaction was refused.
#[derive(Debug, Clone)]
pub enum BtcError {
    /// A transaction breaks a consensus rule.
    InvalidTransaction,
    /// An input's signature does not verify.
    InvalidSignature,
    /// A block breaks a consensus rule.
    InvalidBlock,
    /// A block's merkle root does not match its transactions.
    InvalidMerkleRoot,
    /// The mempool kept a conflicting transaction instead of this one.
    TransactionDropped(String),
}

/// Results of this library.
pub type Result<T> = core::result::Result<T, BtcError>;

} // verus!

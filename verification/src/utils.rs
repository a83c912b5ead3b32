pub mod lookup;
pub mod merkle_tree;

pub use merkle_tree::MerkleRoot;

use vstd::prelude::*;

verus! {

/// Marks the values that are stored whole in files of their own: blocks, transactions,
/// the chain and keys.
pub trait AutoSaveable {}

impl AutoSaveable for crate::types::Block {}

impl AutoSaveable for crate::types::Transaction {}

impl AutoSaveable for crate::types::Blockchain {}

impl AutoSaveable for crate::crypto::PublicKey {}

impl AutoSaveable for crate::crypto::PrivateKey {}

} // verus!

use vstd::prelude::*;

pub mod u256;
pub mod sha256;
pub mod crypto;
pub mod codec;
pub mod time;
pub mod utils;
pub mod error;
pub mod network;
pub mod node;
pub mod wallet;
pub mod types;

pub use u256::U256;

verus! {

/// Coins minted by the first block's coinbase, in whole bitcoins.
pub const INITIAL_REWARD: u64 = 50;

/// Number of blocks after which the block reward halves.
pub const HALVING_INTERVAL: u64 = 210;

/// The time, in seconds, that mining one block should take.
pub const IDEAL_BLOCK_TIME: u64 = 10;

/// Number of blocks between two adjustments of the proof-of-work target.
pub const DIFFICULTY_UPDATE_INTERVAL: u64 = 50;

/// Seconds a transaction may wait in the mempool before it is evicted.
pub const MAX_MEMPOOL_TRANSACTION_AGE: u64 = 600;

/// Most transactions a block template carries, besides the coinbase.
pub const BLOCK_TRANSACTION_CAP: usize = 20;

/// Most peers a node connects to from one list of addresses.
pub const MAX_PEERS_TO_CONNECT: usize = 8;

/// The easiest proof-of-work target: 2^240 - 1.
pub open spec fn spec_min_target() -> U256 {
    U256 {
        l0: 0xFFFF_FFFF_FFFF_FFFF,
        l1: 0xFFFF_FFFF_FFFF_FFFF,
        l2: 0xFFFF_FFFF_FFFF_FFFF,
        l3: 0x0000_FFFF_FFFF_FFFF,
    }
}

/// The easiest proof-of-work target.
#[verifier::when_used_as_spec(spec_min_target)]
pub fn min_target() -> (r: U256)
    ensures
        r == spec_min_target(),
{
    U256 {
        l0: 0xFFFF_FFFF_FFFF_FFFF,
        l1: 0xFFFF_FFFF_FFFF_FFFF,
        l2: 0xFFFF_FFFF_FFFF_FFFF,
        l3: 0x0000_FFFF_FFFF_FFFF,
    }
}

} // verus!

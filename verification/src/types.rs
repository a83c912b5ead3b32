pub mod transaction;
pub mod block;
pub mod blockchain;
pub mod mempool;

pub use transaction::{Transaction, TransactionInput, TransactionOutput};
pub use block::{Block, BlockHeader};
pub use blockchain::{Blockchain, MempoolEntry};

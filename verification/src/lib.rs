pub mod block;
pub mod chain;
pub mod clock;
pub mod hashing;
pub mod keys;
pub mod mempool;
pub mod message;
pub mod strutil;
pub mod sync;
pub mod transaction;

pub use block::Block;
pub use chain::Blockchain;
pub use keys::Wallet;
pub use mempool::MemPool;
pub use message::Message;
pub use transaction::Transaction;

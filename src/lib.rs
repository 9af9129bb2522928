//! Scheduling core of a parallel Ethereum faucet: a pool of sender wallets, a
//! queue of pending transfers and a table of transfers in flight, with the
//! decisions that move wallets and requests between them.
pub mod amount;
pub mod laws;
pub mod pool;
pub mod state;
pub mod types;

pub use amount::Amount;
pub use pool::{ClientPool, PoolEntry};
pub use state::{InflightEntry, State, Submission};
pub use types::{Address, Options, Transfer, TransferError, TransferRequest, TxHash, Wallet};

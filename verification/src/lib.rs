//! In-process control plane of a blockchain node.
//!
//! Each cooperating service (chain state, transaction pool, miner, block
//! verifier, notify hub) is modelled as a single-writer state machine
//! whose transition functions are verified. The channel-and-thread
//! plumbing that carries calls between the services at run time lives
//! outside this library; a worker thread owns one of these state values
//! and drives it with the messages it receives, and a caller whose
//! service has stopped is answered with `ServiceUnavailable` instead of
//! blocking forever.

pub mod block_verifier;
pub mod chain;
pub mod miner;
pub mod notify;
pub mod tx_pool;
pub mod util;

//! Block-based BFT consensus core of a sharded validator network: the block, QC and command
//! model with its hashing, the block store with its three-chain commit rule and safeNode
//! predicate, the versioned substate store, foreign-proposal ordering and block pledges.
pub mod auth;
pub mod block;
pub mod bytes;
pub mod codec;
pub mod commit_result;
pub mod encoding;
pub mod events;
pub mod fmap;
pub mod foreign;
pub mod laws;
pub mod pledge;
pub mod store;
pub mod substate;
pub mod types;
pub mod updates;

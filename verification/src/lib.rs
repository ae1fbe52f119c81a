//! Consensus state engine of a blind-merge-mined sidechain node: a UTXO
//! store, a block archive and a mempool, and the coordinator that binds
//! them to parent-chain events.

pub mod adapter;
pub mod amounts;
pub mod archive;
pub mod bundle_order;
pub mod clock;
pub mod codec;
pub mod decode;
pub mod hashing;
pub mod mempool;
pub mod node;
pub mod server;
pub mod state;
pub mod tables;
pub mod text;
pub mod types;
pub mod unit_key;
pub mod utxos;

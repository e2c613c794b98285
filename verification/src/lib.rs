//! Peer bookkeeping, content-fetch coordination and configuration logic of a
//! Portal Network client, with the behaviour of each operation stated as a
//! contract and proved with Verus.

pub mod distance;
pub mod enr;
pub mod peer;
pub mod selection;
pub mod peers;
pub mod id_set;
pub mod coordinator;
pub mod network;
pub mod sync;
pub mod census;
pub mod bootnodes;
pub mod storage;
pub mod protocol;
pub mod commands;
pub mod utils;
pub mod tools;
pub mod endpoints;
pub mod block_chain;

//! Node-side logic of a proof-of-stake validator: slashing protection,
//! state-sync and directed-sync wire formats, the block-log index and the
//! JSON-RPC surface, each with its contract.
#![allow(unused_imports)]

pub mod bytes;
pub mod codec;
pub mod digest;
pub mod text;
pub mod json;
pub mod rpc;
pub mod p2p;
pub mod state_sync;
pub mod slashprot;
pub mod signing_history;
pub mod slashdb;
pub mod native_snapshot;
pub mod native_quote;
pub mod slashing_cli;
pub mod store;

//! Verified core of a two-layer BFT consensus protocol: parallel HotStuff-style
//! chains per authority, and an asynchronous binary agreement (ABA) that
//! decides where the leader chain is cut when its leader stops making progress.

pub mod aggregator;
pub mod commit;
pub mod config;
pub mod protocol;
pub mod synchronizer;
pub mod crypto;
pub mod error;
pub mod messages;
pub mod util;

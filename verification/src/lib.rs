//! Verified core of a proof-of-work miner client: the difficulty rule for
//! block hashes, the node address grammar, the HTTP/1.1 framing used to talk
//! to a node, and the bookkeeping shown on the status dashboard.

pub mod mining;
pub mod text;
pub mod number;
pub mod endpoint;
pub mod http;
pub mod dashboard;
pub mod client;
pub mod cli;

//! What travels between nodes: signed envelopes, channel records, and the
//! names of topics and peers.

pub mod names;
pub mod wire;
pub mod driver;

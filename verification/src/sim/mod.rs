//! A deterministic universe of nodes in one process: no sockets, no disk, no
//! randomness, and a fixed order of delivery, so that scenarios about ordering
//! never depend on chance.

pub mod fakes;
pub mod directory;
pub mod network;
pub mod node;

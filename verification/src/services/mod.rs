//! The use cases, one service per concern. Each service holds its state and
//! decides; adapters carry messages, store them and tell the time.

pub mod calls;
pub mod chat;
pub mod dm;
pub mod identity;
pub mod names;
pub mod presence;
pub mod router;
pub mod transfer;

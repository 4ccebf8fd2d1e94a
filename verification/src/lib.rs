//! Peer-to-peer chat, calls and media: the verified core.

pub mod bytes;
pub mod calls;
pub mod crypto;
pub mod events;
pub mod identity;
pub mod irc;
pub mod media;
pub mod messaging;
pub mod net;
pub mod order;
pub mod ports;
pub mod presence;
pub mod shared;
pub mod services;
pub mod sim;
pub mod sorted;
pub mod text;
pub mod transfer;
pub mod wording;

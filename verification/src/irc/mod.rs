//! The IRC gateway: every node can speak real RFC 1459/2812 on loopback, so
//! any IRC client drives the same services the desktop frontend does.
//!
//! End-to-end encryption terminates at the node and the gateway re-emits
//! plaintext, so it binds loopback **only** ([`bind::IrcBindAddr`] cannot
//! represent anything else), supports an optional `PASS`, and announces at
//! connect that local processes may see the traffic.

pub mod bind;
pub mod compose;
pub mod calendar;
pub mod proto;
pub mod session;
pub mod words;

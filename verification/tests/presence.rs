//! Presence beacons.

use mikall::presence::{AwayMessage, PresenceEvent, PresenceState, Roster};
use mikall::shared::IdentityId;

fn id(n: u8) -> IdentityId {
    IdentityId::from_bytes([n; 32])
}

#[test]
fn transitions_emit_events_repeats_do_not() {
    let mut roster = Roster::new();
    assert_eq!(
        roster.observe(id(1), PresenceState::Online),
        Some(PresenceEvent::PeerCameOnline { who: id(1) })
    );
    assert_eq!(roster.observe(id(1), PresenceState::Online), None);
    assert_eq!(
        roster.observe(id(1), PresenceState::Away { message: None }),
        Some(PresenceEvent::PeerWentAway { who: id(1) })
    );
    assert_eq!(
        roster.observe(id(1), PresenceState::Offline { last_seen_ms: 5 }),
        Some(PresenceEvent::PeerWentOffline { who: id(1) })
    );
    assert_eq!(
        roster.observe(id(1), PresenceState::Offline { last_seen_ms: 9 }),
        None
    );
}

#[test]
fn away_message_bounds() {
    assert!(AwayMessage::parse("").is_err());
    assert!(AwayMessage::parse(&"x".repeat(201)).is_err());
    assert!(AwayMessage::parse("gone\nfishing").is_err());
    assert!(AwayMessage::parse("brb, rehearsal").is_ok());
}

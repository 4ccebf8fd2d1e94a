//! Contacts and trust.

use mikall::identity::{Contact, ContactError, IdentityEvent, Petname, TrustLevel};
use mikall::messaging::Nickname;
use mikall::ports::ProfileRecord;
use mikall::services::identity::IdentityService;
use mikall::shared::{Fingerprint, IdentityId};

fn contact() -> Contact {
    Contact::first_seen(
        IdentityId::from_bytes([1; 32]),
        Fingerprint::from_bytes([2; 32]),
        1_000,
    )
    .0
}

#[test]
fn first_seen_is_tofu_pinned() {
    assert_eq!(
        contact().trust(),
        TrustLevel::TofuPinned {
            first_seen_ms: 1_000
        }
    );
}

#[test]
fn key_change_collapses_trust_and_reports_both_fingerprints() {
    let mut c = contact();
    c.verify(2_000).unwrap();
    let event = c.key_changed(Fingerprint::from_bytes([9; 32]));
    assert_eq!(c.trust(), TrustLevel::Unverified);
    match event {
        IdentityEvent::ContactKeyChanged {
            old_fingerprint,
            new_fingerprint,
            ..
        } => {
            assert_eq!(old_fingerprint, Fingerprint::from_bytes([2; 32]));
            assert_eq!(new_fingerprint, Fingerprint::from_bytes([9; 32]));
        }
        IdentityEvent::NicknameChanged { .. }
        | IdentityEvent::ContactAdded { .. }
        | IdentityEvent::ContactVerified { .. }
        | IdentityEvent::ContactBlocked { .. } => panic!("wrong event"),
    }
}

#[test]
fn blocked_contact_cannot_be_verified() {
    let mut c = contact();
    c.block();
    assert_eq!(c.verify(3_000), Err(ContactError::Blocked));
    assert!(c.is_blocked());
}

#[test]
fn petname_rejects_control_chars_and_empty() {
    assert!(Petname::parse("").is_err());
    assert!(Petname::parse("evil\u{7}name").is_err());
    assert!(Petname::parse(&"x".repeat(65)).is_err());
    assert_eq!(Petname::parse("Miku ♪").unwrap().as_str(), "Miku ♪");
}

#[test]
fn a_petname_is_remembered() {
    let mut c = contact();
    assert!(c.petname().is_none());
    c.set_petname(Petname::parse("Green onion").unwrap());
    assert_eq!(c.petname().unwrap().as_str(), "Green onion");
}

fn service() -> IdentityService {
    IdentityService::new(
        IdentityId::from_bytes([1; 32]),
        Fingerprint::from_bytes([2; 32]),
    )
}

#[test]
fn blocks_survive_a_restart() {
    let rin = IdentityId::from_bytes([3; 32]);
    let len = IdentityId::from_bytes([4; 32]);
    let mut record = ProfileRecord::default();
    assert!(record.note_blocked(rin));
    assert!(!record.note_blocked(rin));
    assert!(record.note_blocked(len));
    record.nickname = Some(Nickname::parse("miku").unwrap());

    let mut profile = service();
    profile.hydrate(&record, 9);
    assert!(profile.is_blocked(&rin));
    assert!(profile.is_blocked(&len));
    assert_eq!(profile.nickname().unwrap().as_str(), "miku");

    assert!(record.note_unblocked(rin));
    assert!(!record.note_unblocked(rin));
    let mut profile = service();
    profile.hydrate(&record, 9);
    assert!(!profile.is_blocked(&rin));
    assert!(profile.is_blocked(&len));
}

#[test]
fn the_unblocked_are_strangers_again() {
    let rin = IdentityId::from_bytes([3; 32]);
    let mut profile = service();
    profile.observe_peer(rin, Fingerprint::from_bytes([5; 32]), None, 1);
    profile.block(rin, 2);
    // No sighting lifts the block, whatever key is shown.
    profile.observe_peer(rin, Fingerprint::from_bytes([6; 32]), None, 3);
    assert_eq!(profile.trust_of(&rin), Some(TrustLevel::Blocked));
    assert!(profile.unblock(rin));
    assert!(!profile.unblock(rin));
    assert_eq!(profile.trust_of(&rin), None);
    assert_eq!(
        profile.observe_peer(rin, Fingerprint::from_bytes([7; 32]), None, 4),
        Some(IdentityEvent::ContactAdded { id: rin })
    );
    assert_eq!(
        profile.trust_of(&rin),
        Some(TrustLevel::TofuPinned { first_seen_ms: 4 })
    );
}

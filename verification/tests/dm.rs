//! Direct-message threads.

use mikall::messaging::{DmKey, DmKeyError};
use mikall::shared::IdentityId;

fn id(n: u8) -> IdentityId {
    IdentityId::from_bytes([n; 32])
}

#[test]
fn dm_key_is_order_independent() {
    let ab = DmKey::new(id(1), id(2)).unwrap();
    let ba = DmKey::new(id(2), id(1)).unwrap();
    assert_eq!(ab, ba);
}

#[test]
fn self_dm_is_unrepresentable() {
    assert_eq!(DmKey::new(id(1), id(1)), Err(DmKeyError::SelfThread));
}

#[test]
fn other_participant_lookup() {
    let key = DmKey::new(id(1), id(2)).unwrap();
    assert_eq!(key.other(&id(1)), Some(id(2)));
    assert_eq!(key.other(&id(3)), None);
}

//! Fingerprints and clocks.

use mikall::shared::{Fingerprint, IdentityId, LamportStamp};

fn id(n: u8) -> IdentityId {
    IdentityId::from_bytes([n; 32])
}

#[test]
fn fingerprint_renders_eight_groups() {
    let fp = Fingerprint::from_bytes([0xAB; 32]);
    let s = fp.display_groups();
    assert_eq!(s.split('-').count(), 8);
    assert!(s.split('-').all(|g| g.len() == 4));
}

#[test]
fn lamport_total_order_breaks_ties_by_author() {
    let a = LamportStamp::new(5, id(1));
    let b = LamportStamp::new(5, id(2));
    let c = LamportStamp::new(6, id(1));
    assert!(a < b);
    assert!(b < c);
}

#[test]
fn next_after_saturates() {
    let s = LamportStamp::next_after(u64::MAX, id(1));
    assert_eq!(s.counter(), u64::MAX);
}

//! Keys, signatures and content-derived ids.

use mikall::crypto::{
    derive_channel_id, derive_message_id, fingerprint_of, hash_chunk, verify_signature,
    CryptoError, CryptoIdGen, LocalKeys,
};
use mikall::messaging::{ChannelName, MessageId};
use mikall::shared::IdentityId;

#[test]
fn sign_verify_roundtrip() {
    let keys = LocalKeys::ephemeral();
    let sig = keys.sign(b"negi");
    assert!(verify_signature(&keys.identity_id(), b"negi", &sig).is_ok());
    assert!(verify_signature(&keys.identity_id(), b"leek", &sig).is_err());
}

#[test]
fn tampered_author_fails() {
    let keys = LocalKeys::ephemeral();
    let other = LocalKeys::ephemeral();
    let sig = keys.sign(b"negi");
    assert!(verify_signature(&other.identity_id(), b"negi", &sig).is_err());
}

#[test]
fn message_id_is_content_derived_and_stable() {
    let author = IdentityId::from_bytes([1; 32]);
    let a = derive_message_id(&author, 1, &[], "hi");
    let b = derive_message_id(&author, 1, &[], "hi");
    let c = derive_message_id(&author, 2, &[], "hi");
    assert_eq!(a, b);
    assert_ne!(a, c);
}

#[test]
fn key_file_roundtrip() {
    let first = LocalKeys::ephemeral();
    let second = LocalKeys::from_key_file(&first.secret_bytes()).unwrap();
    assert_eq!(first.identity_id(), second.identity_id());
    assert_eq!(first.fingerprint(), second.fingerprint());
    assert_eq!(
        LocalKeys::from_key_file(&[1; 31]).err(),
        Some(CryptoError::CorruptKeyFile)
    );
}

#[test]
fn known_digests_and_keys() {
    // BLAKE3 of nothing.
    assert_eq!(
        hash_chunk(&[]).as_bytes()[..8],
        [0xaf, 0x13, 0x49, 0xb9, 0xf5, 0xf9, 0xa1, 0xa6]
    );
    // The first Ed25519 test vector of RFC 8032.
    let secret = [
        0x9d, 0x61, 0xb1, 0x9d, 0xef, 0xfd, 0x5a, 0x60, 0xba, 0x84, 0x4a, 0xf4, 0x92, 0xec, 0x2c,
        0xc4, 0x44, 0x49, 0xc5, 0x69, 0x7b, 0x32, 0x69, 0x19, 0x70, 0x3b, 0xac, 0x03, 0x1c, 0xae,
        0x7f, 0x60,
    ];
    let keys = LocalKeys::from_key_file(&secret).unwrap();
    assert_eq!(
        keys.identity_id().as_bytes()[..4],
        [0xd7, 0x5a, 0x98, 0x01]
    );
    assert_eq!(keys.sign(b"")[..4], [0xe5, 0x56, 0x43, 0x00]);
    assert_eq!(
        keys.fingerprint(),
        fingerprint_of(&keys.identity_id())
    );
}

#[test]
fn an_identity_that_is_no_key_signs_nothing() {
    // No point of the curve has this encoding.
    let mut bytes = [0u8; 32];
    bytes[0] = 2;
    let nobody = IdentityId::from_bytes(bytes);
    assert_eq!(
        verify_signature(&nobody, b"x", &[0; 64]).err(),
        Some(CryptoError::BadPublicKey)
    );
    let keys = LocalKeys::ephemeral();
    assert_eq!(
        verify_signature(&keys.identity_id(), b"x", &[0; 64]).err(),
        Some(CryptoError::BadSignature)
    );
}

#[test]
fn every_part_of_a_message_counts_toward_its_id() {
    let author = IdentityId::from_bytes([1; 32]);
    let parent = MessageId::from_bytes([3; 32]);
    let base = derive_message_id(&author, 1, &[parent], "hi");
    assert_ne!(base, derive_message_id(&author, 1, &[], "hi"));
    assert_ne!(base, derive_message_id(&author, 1, &[parent], "ho"));
    assert_ne!(
        base,
        derive_message_id(&IdentityId::from_bytes([2; 32]), 1, &[parent], "hi")
    );
    let gen = CryptoIdGen;
    assert_eq!(gen.message_id(&author, 1, &[parent], "hi"), base);
    let stage = ChannelName::parse("#stage").unwrap();
    assert_eq!(gen.channel_id(&stage), derive_channel_id(&stage));
    assert_ne!(
        derive_channel_id(&stage),
        derive_channel_id(&ChannelName::parse("#stages").unwrap())
    );
}

#[test]
fn fresh_ids_are_fresh() {
    let gen = CryptoIdGen;
    assert_ne!(gen.call_id(), gen.call_id());
    assert_ne!(gen.transfer_id(), gen.transfer_id());
    assert_ne!(gen.call_key(), gen.call_key());
    assert_eq!(gen.call_id().as_bytes()[6] >> 4, 7);
    assert_eq!(gen.transfer_id().as_bytes()[8] >> 6, 2);
}

//! Sealed frames.

use mikall::media::frame::{open, seal, CallKey, FrameError, FrameHeader, MediaKind};

fn header(counter: u64) -> FrameHeader {
    FrameHeader {
        counter,
        ts: 960,
        ssrc: 0xC0FFEE,
        kind: MediaKind::Audio,
        flags: 0,
    }
}

#[test]
fn seal_open_roundtrip() {
    let key = CallKey::new([7; 32]);
    let sealed = seal(&key, header(1), b"opus frame bytes").unwrap();
    let (opened_header, payload) = open(&key, &sealed).unwrap();
    assert_eq!(opened_header, header(1));
    assert_eq!(payload, b"opus frame bytes");
}

#[test]
fn wrong_key_fails() {
    let sealed = seal(&CallKey::new([7; 32]), header(1), b"secret").unwrap();
    assert_eq!(
        open(&CallKey::new([8; 32]), &sealed),
        Err(FrameError::Decrypt)
    );
}

#[test]
fn tampered_header_fails_authentication() {
    let key = CallKey::new([7; 32]);
    let mut sealed = seal(&key, header(5), b"payload").unwrap();
    sealed[17] ^= 0x01; // flip a flag bit (AAD covers the header)
    assert_eq!(open(&key, &sealed), Err(FrameError::Decrypt));
}

#[test]
fn tampered_ciphertext_fails() {
    let key = CallKey::new([7; 32]);
    let mut sealed = seal(&key, header(5), b"payload").unwrap();
    let last = sealed.len() - 1;
    sealed[last] ^= 0xFF;
    assert_eq!(open(&key, &sealed), Err(FrameError::Decrypt));
}

#[test]
fn short_frame_is_rejected() {
    assert_eq!(
        open(&CallKey::new([7; 32]), &[0u8; 5]),
        Err(FrameError::TooShort)
    );
}

#[test]
fn unknown_kinds_and_errors_read_well() {
    let key = CallKey::new([7; 32]);
    let mut sealed = seal(&key, header(1), b"x").unwrap();
    assert_eq!(sealed.len(), 18 + 1 + 16);
    assert_eq!(mikall::media::frame::peek_header(&sealed), Ok(header(1)));
    sealed[16] = 3;
    assert_eq!(open(&key, &sealed), Err(FrameError::BadKind));
    assert_eq!(FrameError::TooShort.text(), "frame too short");
    assert_eq!(FrameError::BadKind.text(), "unknown media kind");
    assert_eq!(
        FrameError::Decrypt.text(),
        "decryption failed (wrong key or tampered frame)"
    );
    assert_eq!(FrameError::Encrypt.text(), "encryption failed");
}

#[test]
fn the_header_stands_in_front_in_the_clear() {
    let h = FrameHeader {
        counter: 0x0102_0304_0506_0708,
        ts: 0x090A_0B0C,
        ssrc: 0x0D0E_0F10,
        kind: MediaKind::Video,
        flags: 3,
    };
    let bytes = h.encode();
    assert_eq!(
        bytes,
        vec![1, 2, 3, 4, 5, 6, 7, 8, 9, 10, 11, 12, 13, 14, 15, 16, 1, 3]
    );
    assert_eq!(FrameHeader::decode(&bytes), Ok(h));
    assert_eq!(
        h.nonce(),
        [13, 14, 15, 16, 1, 2, 3, 4, 5, 6, 7, 8]
    );
    // One payload under two counters gives two ciphertexts.
    let key = CallKey::new([7; 32]);
    let a = seal(&key, header(1), b"same").unwrap();
    let b = seal(&key, header(2), b"same").unwrap();
    assert_ne!(a[18..], b[18..]);
}

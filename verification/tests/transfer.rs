//! File transfers.

use mikall::shared::IdentityId;
use mikall::transfer::{
    BlobHash, Direction, FileManifest, FileName, ManifestError, Transfer, TransferError, TransferEvent,
    TransferId, TransferPhase, CHUNK_SIZE,
};

fn manifest(size: u64) -> FileManifest {
    let chunks = size.div_ceil(CHUNK_SIZE);
    FileManifest::new(
        FileName::parse("mix.flac").unwrap(),
        size,
        BlobHash::from_bytes([1; 32]),
        (0..chunks)
            .map(|i| BlobHash::from_bytes([i as u8; 32]))
            .collect(),
    )
    .unwrap()
}

fn inbound(size: u64) -> Transfer {
    Transfer::offered(
        TransferId::from_bytes([1; 16]),
        manifest(size),
        Direction::Inbound {
            from: IdentityId::from_bytes([2; 32]),
        },
    )
    .0
}

#[test]
fn file_name_rejects_traversal_and_hidden() {
    assert!(FileName::parse("../etc/passwd").is_err());
    assert!(FileName::parse("a/b").is_err());
    assert!(FileName::parse("a\\b").is_err());
    assert!(FileName::parse(".bashrc").is_err());
    assert!(FileName::parse("").is_err());
    assert!(FileName::parse("song (final) v2.flac").is_ok());
}

#[test]
fn manifest_chunk_count_must_match_size() {
    let err = FileManifest::new(
        FileName::parse("x.bin").unwrap(),
        CHUNK_SIZE + 1,
        BlobHash::from_bytes([0; 32]),
        vec![BlobHash::from_bytes([0; 32])], // needs 2
    );
    assert_eq!(err, Err(ManifestError::ChunkCountMismatch { expected: 2 }));
    assert_eq!(
        FileManifest::new(
            FileName::parse("x.bin").unwrap(),
            0,
            BlobHash::from_bytes([0; 32]),
            vec![],
        ),
        Err(ManifestError::BadSize)
    );
}

#[test]
fn transfer_completes_when_all_chunks_verify() {
    let mut t = inbound(CHUNK_SIZE * 2);
    t.accept().unwrap();
    let events = t.chunk_verified(0, true).unwrap();
    assert_eq!(events.len(), 1);
    let events = t.chunk_verified(1, true).unwrap();
    assert!(matches!(
        events.last(),
        Some(TransferEvent::TransferCompleted { .. })
    ));
    assert_eq!(t.phase(), &TransferPhase::Complete);
}

#[test]
fn corrupt_chunk_fails_without_setting_bit() {
    let mut t = inbound(CHUNK_SIZE);
    t.accept().unwrap();
    assert_eq!(
        t.chunk_verified(0, false),
        Err(TransferError::ChunkHashMismatch { index: 0 })
    );
    assert!(!t.bitmap().have(0));
    // Re-fetch succeeds.
    t.chunk_verified(0, true).unwrap();
    assert_eq!(t.phase(), &TransferPhase::Complete);
}

#[test]
fn out_of_range_chunk_is_unrepresentable() {
    let mut t = inbound(CHUNK_SIZE);
    t.accept().unwrap();
    assert!(matches!(
        t.chunk_verified(5, true),
        Err(TransferError::OutOfRange(_))
    ));
}

#[test]
fn rejected_transfer_stays_rejected() {
    let mut t = inbound(CHUNK_SIZE);
    t.reject().unwrap();
    assert!(t.accept().is_err());
    assert!(t.chunk_verified(0, true).is_err());
}

#[test]
fn duplicate_chunk_is_silent() {
    let mut t = inbound(CHUNK_SIZE * 2);
    t.accept().unwrap();
    t.chunk_verified(0, true).unwrap();
    let events = t.chunk_verified(0, true).unwrap();
    assert!(events.is_empty());
}

#[test]
fn chunks_may_come_in_any_order() {
    let mut forward = inbound(CHUNK_SIZE * 3);
    let mut backward = inbound(CHUNK_SIZE * 3);
    forward.accept().unwrap();
    backward.accept().unwrap();
    for i in 0..2u32 {
        forward.chunk_verified(i, true).unwrap();
    }
    for i in (0..2u32).rev() {
        backward.chunk_verified(i, true).unwrap();
    }
    assert_eq!(forward.bitmap(), backward.bitmap());
    assert_eq!(forward.phase(), backward.phase());
    assert!(!forward.bitmap().have(2));
}

//! Envelopes and what travels in them.

use mikall::calls::CallId;
use mikall::crypto::{derive_message_id, LocalKeys};
use mikall::messaging::{ChannelId, ChannelName, MessageId};
use mikall::net::driver::{
    chunk_answer, chunk_source, media_origin, recipient, requested_root, Topics,
};
use mikall::net::names::{
    channel_record_key, decode_record, encode_record, identity_of_peer, peer_id_of, topic_of,
};
use mikall::net::wire::{
    action_dto, check_signature, manifest_dto, msg_dto, open_dm, open_envelope, seal_payload,
    signal_dto, CallActionDto, DmPayload, DmPayloadDto, SignalDto, WireError,
};
use mikall::ports::{CallAction, ChannelRecord, ChannelSignal, TransportError, WireMessage};
use mikall::shared::IdentityId;
use mikall::transfer::{BlobHash, FileManifest, FileName};

fn wire_message(keys: &LocalKeys, body: &str) -> WireMessage {
    let author = keys.identity_id();
    let id = derive_message_id(&author, 1, &[], body);
    WireMessage {
        id,
        author,
        lamport: 1,
        parents: vec![],
        body: body.to_owned(),
        ts_hint_ms: 42,
    }
}

#[test]
fn signal_roundtrip() {
    let keys = LocalKeys::ephemeral();
    let signal = ChannelSignal::Message(wire_message(&keys, "negi"));
    let dto = signal_dto(&signal);
    let envelope = seal_payload(&keys, format!("{dto:?}").into_bytes());
    let (author, _verified) = check_signature(&envelope).unwrap();
    let opened = open_envelope(&author, dto).unwrap();
    assert_eq!(opened, signal);
}

#[test]
fn tampered_payload_is_rejected() {
    let keys = LocalKeys::ephemeral();
    let dto = signal_dto(&ChannelSignal::Message(wire_message(&keys, "a")));
    let mut envelope = seal_payload(&keys, format!("{dto:?}").into_bytes());
    envelope.payload[0] ^= 0xFF;
    assert!(matches!(
        check_signature(&envelope),
        Err(WireError::BadSignature) | Err(WireError::Malformed(_))
    ));
}

#[test]
fn forged_message_id_is_rejected() {
    let keys = LocalKeys::ephemeral();
    let mut message = wire_message(&keys, "honest body");
    message.id = MessageId::from_bytes([9; 32]); // lie about the id
    let dto = DmPayloadDto::Chat(msg_dto(&message));
    assert!(matches!(
        open_dm(&keys.identity_id(), dto),
        Err(WireError::IdMismatch)
    ));
}

#[test]
fn join_op_impersonation_is_rejected() {
    let keys = LocalKeys::ephemeral();
    let other = LocalKeys::ephemeral();
    let signal = ChannelSignal::Joined {
        who: other.identity_id(), // claim someone else joined
        nickname: None,
    };
    assert!(matches!(
        open_envelope(&keys.identity_id(), signal_dto(&signal)),
        Err(WireError::AuthorMismatch)
    ));
}

#[test]
fn dm_from_wrong_author_is_rejected() {
    let keys = LocalKeys::ephemeral();
    let other = LocalKeys::ephemeral();
    let mut message = wire_message(&other, "hi");
    // re-derive id so the content check passes but authorship doesn't
    message.id = derive_message_id(&message.author, 1, &[], "hi");
    let dto = DmPayloadDto::Chat(msg_dto(&message));
    assert!(matches!(
        open_dm(&keys.identity_id(), dto),
        Err(WireError::AuthorMismatch)
    ));
}

#[test]
fn every_signal_survives_the_wire() {
    let keys = LocalKeys::ephemeral();
    let me = keys.identity_id();
    let signals = vec![
        ChannelSignal::Joined {
            who: me,
            nickname: Some("miku".to_owned()),
        },
        ChannelSignal::Left { who: me },
        ChannelSignal::TopicChanged {
            by: me,
            topic: "world is mine".to_owned(),
        },
        ChannelSignal::RoleChanged {
            by: me,
            target: IdentityId::from_bytes([5; 32]),
            op: true,
        },
        ChannelSignal::Presence {
            who: me,
            away: None,
        },
    ];
    for signal in signals {
        assert_eq!(open_envelope(&me, signal_dto(&signal)).unwrap(), signal);
    }
}

#[test]
fn torn_payloads_are_malformed() {
    let keys = LocalKeys::ephemeral();
    let me = keys.identity_id();
    assert!(matches!(
        open_envelope(&me, SignalDto::Left { who: vec![1; 31] }),
        Err(WireError::Malformed(_))
    ));
    assert!(matches!(
        open_dm(
            &me,
            DmPayloadDto::Call {
                call: vec![0; 15],
                action: CallActionDto::Accept,
            },
        ),
        Err(WireError::Malformed(_))
    ));
    let mut envelope = seal_payload(&keys, vec![1, 2, 3]);
    envelope.sig.pop();
    assert!(matches!(
        check_signature(&envelope),
        Err(WireError::Malformed(_))
    ));
}

#[test]
fn offers_and_calls_travel_too() {
    let me = LocalKeys::ephemeral().identity_id();
    let manifest = FileManifest::new(
        FileName::parse("mix.flac").unwrap(),
        10,
        BlobHash::from_bytes([1; 32]),
        vec![BlobHash::from_bytes([2; 32])],
    )
    .unwrap();
    match open_dm(&me, DmPayloadDto::Offer(manifest_dto(&manifest))).unwrap() {
        DmPayload::Offer(m) => assert_eq!(m, manifest),
        other => panic!("expected an offer, got {other:?}"),
    }
    let action = CallAction::Offer {
        participants: vec![me],
        media_key: [7; 32],
    };
    let dto = DmPayloadDto::Call {
        call: vec![9; 16],
        action: action_dto(&action),
    };
    match open_dm(&me, dto).unwrap() {
        DmPayload::Call(call, a) => {
            assert_eq!(call, CallId::from_bytes([9; 16]));
            assert_eq!(a, action);
        }
        other => panic!("expected a call, got {other:?}"),
    }
}

#[test]
fn a_peer_id_is_the_identity() {
    let id = LocalKeys::ephemeral().identity_id();
    let peer = peer_id_of(&id).unwrap();
    assert_eq!(peer[..6], [0, 36, 8, 1, 18, 32]);
    assert_eq!(&peer[6..], id.as_bytes());
    assert_eq!(identity_of_peer(&peer), Some(id));
    assert_eq!(recipient(&id).unwrap(), peer);
    // Bytes that are no peer id, and an identity that is no key.
    assert_eq!(identity_of_peer(&[1, 2, 3]), None);
    let mut bytes = [0u8; 32];
    bytes[0] = 2;
    let nobody = IdentityId::from_bytes(bytes);
    assert_eq!(peer_id_of(&nobody), None);
    assert_eq!(
        recipient(&nobody),
        Err(TransportError::Other(
            "recipient identity is not a valid key".to_owned()
        ))
    );
    assert_eq!(
        chunk_source(&nobody),
        Err(TransportError::Other(
            "peer identity is not a valid key".to_owned()
        ))
    );
}

#[test]
fn a_hashed_peer_id_is_nobody() {
    // A peer id with a SHA-256 digest says nothing of the key.
    let mut peer = vec![0x12, 32];
    peer.extend_from_slice(&[7; 32]);
    assert_eq!(identity_of_peer(&peer), None);
}

#[test]
fn topics_lead_back_to_their_channels() {
    let stage = ChannelId::from_bytes([0xAB; 32]);
    let other = ChannelId::from_bytes([0xCD; 32]);
    let topic = topic_of(&stage);
    assert_eq!(topic, format!("mikall/1/chan/{}", "ab".repeat(32)));
    let mut topics = Topics::new();
    assert_eq!(topics.channel_of(&topic), None);
    topics.subscribe(stage);
    topics.subscribe(other);
    assert_eq!(topics.channel_of(&topic), Some(stage));
    topics.unsubscribe(&stage);
    assert_eq!(topics.channel_of(&topic), None);
    assert_eq!(topics.channel_of(&topic_of(&other)), Some(other));
}

#[test]
fn records_read_back() {
    let name = ChannelName::parse("#stage").unwrap();
    assert_eq!(channel_record_key(&name), "mikall:chan:v1:#stage");
    let record = ChannelRecord {
        id: ChannelId::from_bytes([1; 32]),
        name,
        founder: IdentityId::from_bytes([2; 32]),
    };
    let dto = encode_record(&record);
    assert_eq!(decode_record(dto), Some(record.clone()));
    let mut torn = encode_record(&record);
    torn.founder.pop();
    assert_eq!(decode_record(torn), None);
}

#[test]
fn packets_and_chunks_are_checked() {
    let id = LocalKeys::ephemeral().identity_id();
    let peer = peer_id_of(&id).unwrap();
    assert_eq!(
        media_origin(&peer, &[3; 16]),
        Some((id, CallId::from_bytes([3; 16])))
    );
    assert_eq!(media_origin(&peer, &[3; 15]), None);
    assert_eq!(media_origin(&[1], &[3; 16]), None);
    assert_eq!(
        requested_root(&[4; 32]),
        Some(BlobHash::from_bytes([4; 32]))
    );
    assert_eq!(requested_root(&[4; 33]), None);
    assert_eq!(chunk_answer(Some(vec![1])), Ok(vec![1]));
    assert_eq!(
        chunk_answer(None),
        Err(TransportError::Other(
            "peer does not have that chunk".to_owned()
        ))
    );
}

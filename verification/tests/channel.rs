//! Channels: roles, topics, membership and history gaps.

use mikall::messaging::{
    Channel, ChannelError, ChannelId, ChannelName, ChannelVisibility, Message, MessageBody, MessageId,
    MessagingEvent, Role, Topic, Verified,
};
use mikall::shared::IdentityId;

fn id(n: u8) -> IdentityId {
    IdentityId::from_bytes([n; 32])
}

fn channel() -> Channel {
    Channel::create(
        ChannelId::from_bytes([7; 32]),
        ChannelName::parse("#stage").unwrap(),
        id(1),
        ChannelVisibility::Public,
    )
    .0
}

fn message(n: u8, by: IdentityId, lamport: u64, parents: Vec<MessageId>) -> Message {
    Message::received(
        Verified::attest_signature_checked(),
        MessageId::from_bytes([n; 32]),
        by,
        lamport,
        parents,
        MessageBody::parse("hi").unwrap(),
        0,
    )
}

#[test]
fn founder_cannot_leave_or_be_demoted() {
    let mut ch = channel();
    assert_eq!(ch.leave(id(1)), Err(ChannelError::FounderIsImmovable));
    ch.join(id(2)).unwrap();
    assert_eq!(
        ch.set_role(id(1), id(1), Role::Member),
        Err(ChannelError::FounderIsImmovable)
    );
    assert_eq!(
        ch.set_role(id(1), id(2), Role::Founder),
        Err(ChannelError::FounderIsImmovable)
    );
}

#[test]
fn only_ops_change_topic() {
    let mut ch = channel();
    ch.join(id(2)).unwrap();
    let topic = Topic::parse("world is mine").unwrap();
    assert_eq!(
        ch.set_topic(id(2), topic.clone()),
        Err(ChannelError::NotAnOperator)
    );
    ch.set_role(id(1), id(2), Role::Op).unwrap();
    ch.set_topic(id(2), topic.clone()).unwrap();
    assert_eq!(ch.topic(), &topic);
}

#[test]
fn non_member_message_rejected() {
    let mut ch = channel();
    let err = ch.record_message(message(1, id(9), 1, vec![]), false);
    assert_eq!(err, Err(ChannelError::NotAMember));
}

#[test]
fn gap_detection_emits_event_then_backfill_applies() {
    let mut ch = channel();
    ch.join(id(2)).unwrap();
    let events = ch
        .record_message(
            message(2, id(2), 2, vec![MessageId::from_bytes([1; 32])]),
            false,
        )
        .unwrap();
    assert!(matches!(
        events[0],
        MessagingEvent::HistoryGapDetected { .. }
    ));
    let events = ch
        .record_message(message(1, id(1), 1, vec![]), false)
        .unwrap();
    assert_eq!(events.len(), 2); // applied + unblocked pending
    assert_eq!(ch.history().len(), 2);
}

#[test]
fn private_channel_epoch_bumps_on_membership_change() {
    let (mut ch, _) = Channel::create(
        ChannelId::from_bytes([8; 32]),
        ChannelName::parse("#secret").unwrap(),
        id(1),
        ChannelVisibility::Private { epoch: 0 },
    );
    ch.join(id(2)).unwrap();
    assert_eq!(ch.visibility(), ChannelVisibility::Private { epoch: 1 });
    ch.leave(id(2)).unwrap();
    assert_eq!(ch.visibility(), ChannelVisibility::Private { epoch: 2 });
}

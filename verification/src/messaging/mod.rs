//! Messaging bounded context: channels, DMs, and the causally ordered
//! message DAG that replaces a server's authoritative history.

use vstd::prelude::*;

pub mod channel;
pub mod dag;
pub mod dm;
pub mod message;
pub mod values;

pub use channel::{Channel, ChannelError, ChannelId, ChannelVisibility, Role};
pub use dag::{DagInsert, MessageDag};
pub use dm::{DmKey, DmKeyError, DmThread, DmThreadError};
pub use message::{Message, MessageId, Verified};
pub use values::{
    ChannelName, ChannelNameError, IrcSafeLine, MessageBody, MessageBodyError, Nickname,
    NicknameError, Topic, TopicError,
};

use crate::shared::IdentityId;

verus! {

#[derive(Debug, Clone, PartialEq, Eq)]
pub enum MessagingEvent {
    ChannelCreated { channel: ChannelId, name: ChannelName },
    ChannelJoined { channel: ChannelId, who: IdentityId },
    ChannelLeft { channel: ChannelId, who: IdentityId },
    MessagePosted { channel: ChannelId, message: MessageId },
    MessageReceived { channel: ChannelId, message: MessageId },
    TopicChanged { channel: ChannelId, by: IdentityId, topic: Topic },
    MemberRoleChanged { channel: ChannelId, member: IdentityId, role: Role },
    DmReceived { from: IdentityId, message: MessageId },
    /// A received message referenced parents we do not have yet; sync should
    /// backfill them.
    HistoryGapDetected { channel: ChannelId, missing: Vec<MessageId> },
}

/// What a messaging event reports.
pub enum MessagingEventView {
    ChannelCreated { channel: ChannelId, name: Seq<char> },
    ChannelJoined { channel: ChannelId, who: IdentityId },
    ChannelLeft { channel: ChannelId, who: IdentityId },
    MessagePosted { channel: ChannelId, message: MessageId },
    MessageReceived { channel: ChannelId, message: MessageId },
    TopicChanged { channel: ChannelId, by: IdentityId, topic: Seq<char> },
    MemberRoleChanged { channel: ChannelId, member: IdentityId, role: Role },
    DmReceived { from: IdentityId, message: MessageId },
    HistoryGapDetected { channel: ChannelId, missing: Seq<MessageId> },
}

impl View for MessagingEvent {
    type V = MessagingEventView;

    open spec fn view(&self) -> MessagingEventView {
        match *self {
            MessagingEvent::ChannelCreated { channel, name } => MessagingEventView::ChannelCreated {
                channel,
                name: name@,
            },
            MessagingEvent::ChannelJoined { channel, who } => MessagingEventView::ChannelJoined {
                channel,
                who,
            },
            MessagingEvent::ChannelLeft { channel, who } => MessagingEventView::ChannelLeft {
                channel,
                who,
            },
            MessagingEvent::MessagePosted { channel, message } => MessagingEventView::MessagePosted {
                channel,
                message,
            },
            MessagingEvent::MessageReceived { channel, message } => MessagingEventView::MessageReceived {
                channel,
                message,
            },
            MessagingEvent::TopicChanged { channel, by, topic } => MessagingEventView::TopicChanged {
                channel,
                by,
                topic: topic@,
            },
            MessagingEvent::MemberRoleChanged { channel, member, role } => MessagingEventView::MemberRoleChanged {
                channel,
                member,
                role,
            },
            MessagingEvent::DmReceived { from, message } => MessagingEventView::DmReceived {
                from,
                message,
            },
            MessagingEvent::HistoryGapDetected { channel, missing } => MessagingEventView::HistoryGapDetected {
                channel,
                missing: missing@,
            },
        }
    }
}

/// What a list of messaging events reports.
pub open spec fn event_views(events: Seq<MessagingEvent>) -> Seq<MessagingEventView> {
    Seq::new(events.len(), |i: int| events[i]@)
}

/// Every event of a list is reported, in order, as what it is.
pub proof fn law_every_messaging_event_is_reported(list: Seq<MessagingEvent>, i: int)
    ensures
        event_views(list).len() == list.len(),
        0 <= i < list.len() ==> event_views(list)[i] == list[i]@,
{
}

} // verus!

//! Events the library emits toward frontends.

use vstd::prelude::*;

use crate::calls::{CallEvent, CallEventView};
use crate::identity::IdentityEvent;
use crate::messaging::{
    ChannelName, MessageBody, MessageId, MessagingEvent, MessagingEventView, Nickname,
};
use crate::presence::PresenceEvent;
use crate::shared::IdentityId;
use crate::transfer::{TransferEvent, TransferEventView, TransferId};

verus! {

/// Union of every context's domain events, for projection into
/// frontend-facing events.
#[derive(Debug, Clone, PartialEq, Eq)]
pub enum DomainEvent {
    Identity(IdentityEvent),
    Messaging(MessagingEvent),
    Presence(PresenceEvent),
    Calls(CallEvent),
    Transfer(TransferEvent),
}

/// What frontends (desktop UI, IRC gateway) subscribe to. Chat payloads are
/// enriched so a frontend can render them without reaching back into
/// aggregates.
#[derive(Debug, Clone)]
pub enum AppEvent {
    ChannelMessage {
        channel: ChannelName,
        author: IdentityId,
        author_nick: Option<Nickname>,
        message: MessageId,
        body: MessageBody,
        ts_hint_ms: u64,
    },
    DirectMessage {
        from: IdentityId,
        from_nick: Option<Nickname>,
        message: MessageId,
        body: MessageBody,
        ts_hint_ms: u64,
    },
    /// A completed inbound transfer was written to disk.
    TransferSaved { transfer: TransferId, path: String },
    Domain(DomainEvent),
}

/// What a domain event reports.
pub enum DomainEventView {
    Identity(IdentityEvent),
    Messaging(MessagingEventView),
    Presence(PresenceEvent),
    Calls(CallEventView),
    Transfer(TransferEventView),
}

impl View for DomainEvent {
    type V = DomainEventView;

    open spec fn view(&self) -> DomainEventView {
        match *self {
            DomainEvent::Identity(e) => DomainEventView::Identity(e),
            DomainEvent::Messaging(e) => DomainEventView::Messaging(e@),
            DomainEvent::Presence(e) => DomainEventView::Presence(e),
            DomainEvent::Calls(e) => DomainEventView::Calls(e@),
            DomainEvent::Transfer(e) => DomainEventView::Transfer(e@),
        }
    }
}

/// What an event toward frontends reports.
pub enum AppEventView {
    ChannelMessage {
        channel: Seq<char>,
        author: IdentityId,
        author_nick: Option<Seq<char>>,
        message: MessageId,
        body: Seq<char>,
        ts_hint_ms: u64,
    },
    DirectMessage {
        from: IdentityId,
        from_nick: Option<Seq<char>>,
        message: MessageId,
        body: Seq<char>,
        ts_hint_ms: u64,
    },
    TransferSaved { transfer: TransferId, path: Seq<char> },
    Domain(DomainEventView),
}

/// The text of an optional nickname.
pub open spec fn nick_text(n: Option<Nickname>) -> Option<Seq<char>> {
    match n {
        Some(n) => Some(n@),
        None => None,
    }
}

impl View for AppEvent {
    type V = AppEventView;

    open spec fn view(&self) -> AppEventView {
        match *self {
            AppEvent::ChannelMessage { channel, author, author_nick, message, body, ts_hint_ms } => AppEventView::ChannelMessage {
                channel: channel@,
                author,
                author_nick: nick_text(author_nick),
                message,
                body: body@,
                ts_hint_ms,
            },
            AppEvent::DirectMessage { from, from_nick, message, body, ts_hint_ms } => AppEventView::DirectMessage {
                from,
                from_nick: nick_text(from_nick),
                message,
                body: body@,
                ts_hint_ms,
            },
            AppEvent::TransferSaved { transfer, path } => AppEventView::TransferSaved {
                transfer,
                path: path@,
            },
            AppEvent::Domain(e) => AppEventView::Domain(e@),
        }
    }
}

/// What a list of events reports.
pub open spec fn app_event_views(events: Seq<AppEvent>) -> Seq<AppEventView> {
    Seq::new(events.len(), |i: int| events[i]@)
}

/// A messaging event, as frontends see it.
pub open spec fn messaging(e: MessagingEventView) -> AppEventView {
    AppEventView::Domain(DomainEventView::Messaging(e))
}

/// An identity event, as frontends see it.
pub open spec fn identity(e: IdentityEvent) -> AppEventView {
    AppEventView::Domain(DomainEventView::Identity(e))
}

/// Every event of a list is reported, in order, as what it is.
pub proof fn law_every_event_is_reported(list: Seq<AppEvent>, i: int)
    ensures
        app_event_views(list).len() == list.len(),
        0 <= i < list.len() ==> app_event_views(list)[i] == list[i]@,
{
}

} // verus!

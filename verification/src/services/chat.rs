//! Channel chat use cases.

use vstd::prelude::*;

use crate::events::{
    app_event_views, identity, messaging, nick_text, AppEvent, AppEventView, DomainEvent,
    DomainEventView,
};
use crate::identity::IdentityEvent;
use crate::messaging::channel::{
    after_join, after_leave, after_record, after_role_change, join_fault, leave_fault,
    record_events, record_fault, role_change_fault, topic_change_fault, ChannelView,
};
use crate::messaging::dag::{
    display_order, heads_of, history_of, is_max_lamport,
};
use crate::messaging::message::MessageView;
use crate::messaging::values::{body_fault, nickname_fault, topic_fault};
use crate::messaging::{
    event_views, Channel, ChannelError, ChannelId, ChannelName, ChannelVisibility, Message,
    MessageBody, MessageBodyError, MessageId, MessagingEvent, MessagingEventView, Nickname, Role,
    Topic, TopicError, Verified,
};
use crate::order::Key;
use crate::ports::{
    acting, ChannelRecord, ChannelSignal, DirectoryError, StoreError, TransportError, WireMessage,
};
use crate::shared::{Fingerprint, IdentityId};
use crate::sorted::{ascending, copy_keys, in_order, lemma_in_order, SortedMap};

use super::identity::{after_sighting, sighting_event, IdentityService, ProfileView};
use super::names::{lemma_text_total, name_texts, text_before, texts_ascend, NameIndex};

verus! {

/// A message ready for display by any frontend.
#[derive(Debug, Clone, PartialEq, Eq)]
pub struct RenderedMessage {
    pub id: MessageId,
    pub author: IdentityId,
    pub author_nick: Option<Nickname>,
    pub body: MessageBody,
    pub ts_hint_ms: u64,
}

/// The ids of a list of rendered messages.
pub open spec fn rendered_ids(r: Seq<RenderedMessage>) -> Seq<MessageId> {
    Seq::new(r.len(), |i: int| r[i].id)
}

impl RenderedMessage {
    /// Shows what `m` says, under the label that `p` has for its author.
    pub open spec fn shows(&self, m: MessageView, p: ProfileView) -> bool {
        &&& self.id == m.id
        &&& self.author == m.author
        &&& nick_text(self.author_nick) == p.nick_of(m.author)
        &&& self.body@ == m.body
        &&& self.ts_hint_ms == m.ts_hint_ms
    }
}

#[derive(Debug, Clone, PartialEq, Eq)]
pub struct MemberView {
    pub id: IdentityId,
    pub role: Role,
    pub nick: Option<Nickname>,
}

#[derive(Debug, Clone, PartialEq, Eq)]
pub enum ChatError {
    NotJoined(String),
    Body(MessageBodyError),
    Topic(TopicError),
    Channel(ChannelError),
    Transport(TransportError),
    Directory(DirectoryError),
    Store(StoreError),
}

/// What a chat error says.
pub enum ChatErrorView {
    NotJoined(Seq<char>),
    Body(MessageBodyError),
    Topic(TopicError),
    Channel(ChannelError),
    /// An adapter failed.
    Adapter,
}

impl View for ChatError {
    type V = ChatErrorView;

    open spec fn view(&self) -> ChatErrorView {
        match *self {
            ChatError::NotJoined(name) => ChatErrorView::NotJoined(name@),
            ChatError::Body(e) => ChatErrorView::Body(e),
            ChatError::Topic(e) => ChatErrorView::Topic(e),
            ChatError::Channel(e) => ChatErrorView::Channel(e),
            ChatError::Transport(_) => ChatErrorView::Adapter,
            ChatError::Directory(_) => ChatErrorView::Adapter,
            ChatError::Store(_) => ChatErrorView::Adapter,
        }
    }
}

/// What the chat service holds: the joined channels, and the names they are
/// joined under.
pub struct ChatView {
    pub names: Map<Seq<char>, ChannelId>,
    pub channels: Map<ChannelId, ChannelView>,
}

impl ChatView {
    /// `name` is joined, and its channel is here.
    pub open spec fn joined(self, name: Seq<char>) -> bool {
        self.names.contains_key(name) && self.channels.contains_key(self.names[name])
    }

    /// The channel joined under `name`.
    pub open spec fn channel(self, name: Seq<char>) -> ChannelView {
        self.channels[self.names[name]]
    }

    /// `name` is the first name, in name order, that channel `id` is joined
    /// under.
    pub open spec fn first_name(self, id: ChannelId, name: Seq<char>) -> bool {
        &&& self.names.contains_key(name)
        &&& self.names[name] == id
        &&& forall|t: Seq<char>| #[trigger]
            self.names.contains_key(t) && self.names[t] == id ==> !text_before(t, name)
    }

    /// The name that channel `id` is joined under, the first if there are
    /// several.
    pub open spec fn name_of(self, id: ChannelId) -> Option<Seq<char>> {
        if self.names.contains_value(id) {
            Some(choose|name: Seq<char>| self.first_name(id, name))
        } else {
            None
        }
    }

    /// Everything as it was, but for the channel under `id`.
    pub open spec fn with(self, id: ChannelId, c: ChannelView) -> ChatView {
        ChatView { channels: self.channels.insert(id, c), ..self }
    }
}

/// A channel newly created by `founder`.
pub open spec fn created(id: ChannelId, name: Seq<char>, founder: IdentityId) -> ChannelView {
    ChannelView {
        id,
        name,
        topic: Seq::<char>::empty(),
        visibility: ChannelVisibility::Public,
        members: Map::<IdentityId, Role>::empty().insert(founder, Role::Founder),
        known: Map::<MessageId, MessageView>::empty(),
    }
}

/// The channel that `me` opens under `name`: the one on record, joined unless
/// it is our own, or a new one of our own under `fresh`.
pub open spec fn opened(
    record: Option<ChannelRecord>,
    name: Seq<char>,
    me: IdentityId,
    fresh: ChannelId,
) -> ChannelView {
    match record {
        Some(r) => {
            let c = created(r.id, name, r.founder);
            if r.founder == me {
                c
            } else {
                after_join(c, me)
            }
        },
        None => created(fresh, name, me),
    }
}

/// The events of opening a channel.
pub open spec fn opening_events(
    record: Option<ChannelRecord>,
    name: Seq<char>,
    me: IdentityId,
    fresh: ChannelId,
) -> Seq<MessagingEventView> {
    let (id, founder) = match record {
        Some(r) => (r.id, r.founder),
        None => (fresh, me),
    };
    let first = seq![
        MessagingEventView::ChannelCreated { channel: id, name },
        MessagingEventView::ChannelJoined { channel: id, who: founder },
    ];
    if founder == me {
        first
    } else {
        first.push(MessagingEventView::ChannelJoined { channel: id, who: me })
    }
}

/// A stored message replayed: its author is a member from then on, and the
/// message is heard unless its body is malformed.
pub open spec fn replayed(c: ChannelView, m: MessageView) -> ChannelView {
    let with_author = if c.members.contains_key(m.author) {
        c
    } else {
        after_join(c, m.author)
    };
    if body_fault(m.body) is None {
        after_record(with_author, m)
    } else {
        with_author
    }
}

/// Stored messages replayed one after the other.
pub open spec fn all_replayed(c: ChannelView, stored: Seq<WireMessage>) -> ChannelView
    decreases stored.len(),
{
    if stored.len() == 0 {
        c
    } else {
        replayed(all_replayed(c, stored.drop_last()), stored.last()@)
    }
}

/// What becomes of an inbound signal.
pub struct ReactionView {
    pub chat: ChatView,
    pub profile: ProfileView,
    pub events: Seq<AppEventView>,
    pub save: Option<MessageView>,
}

pub open spec fn no_reaction(chat: ChatView, profile: ProfileView) -> ReactionView {
    ReactionView { chat, profile, events: seq![], save: None }
}

/// An optional event as a list.
pub open spec fn as_list(e: Option<IdentityEvent>) -> Seq<AppEventView> {
    match e {
        Some(e) => seq![identity(e)],
        None => seq![],
    }
}

/// A list of messaging events, as frontends see them.
pub open spec fn all_messaging(events: Seq<MessagingEventView>) -> Seq<AppEventView> {
    Seq::new(events.len(), |i: int| messaging(events[i]))
}

/// `m` is new to `c`, and nothing below it is missing: it can be shown at
/// once.
pub open spec fn shown_at_once(c: ChannelView, m: MessageView) -> bool {
    &&& !c.known.contains_key(m.id)
    &&& forall|i: int|
        0 <= i < m.parents.len() ==> history_of(c.known).contains_key(#[trigger] m.parents[i])
}

/// How frontends hear of message `m` on channel `name`.
pub open spec fn told(name: Seq<char>, m: MessageView, nick: Option<Seq<char>>) -> AppEventView {
    AppEventView::ChannelMessage {
        channel: name,
        author: m.author,
        author_nick: nick,
        message: m.id,
        body: m.body,
        ts_hint_ms: m.ts_hint_ms,
    }
}

/// A message arrived for channel `id`, joined under `name`. Gossip may deliver
/// it before its author's join signal. Blocked authors and malformed bodies
/// never enter the channel.
pub open spec fn message_reaction(
    chat: ChatView,
    profile: ProfileView,
    id: ChannelId,
    name: Seq<char>,
    m: MessageView,
    fingerprint: Fingerprint,
    now_ms: u64,
) -> ReactionView {
    if profile.blocks(m.author) || body_fault(m.body) is Some {
        no_reaction(chat, profile)
    } else {
        let seen = after_sighting(profile, m.author, fingerprint, None, now_ms);
        let raised = as_list(sighting_event(profile, m.author, fingerprint));
        if !chat.channels.contains_key(id) {
            ReactionView { chat, profile: seen, events: raised, save: None }
        } else {
            let c0 = chat.channels[id];
            let known_author = c0.members.contains_key(m.author);
            let c1 = if known_author {
                c0
            } else {
                after_join(c0, m.author)
            };
            let joined = if known_author {
                Seq::<AppEventView>::empty()
            } else {
                seq![
                    messaging(
                        MessagingEventView::ChannelJoined { channel: c0.id, who: m.author },
                    ),
                ]
            };
            let news = all_messaging(record_events(c1.id, c1.known, m, false));
            let shown = shown_at_once(c1, m);
            let shown_now = if shown {
                seq![told(name, m, seen.nick_of(m.author))]
            } else {
                Seq::<AppEventView>::empty()
            };
            ReactionView {
                chat: chat.with(id, after_record(c1, m)),
                profile: seen,
                events: raised + joined + shown_now + news,
                save: if shown {
                    Some(m)
                } else {
                    None
                },
            }
        }
    }
}

/// A signal arrived for channel `id`, joined under `name`. What a blocked peer
/// does is dropped. The aggregate re-checks every right: a change that its sender
/// may not make is ignored.
pub open spec fn signal_reaction(
    chat: ChatView,
    profile: ProfileView,
    id: ChannelId,
    name: Seq<char>,
    signal: ChannelSignal,
    fingerprint: Fingerprint,
    now_ms: u64,
) -> ReactionView {
    if profile.blocks(acting(signal)) {
        no_reaction(chat, profile)
    } else {
        admitted_reaction(chat, profile, id, name, signal, fingerprint, now_ms)
    }
}

/// What a signal comes to if its sender is not blocked.
pub open spec fn admitted_reaction(
    chat: ChatView,
    profile: ProfileView,
    id: ChannelId,
    name: Seq<char>,
    signal: ChannelSignal,
    fingerprint: Fingerprint,
    now_ms: u64,
) -> ReactionView {
    let here = chat.channels.contains_key(id);
    let c = chat.channels[id];
    match signal {
        ChannelSignal::Message(wire) => message_reaction(
            chat,
            profile,
            id,
            name,
            wire@,
            fingerprint,
            now_ms,
        ),
        ChannelSignal::Joined { who, nickname } => {
            let nick = match nickname {
                Some(n) => if nickname_fault(n@) is None {
                    Some(n@)
                } else {
                    None
                },
                None => None,
            };
            let raised = as_list(sighting_event(profile, who, fingerprint));
            let joins = here && join_fault(c, who) is None;
            ReactionView {
                chat: if joins {
                    chat.with(id, after_join(c, who))
                } else {
                    chat
                },
                profile: after_sighting(profile, who, fingerprint, nick, now_ms),
                events: if joins {
                    raised.push(
                        messaging(MessagingEventView::ChannelJoined { channel: c.id, who }),
                    )
                } else {
                    raised
                },
                save: None,
            }
        },
        ChannelSignal::Left { who } => {
            if here && leave_fault(c, who) is None {
                ReactionView {
                    chat: chat.with(id, after_leave(c, who)),
                    profile,
                    events: seq![messaging(MessagingEventView::ChannelLeft { channel: c.id, who })],
                    save: None,
                }
            } else {
                no_reaction(chat, profile)
            }
        },
        ChannelSignal::TopicChanged { by, topic } => {
            if topic_fault(topic@) is None && here && topic_change_fault(c, by) is None {
                ReactionView {
                    chat: chat.with(id, ChannelView { topic: topic@, ..c }),
                    profile,
                    events: seq![
                        messaging(
                            MessagingEventView::TopicChanged { channel: c.id, by, topic: topic@ },
                        ),
                    ],
                    save: None,
                }
            } else {
                no_reaction(chat, profile)
            }
        },
        ChannelSignal::RoleChanged { by, target, op } => {
            let role = if op {
                Role::Op
            } else {
                Role::Member
            };
            if here && role_change_fault(c, by, target, role) is None {
                ReactionView {
                    chat: chat.with(id, after_role_change(c, target, role)),
                    profile,
                    events: seq![
                        messaging(
                            MessagingEventView::MemberRoleChanged {
                                channel: c.id,
                                member: target,
                                role,
                            },
                        ),
                    ],
                    save: None,
                }
            } else {
                no_reaction(chat, profile)
            }
        },
        ChannelSignal::Presence { .. } => no_reaction(chat, profile),
    }
}

/// What stored channels hold.
pub open spec fn channel_views(m: Map<ChannelId, Channel>) -> Map<ChannelId, ChannelView> {
    Map::new(|id: ChannelId| m.contains_key(id), |id: ChannelId| m[id]@)
}

proof fn lemma_channel_views_insert(m: Map<ChannelId, Channel>, id: ChannelId, c: Channel)
    ensures
        channel_views(m.insert(id, c)) == channel_views(m).insert(id, c@),
{
    assert(channel_views(m.insert(id, c)) =~= channel_views(m).insert(id, c@));
}

/// Nothing is missing exactly if every parent is there.
proof fn lemma_none_missing(c: ChannelView, m: MessageView)
    ensures
        crate::messaging::dag::missing_from(m.parents, history_of(c.known).dom()).len() == 0
            <==> forall|i: int|
            0 <= i < m.parents.len() ==> history_of(c.known).contains_key(#[trigger] m.parents[i]),
{
    let applied = history_of(c.known).dom();
    let missing = crate::messaging::dag::missing_from(m.parents, applied);
    crate::messaging::dag::lemma_missing(m.parents, applied);
    if missing.len() == 0 {
        assert forall|i: int| 0 <= i < m.parents.len() implies history_of(c.known).contains_key(#[trigger] m.parents[i]) by {
            assert(m.parents.contains(m.parents[i]));
            assert(!missing.contains(m.parents[i]));
        }
    } else {
        assert(missing.contains(missing[0]));
        let i = choose|i: int| 0 <= i < m.parents.len() && m.parents[i] == missing[0];
        assert(!history_of(c.known).contains_key(m.parents[i]));
    }
}

/// A channel about to be joined.
#[derive(Debug)]
pub struct Opening {
    pub id: ChannelId,
    pub channel: Channel,
    pub events: Vec<MessagingEvent>,
    /// To be announced in the directory, where the channel is new.
    pub announce: Option<ChannelRecord>,
}

/// A message about to be posted: everything but its id and its time.
#[derive(Debug)]
pub struct Draft {
    pub channel: ChannelId,
    pub parents: Vec<MessageId>,
    pub lamport: u64,
    pub body: MessageBody,
}

/// The message a draft becomes.
pub open spec fn drafted(d: Draft, author: IdentityId, id: MessageId, ts_hint_ms: u64) -> MessageView {
    MessageView {
        id,
        author,
        lamport: d.lamport,
        parents: d.parents@,
        body: d.body@,
        ts_hint_ms,
    }
}

/// A channel just joined.
#[derive(Debug)]
pub struct Arrival {
    pub id: ChannelId,
    /// To be published on the channel's topic.
    pub signal: ChannelSignal,
    /// For frontends, once the signal is out.
    pub events: Vec<AppEvent>,
}

/// A channel just left.
#[derive(Debug)]
pub struct Departure {
    pub id: ChannelId,
    /// For frontends, at once.
    pub events: Vec<AppEvent>,
    /// To be published on the channel's topic.
    pub signal: ChannelSignal,
    /// For frontends, once we are unsubscribed.
    pub last: AppEvent,
}

/// What to do about an inbound signal.
#[derive(Debug)]
pub struct Reaction {
    /// To be stored before the events go out.
    pub save: Option<WireMessage>,
    pub events: Vec<AppEvent>,
}

impl Reaction {
    /// The reaction is `v`, and leaves the two services as it says.
    pub open spec fn is(self, v: ReactionView, chat: ChatView, profile: ProfileView) -> bool {
        &&& chat == v.chat
        &&& profile == v.profile
        &&& app_event_views(self.events@) == v.events
        &&& match (self.save, v.save) {
            (Some(wire), Some(m)) => wire@ == m,
            (None, None) => true,
            _ => false,
        }
    }
}

/// The joined channels.
#[derive(Debug)]
pub struct ChatService {
    channels: SortedMap<ChannelId, Channel>,
    by_name: NameIndex,
}

impl View for ChatService {
    type V = ChatView;

    closed spec fn view(&self) -> ChatView {
        ChatView { names: self.by_name@, channels: channel_views(self.channels@) }
    }
}

/// Opens the channel on record, or a new one of our own.
pub fn open_channel(
    record: Option<ChannelRecord>,
    name: &ChannelName,
    me: IdentityId,
    fresh: ChannelId,
) -> (r: Opening)
    requires
        name.wf(),
    ensures
        r.channel.wf(),
        r.channel@ == opened(record, name@, me, fresh),
        r.id == r.channel@.id,
        event_views(r.events@) == opening_events(record, name@, me, fresh),
        match r.announce {
            Some(a) => record is None && a.id == fresh && a.name@ == name@ && a.founder == me,
            None => record is Some,
        },
{
    match record {
        Some(record) => {
            let (mut channel, mut events) = Channel::create(
                record.id,
                name.clone(),
                record.founder,
                ChannelVisibility::Public,
            );
            if !record.founder.same(&me) {
                let ghost before = events@;
                match channel.join(me) {
                    Ok(event) => {
                        events.push(event);
                        assert(event_views(events@) =~= event_views(before).push(event@));
                    },
                    Err(_) => {},
                }
            }
            Opening { id: record.id, channel, events, announce: None }
        },
        None => {
            let (channel, events) = Channel::create(fresh, name.clone(), me, ChannelVisibility::Public);
            Opening {
                id: fresh,
                channel,
                events,
                announce: Some(ChannelRecord { id: fresh, name: name.clone(), founder: me }),
            }
        },
    }
}

/// Puts locally persisted history back into a channel before it goes live.
pub fn rehydrate(channel: &mut Channel, stored: Vec<WireMessage>)
    requires
        old(channel).wf(),
        old(channel)@.visibility is Public,
    ensures
        final(channel).wf(),
        final(channel)@ == all_replayed(old(channel)@, stored@),
        final(channel)@.visibility is Public,
        final(channel)@.id == old(channel)@.id,
{
    let mut i: usize = 0;
    assert(stored@.take(0) =~= Seq::<WireMessage>::empty());
    while i < stored.len()
        invariant
            i <= stored@.len(),
            channel.wf(),
            channel@.visibility is Public,
            channel@.id == old(channel)@.id,
            channel@ == all_replayed(old(channel)@, stored@.take(i as int)),
        decreases stored@.len() - i,
    {
        let wire: &WireMessage = &stored[i];
        proof {
            assert(stored@.take(i + 1).drop_last() =~= stored@.take(i as int));
            assert(stored@.take(i + 1).last() == *wire);
        }
        if !channel.is_member(&wire.author) {
            let _ = channel.join(wire.author);
        }
        match MessageBody::parse(wire.body.as_str()) {
            Ok(body) => {
                let message = Message::received(
                    Verified::attest_signature_checked(),
                    wire.id,
                    wire.author,
                    wire.lamport,
                    copy_keys(&wire.parents),
                    body,
                    wire.ts_hint_ms,
                );
                assert(message@ == wire@);
                let _ = channel.record_message(message, false);
            },
            Err(_) => {},
        }
        i = i + 1;
    }
    assert(stored@.take(i as int) =~= stored@);
}

impl ChatService {
    /// Each channel is public, in order, and stands under its own id.
    pub closed spec fn wf(&self) -> bool {
        &&& self.by_name.wf()
        &&& self.channels.wf()
        &&& forall|id: ChannelId| #[trigger]
            self.channels@.contains_key(id) ==> {
                &&& self.channels@[id].wf()
                &&& self.channels@[id]@.visibility is Public
                &&& self.channels@[id]@.id == id
            }
    }

    pub fn new() -> (r: ChatService)
        ensures
            r.wf(),
            r@ == (ChatView {
                names: Map::<Seq<char>, ChannelId>::empty(),
                channels: Map::<ChannelId, ChannelView>::empty(),
            }),
    {
        let r = ChatService { channels: SortedMap::new(), by_name: NameIndex::new() };
        assert(r@.channels =~= Map::<ChannelId, ChannelView>::empty());
        r
    }

    /// The channel joined under `name`, if any: joining is idempotent.
    pub fn joined(&self, name: &ChannelName) -> (r: Option<ChannelId>)
        requires
            self.wf(),
        ensures
            match r {
                Some(id) => self@.names.contains_key(name@) && id == self@.names[name@],
                None => !self@.names.contains_key(name@),
            },
    {
        self.by_name.get(name)
    }

    pub fn channel_id_of(&self, name: &ChannelName) -> (r: Result<ChannelId, ChatError>)
        requires
            self.wf(),
        ensures
            match r {
                Ok(id) => self@.names.contains_key(name@) && id == self@.names[name@],
                Err(e) => !self@.names.contains_key(name@) && e@ == ChatErrorView::NotJoined(name@),
            },
    {
        match self.by_name.get(name) {
            Some(id) => Ok(id),
            None => Err(ChatError::NotJoined(name.as_str().to_owned())),
        }
    }

    /// The `JOIN #name` use case, once the channel is opened and its stored
    /// history is at hand: the history is replayed, and the channel goes live.
    pub fn join_channel(
        &mut self,
        profile: &IdentityService,
        name: ChannelName,
        opening: Opening,
        stored: Vec<WireMessage>,
    ) -> (r: Arrival)
        requires
            old(self).wf(),
            profile.wf(),
            name.wf(),
            opening.channel.wf(),
            opening.channel@.visibility is Public,
        ensures
            final(self).wf(),
            r.id == opening.channel@.id,
            final(self)@ == (ChatView {
                names: old(self)@.names.insert(name@, r.id),
                channels: old(self)@.channels.insert(
                    r.id,
                    all_replayed(opening.channel@, stored@),
                ),
            }),
            match r.signal {
                ChannelSignal::Joined { who, nickname } => {
                    &&& who == profile@.id
                    &&& match (nickname, profile@.nickname) {
                        (Some(n), Some(mine)) => n@ == mine,
                        (None, None) => true,
                        _ => false,
                    }
                },
                _ => false,
            },
            app_event_views(r.events@) == all_messaging(event_views(opening.events@)),
    {
        let mut channel: Channel = opening.channel;
        rehydrate(&mut channel, stored);
        let id: ChannelId = channel.id();
        proof {
            lemma_channel_views_insert(self.channels@, id, channel);
        }
        self.channels.insert(id, channel);
        self.by_name.insert(name, id);
        let nickname: Option<String> = match profile.nickname() {
            Some(n) => Some(n.as_str().to_owned()),
            None => None,
        };
        let mut events: Vec<AppEvent> = Vec::new();
        append(&mut events, opening.events);
        assert(app_event_views(events@) =~= all_messaging(event_views(opening.events@)));
        Arrival { id, signal: ChannelSignal::Joined { who: profile.local_id(), nickname }, events }
    }

    /// The channel joined under `name`, if it is here.
    fn find(&self, name: &ChannelName) -> (r: Result<&Channel, ChatError>)
        requires
            self.wf(),
        ensures
            match r {
                Ok(c) => {
                    &&& self@.joined(name@)
                    &&& c@ == self@.channel(name@)
                    &&& c.wf()
                    &&& c@.visibility is Public
                    &&& c@.id == self@.names[name@]
                },
                Err(e) => !self@.joined(name@) && e@ == ChatErrorView::NotJoined(name@),
            },
    {
        match self.by_name.get(name) {
            Some(id) => match self.channels.get(&id) {
                Some(c) => Ok(c),
                None => Err(ChatError::NotJoined(name.as_str().to_owned())),
            },
            None => Err(ChatError::NotJoined(name.as_str().to_owned())),
        }
    }

    /// The `PART #name` use case. The founder detaches without giving up the
    /// founder seat: the founder role is immovable. Anyone else gives up their
    /// seat, and frontends hear of it at once.
    pub fn leave_channel(&mut self, profile: &IdentityService, name: &ChannelName) -> (r: Result<
        Departure,
        ChatError,
    >)
        requires
            old(self).wf(),
            profile.wf(),
        ensures
            final(self).wf(),
            match r {
                Ok(d) => {
                    let left = messaging(
                        MessagingEventView::ChannelLeft { channel: d.id, who: profile@.id },
                    );
                    &&& old(self)@.names.contains_key(name@)
                    &&& d.id == old(self)@.names[name@]
                    &&& final(self)@ == (ChatView {
                        names: old(self)@.names.remove(name@),
                        channels: old(self)@.channels.remove(d.id),
                    })
                    &&& app_event_views(d.events@) == if old(self)@.channels.contains_key(d.id)
                        && leave_fault(old(self)@.channels[d.id], profile@.id) is None {
                        seq![left]
                    } else {
                        seq![]
                    }
                    &&& d.signal == (ChannelSignal::Left { who: profile@.id })
                    &&& d.last@ == left
                },
                Err(e) => {
                    &&& !old(self)@.names.contains_key(name@)
                    &&& e@ == ChatErrorView::NotJoined(name@)
                    &&& final(self)@ == old(self)@
                },
            },
    {
        let me: IdentityId = profile.local_id();
        let id: ChannelId = match self.by_name.remove(name) {
            Some(id) => id,
            None => {
                assert(old(self).by_name@.remove(name@) =~= old(self).by_name@);
                return Err(ChatError::NotJoined(name.as_str().to_owned()));
            },
        };
        let mut events: Vec<AppEvent> = Vec::new();
        assert(app_event_views(events@) =~= seq![]);
        match self.channels.remove(&id) {
            Some(mut channel) => {
                match channel.leave(me) {
                    Ok(event) => {
                        events.push(domain(event));
                        assert(app_event_views(events@) =~= seq![messaging(event@)]);
                    },
                    Err(_) => {},
                }
            },
            None => {},
        }
        proof {
            assert(self@.channels =~= old(self)@.channels.remove(id));
        }
        Ok(
            Departure {
                id,
                events,
                signal: ChannelSignal::Left { who: me },
                last: domain(MessagingEvent::ChannelLeft { channel: id, who: me }),
            },
        )
    }

    /// The highest Lamport counter seen on a joined channel.
    pub fn top_lamport(&self, name: &ChannelName) -> (r: Option<u64>)
        requires
            self.wf(),
        ensures
            match r {
                Some(top) => self@.joined(name@) && is_max_lamport(
                    history_of(self@.channel(name@).known),
                    top,
                ),
                None => !self@.joined(name@),
            },
    {
        match self.find(name) {
            Ok(c) => Some(c.dag().max_lamport()),
            Err(_) => None,
        }
    }

    /// Prepares a message to a joined channel: it links the heads we see, and
    /// its clock is one past everything we saw.
    pub fn draft(&self, name: &ChannelName, raw_body: &str) -> (r: Result<Draft, ChatError>)
        requires
            self.wf(),
            self@.joined(name@) ==> forall|id: MessageId|
                history_of(self@.channel(name@).known).contains_key(id) ==> (
                #[trigger] history_of(self@.channel(name@).known)[id]).lamport < u64::MAX,
        ensures
            match r {
                Ok(d) => {
                    &&& body_fault(raw_body@) is None
                    &&& self@.joined(name@)
                    &&& d.channel == self@.names[name@]
                    &&& ascending(d.parents@)
                    &&& d.parents@.to_set() == heads_of(history_of(self@.channel(name@).known))
                    &&& d.lamport > 0
                    &&& is_max_lamport(
                        history_of(self@.channel(name@).known),
                        (d.lamport - 1) as u64,
                    )
                    &&& d.body@ == raw_body@
                    &&& d.body.wf()
                },
                Err(e) => e@ == match body_fault(raw_body@) {
                    Some(f) => ChatErrorView::Body(f),
                    None => ChatErrorView::NotJoined(name@),
                } && (body_fault(raw_body@) is Some || !self@.joined(name@)),
            },
    {
        let body: MessageBody = match MessageBody::parse(raw_body) {
            Ok(b) => b,
            Err(e) => {
                return Err(ChatError::Body(e));
            },
        };
        match self.find(name) {
            Ok(c) => {
                let (parents, lamport) = c.next_message_position();
                Ok(Draft { channel: c.id(), parents, lamport, body })
            },
            Err(e) => Err(e),
        }
    }

    /// The `PRIVMSG #name` use case: records a drafted message under its id,
    /// gives it the shape in which it travels, and tells frontends.
    pub fn post_message(
        &mut self,
        profile: &IdentityService,
        name: &ChannelName,
        draft: &Draft,
        id: MessageId,
        ts_hint_ms: u64,
    ) -> (r: Result<(WireMessage, Vec<AppEvent>), ChatError>)
        requires
            old(self).wf(),
            profile.wf(),
            name.wf(),
            draft.body.wf(),
        ensures
            final(self).wf(),
            ({
                let m = drafted(*draft, profile@.id, id, ts_hint_ms);
                let chat = old(self)@;
                let c = chat.channels[draft.channel];
                match r {
                    Ok((wire, events)) => {
                        &&& chat.channels.contains_key(draft.channel)
                        &&& record_fault(c, m) is None
                        &&& wire@ == m
                        &&& final(self)@ == chat.with(draft.channel, after_record(c, m))
                        &&& app_event_views(events@) == all_messaging(
                            record_events(c.id, c.known, m, true),
                        ).push(told(name@, m, profile@.nickname))
                    },
                    Err(e) => {
                        &&& final(self)@ == chat
                        &&& if chat.channels.contains_key(draft.channel) {
                            record_fault(c, m) matches Some(f) && e@ == ChatErrorView::Channel(f)
                        } else {
                            e@ == ChatErrorView::NotJoined(name@)
                        }
                    },
                }
            }),
    {
        let me: IdentityId = profile.local_id();
        let message = Message::authored(
            id,
            me,
            draft.lamport,
            copy_keys(&draft.parents),
            draft.body.clone(),
            ts_hint_ms,
        );
        let ghost before = self.channels@;
        let r = match self.channels.get_mut(&draft.channel) {
            Some(channel) => channel.record_message(message, true),
            None => {
                return Err(ChatError::NotJoined(name.as_str().to_owned()));
            },
        };
        proof {
            lemma_channel_views_insert(before, draft.channel, self.channels@[draft.channel]);
        }
        match r {
            Ok(news) => {
                let wire = WireMessage {
                    id,
                    author: me,
                    lamport: draft.lamport,
                    parents: copy_keys(&draft.parents),
                    body: draft.body.as_str().to_owned(),
                    ts_hint_ms,
                };
                let mut events: Vec<AppEvent> = Vec::new();
                append(&mut events, news);
                let ghost recorded = app_event_views(events@);
                assert(recorded =~= all_messaging(event_views(news@)));
                let last = AppEvent::ChannelMessage {
                    channel: name.clone(),
                    author: me,
                    author_nick: profile.nickname(),
                    message: id,
                    body: draft.body.clone(),
                    ts_hint_ms,
                };
                events.push(last);
                assert(app_event_views(events@) =~= recorded.push(last@));
                Ok((wire, events))
            },
            Err(e) => {
                assert(self@.channels =~= old(self)@.channels);
                Err(ChatError::Channel(e))
            },
        }
    }

    /// Sets the topic of a joined channel.
    pub fn set_topic(&mut self, name: &ChannelName, me: IdentityId, raw_topic: &str) -> (r: Result<
        (ChannelId, Topic, MessagingEvent),
        ChatError,
    >)
        requires
            old(self).wf(),
        ensures
            final(self).wf(),
            ({
                let chat = old(self)@;
                let c = chat.channel(name@);
                match r {
                    Ok((id, topic, event)) => {
                        &&& topic_fault(raw_topic@) is None
                        &&& chat.joined(name@)
                        &&& topic_change_fault(c, me) is None
                        &&& id == chat.names[name@]
                        &&& topic@ == raw_topic@
                        &&& final(self)@ == chat.with(id, ChannelView { topic: raw_topic@, ..c })
                        &&& event@ == (MessagingEventView::TopicChanged {
                            channel: id,
                            by: me,
                            topic: raw_topic@,
                        })
                    },
                    Err(e) => {
                        &&& final(self)@ == chat
                        &&& match topic_fault(raw_topic@) {
                            Some(f) => e@ == ChatErrorView::Topic(f),
                            None => if !chat.joined(name@) {
                                e@ == ChatErrorView::NotJoined(name@)
                            } else {
                                topic_change_fault(c, me) matches Some(f) && e@ == ChatErrorView::Channel(f)
                            },
                        }
                    },
                }
            }),
    {
        let topic: Topic = match Topic::parse(raw_topic) {
            Ok(t) => t,
            Err(e) => {
                return Err(ChatError::Topic(e));
            },
        };
        let id: ChannelId = match self.channel_id_of(name) {
            Ok(id) => id,
            Err(e) => {
                return Err(e);
            },
        };
        let ghost before = self.channels@;
        let r = match self.channels.get_mut(&id) {
            Some(channel) => channel.set_topic(me, topic.clone()),
            None => {
                return Err(ChatError::NotJoined(name.as_str().to_owned()));
            },
        };
        proof {
            lemma_channel_views_insert(before, id, self.channels@[id]);
        }
        match r {
            Ok(event) => Ok((id, topic, event)),
            Err(e) => {
                assert(self@.channels =~= old(self)@.channels);
                Err(ChatError::Channel(e))
            },
        }
    }

    /// Grant/revoke op on a joined channel (founder only).
    pub fn set_role(&mut self, name: &ChannelName, me: IdentityId, target: IdentityId, role: Role) -> (r: Result<
        (ChannelId, MessagingEvent),
        ChatError,
    >)
        requires
            old(self).wf(),
        ensures
            final(self).wf(),
            ({
                let chat = old(self)@;
                let c = chat.channel(name@);
                match r {
                    Ok((id, event)) => {
                        &&& chat.joined(name@)
                        &&& role_change_fault(c, me, target, role) is None
                        &&& id == chat.names[name@]
                        &&& final(self)@ == chat.with(id, after_role_change(c, target, role))
                        &&& event@ == (MessagingEventView::MemberRoleChanged {
                            channel: id,
                            member: target,
                            role,
                        })
                    },
                    Err(e) => {
                        &&& final(self)@ == chat
                        &&& if !chat.joined(name@) {
                            e@ == ChatErrorView::NotJoined(name@)
                        } else {
                            role_change_fault(c, me, target, role) matches Some(f) && e@
                                == ChatErrorView::Channel(f)
                        }
                    },
                }
            }),
    {
        let id: ChannelId = match self.channel_id_of(name) {
            Ok(id) => id,
            Err(e) => {
                return Err(e);
            },
        };
        let ghost before = self.channels@;
        let r = match self.channels.get_mut(&id) {
            Some(channel) => channel.set_role(me, target, role),
            None => {
                return Err(ChatError::NotJoined(name.as_str().to_owned()));
            },
        };
        proof {
            lemma_channel_views_insert(before, id, self.channels@[id]);
        }
        match r {
            Ok(event) => Ok((id, event)),
            Err(e) => {
                assert(self@.channels =~= old(self)@.channels);
                Err(ChatError::Channel(e))
            },
        }
    }

    pub fn topic(&self, name: &ChannelName) -> (r: Result<Topic, ChatError>)
        requires
            self.wf(),
        ensures
            match r {
                Ok(t) => self@.joined(name@) && t@ == self@.channel(name@).topic && t.wf(),
                Err(e) => !self@.joined(name@) && e@ == ChatErrorView::NotJoined(name@),
            },
    {
        match self.find(name) {
            Ok(c) => Ok(c.topic().clone()),
            Err(e) => Err(e),
        }
    }

    /// Deterministically ordered history.
    pub fn history(&self, name: &ChannelName, profile: &IdentityService) -> (r: Result<
        Vec<RenderedMessage>,
        ChatError,
    >)
        requires
            self.wf(),
            profile.wf(),
        ensures
            match r {
                Ok(shown) => {
                    let h = history_of(self@.channel(name@).known);
                    &&& self@.joined(name@)
                    &&& rendered_ids(shown@) == display_order(h)
                    &&& forall|i: int|
                        0 <= i < shown@.len() ==> (#[trigger] shown@[i]).shows(h[shown@[i].id], profile@)
                },
                Err(e) => !self@.joined(name@) && e@ == ChatErrorView::NotJoined(name@),
            },
    {
        match self.find(name) {
            Ok(c) => {
                let messages: Vec<&Message> = c.history();
                Ok(render(&messages, profile))
            },
            Err(e) => Err(e),
        }
    }

    /// The members of a joined channel with their roles and labels, in id
    /// order.
    pub fn members(&self, name: &ChannelName, profile: &IdentityService) -> (r: Result<
        Vec<MemberView>,
        ChatError,
    >)
        requires
            self.wf(),
            profile.wf(),
        ensures
            match r {
                Ok(ms) => {
                    let members = self@.channel(name@).members;
                    &&& self@.joined(name@)
                    &&& Seq::new(ms@.len(), |i: int| ms@[i].id) == in_order(members.dom())
                    &&& forall|i: int|
                        0 <= i < ms@.len() ==> members[(#[trigger] ms@[i]).id] == ms@[i].role && nick_text(
                            ms@[i].nick,
                        ) == profile@.nick_of(ms@[i].id)
                },
                Err(e) => !self@.joined(name@) && e@ == ChatErrorView::NotJoined(name@),
            },
    {
        match self.find(name) {
            Ok(c) => {
                let raw: Vec<(IdentityId, Role)> = c.members();
                let ghost ids = raw@.map_values(|e: (IdentityId, Role)| e.0);
                let mut out: Vec<MemberView> = Vec::new();
                let mut i: usize = 0;
                while i < raw.len()
                    invariant
                        i <= raw@.len(),
                        profile.wf(),
                        out@.len() == i,
                        forall|j: int|
                            0 <= j < i ==> (#[trigger] out@[j]).id == raw@[j].0 && out@[j].role == raw@[j].1
                                && nick_text(out@[j].nick) == profile@.nick_of(out@[j].id),
                    decreases raw@.len() - i,
                {
                    let (id, role) = raw[i];
                    out.push(MemberView { id, role, nick: profile.nickname_of(&id) });
                    i = i + 1;
                }
                proof {
                    assert(Seq::new(out@.len(), |i: int| out@[i].id) =~= ids);
                    lemma_in_order(c@.members.dom(), ids);
                    assert forall|i: int| 0 <= i < out@.len() implies c@.members[(#[trigger] out@[i]).id] == out@[i].role by {
                        assert(c@.members[raw@[i].0] == raw@[i].1);
                    }
                }
                Ok(out)
            },
            Err(e) => Err(e),
        }
    }

    /// The names of all joined channels, in name order.
    pub fn joined_channels(&self) -> (r: Vec<ChannelName>)
        requires
            self.wf(),
        ensures
            texts_ascend(name_texts(r@)),
            forall|t: Seq<char>| #[trigger] name_texts(r@).contains(t) <==> self@.names.contains_key(t),
            forall|i: int| 0 <= i < r@.len() ==> (#[trigger] r@[i]).wf(),
    {
        proof {
            self.by_name.lemma_listing();
        }
        self.by_name.names()
    }

    /// Reverse lookup of a joined channel's name.
    pub fn name_of(&self, channel: &ChannelId) -> (r: Option<ChannelName>)
        requires
            self.wf(),
        ensures
            match r {
                Some(n) => {
                    &&& n.wf()
                    &&& self@.first_name(*channel, n@)
                    &&& self@.name_of(*channel) == Some(n@)
                },
                None => self@.name_of(*channel) is None,
            },
    {
        let r = self.by_name.name_of(channel);
        proof {
            if r is Some {
                let name = r->0@;
                assert(self@.first_name(*channel, name));
                assert(self@.names.contains_value(*channel));
                let other = choose|name: Seq<char>| self@.first_name(*channel, name);
                lemma_text_total(name, other);
            }
        }
        r
    }
}

/// Messages with the labels of their authors.
pub fn render(messages: &Vec<&Message>, profile: &IdentityService) -> (r: Vec<RenderedMessage>)
    requires
        profile.wf(),
    ensures
        r@.len() == messages@.len(),
        rendered_ids(r@) == crate::messaging::dag::ids_of(messages@),
        forall|i: int| 0 <= i < r@.len() ==> (#[trigger] r@[i]).shows(messages@[i]@, profile@),
{
    let mut out: Vec<RenderedMessage> = Vec::new();
    let mut i: usize = 0;
    while i < messages.len()
        invariant
            i <= messages@.len(),
            profile.wf(),
            out@.len() == i,
            forall|j: int| 0 <= j < i ==> (#[trigger] out@[j]).shows(messages@[j]@, profile@),
        decreases messages@.len() - i,
    {
        let m: &Message = messages[i];
        let author: IdentityId = m.author();
        out.push(
            RenderedMessage {
                id: m.id(),
                author,
                author_nick: profile.nickname_of(&author),
                body: m.body().clone(),
                ts_hint_ms: m.ts_hint_ms(),
            },
        );
        i = i + 1;
    }
    assert(rendered_ids(out@) =~= crate::messaging::dag::ids_of(messages@));
    out
}

/// The event as frontends see it.
fn domain(event: MessagingEvent) -> (r: AppEvent)
    ensures
        r@ == messaging(event@),
{
    AppEvent::Domain(DomainEvent::Messaging(event))
}

/// A message of ours or of theirs has just been applied.
fn any_applied(events: &Vec<MessagingEvent>) -> (r: bool)
    ensures
        r == exists|i: int|
            0 <= i < events@.len() && ((#[trigger] event_views(events@)[i]) is MessagePosted
                || event_views(events@)[i] is MessageReceived),
{
    let mut applied: bool = false;
    let mut i: usize = 0;
    while i < events.len()
        invariant
            i <= events@.len(),
            applied == exists|j: int|
                0 <= j < i && ((#[trigger] event_views(events@)[j]) is MessagePosted || event_views(
                    events@,
                )[j] is MessageReceived),
        decreases events@.len() - i,
    {
        assert(event_views(events@)[i as int] == events@[i as int]@);
        match &events[i] {
            MessagingEvent::MessagePosted { .. } => {
                applied = true;
            },
            MessagingEvent::MessageReceived { .. } => {
                applied = true;
            },
            _ => {},
        }
        i = i + 1;
    }
    applied
}

/// Recording raises an applied message exactly if it can be shown at once.
proof fn lemma_applied_is_shown(c: ChannelView, m: MessageView)
    ensures
        ({
            let events = record_events(c.id, c.known, m, false);
            shown_at_once(c, m) <==> exists|i: int|
                0 <= i < events.len() && ((#[trigger] events[i]) is MessagePosted
                    || events[i] is MessageReceived)
        }),
{
    lemma_none_missing(c, m);
    let events = record_events(c.id, c.known, m, false);
    if shown_at_once(c, m) {
        assert(events[0] is MessageReceived);
    }
}

/// The message a transport handed over, once its body proved well-formed.
fn taken_in(wire: &WireMessage, body: &MessageBody, verified: Verified) -> (r: Message)
    requires
        body.wf(),
        body@ == wire.body@,
    ensures
        r@ == wire@,
{
    Message::received(
        verified,
        wire.id,
        wire.author,
        wire.lamport,
        copy_keys(&wire.parents),
        body.clone(),
        wire.ts_hint_ms,
    )
}

/// Appends `more`, as frontends see it, to `events`.
fn append(events: &mut Vec<AppEvent>, more: Vec<MessagingEvent>)
    ensures
        app_event_views(final(events)@) == app_event_views(old(events)@) + all_messaging(
            event_views(more@),
        ),
{
    let mut more: Vec<MessagingEvent> = more;
    let ghost all = more@;
    let mut shown: Vec<AppEvent> = Vec::new();
    while more.len() > 0
        invariant
            shown@.len() + more@.len() == all.len(),
            more@ == all.take(more@.len() as int),
            forall|j: int|
                0 <= j < shown@.len() ==> (#[trigger] shown@[j])@ == messaging(
                    all[all.len() - 1 - j]@,
                ),
        decreases more@.len(),
    {
        match more.pop() {
            Some(event) => {
                shown.push(domain(event));
            },
            None => {},
        }
    }
    let ghost reversed = shown@;
    let ghost before = events@;
    while shown.len() > 0
        invariant
            reversed.len() == all.len(),
            shown@ == reversed.take(shown@.len() as int),
            shown@.len() <= reversed.len(),
            forall|j: int|
                0 <= j < reversed.len() ==> (#[trigger] reversed[j])@ == messaging(
                    all[all.len() - 1 - j]@,
                ),
            events@.len() == before.len() + reversed.len() - shown@.len(),
            forall|j: int| 0 <= j < before.len() ==> (#[trigger] events@[j]) == before[j],
            forall|j: int|
                before.len() <= j < events@.len() ==> (#[trigger] events@[j])@ == messaging(
                    all[j - before.len()]@,
                ),
        decreases shown@.len(),
    {
        match shown.pop() {
            Some(event) => {
                events.push(event);
            },
            None => {},
        }
    }
    assert(app_event_views(events@) =~= app_event_views(before) + all_messaging(event_views(all)));
}

impl ChatService {
    /// A message arrived for channel `id`, joined under `name`.
    fn receive_message(
        &mut self,
        profile: &mut IdentityService,
        id: ChannelId,
        name: &ChannelName,
        wire: WireMessage,
        verified: Verified,
        fingerprint: Fingerprint,
        now_ms: u64,
    ) -> (r: Reaction)
        requires
            old(self).wf(),
            old(profile).wf(),
            name.wf(),
        ensures
            final(self).wf(),
            final(profile).wf(),
            r.is(
                message_reaction(
                    old(self)@,
                    old(profile)@,
                    id,
                    name@,
                    wire@,
                    fingerprint,
                    now_ms,
                ),
                final(self)@,
                final(profile)@,
            ),
    {
        let mut events: Vec<AppEvent> = Vec::new();
        assert(app_event_views(events@) =~= seq![]);
        if profile.is_blocked(&wire.author) {
            return Reaction { save: None, events };
        }
        let body: MessageBody = match MessageBody::parse(wire.body.as_str()) {
            Ok(body) => body,
            Err(_) => {
                return Reaction { save: None, events };
            },
        };
        match profile.observe_peer(wire.author, fingerprint, None, now_ms) {
            Some(event) => {
                events.push(AppEvent::Domain(DomainEvent::Identity(event)));
                assert(app_event_views(events@) =~= seq![identity(event)]);
            },
            None => {},
        }
        let ghost raised = app_event_views(events@);
        let ghost before = self.channels@;
        let ghost c0 = before[id]@;
        let author: IdentityId = wire.author;
        let (joined, news) = match self.channels.get_mut(&id) {
            None => {
                return Reaction { save: None, events };
            },
            Some(channel) => {
                let mut joined: Option<MessagingEvent> = None;
                if !channel.is_member(&author) {
                    match channel.join(author) {
                        Ok(event) => {
                            joined = Some(event);
                        },
                        Err(_) => {},
                    }
                }
                let message = taken_in(&wire, &body, verified);
                let news = channel.record_message(message, false);
                (joined, news)
            },
        };
        proof {
            lemma_channel_views_insert(before, id, self.channels@[id]);
        }
        let ghost c1 = if c0.members.contains_key(author) {
            c0
        } else {
            after_join(c0, author)
        };
        match joined {
            Some(event) => {
                let ghost earlier = events@;
                events.push(domain(event));
                assert(app_event_views(events@) =~= raised + seq![messaging(event@)]);
            },
            None => {
                assert(raised + Seq::<AppEventView>::empty() =~= raised);
            },
        }
        let ghost with_join = app_event_views(events@);
        match news {
            Ok(news) => {
                let applied: bool = any_applied(&news);
                proof {
                    lemma_applied_is_shown(c1, wire@);
                }
                assert(applied == shown_at_once(c1, wire@));
                if applied {
                    let last = AppEvent::ChannelMessage {
                        channel: name.clone(),
                        author,
                        author_nick: profile.nickname_of(&author),
                        message: wire.id,
                        body,
                        ts_hint_ms: wire.ts_hint_ms,
                    };
                    events.push(last);
                    assert(app_event_views(events@) =~= with_join + seq![last@]);
                    append(&mut events, news);
                    Reaction { save: Some(wire), events }
                } else {
                    assert(with_join + Seq::<AppEventView>::empty() =~= with_join);
                    append(&mut events, news);
                    Reaction { save: None, events }
                }
            },
            Err(_) => {
                Reaction { save: None, events }
            },
        }
    }

    /// Inbound path, called by the transport router with a verification
    /// attestation. Unknown channels are ignored (we are not subscribed).
    /// `fingerprint` is that of the identity the signal speaks of.
    pub fn receive_signal(
        &mut self,
        profile: &mut IdentityService,
        id: ChannelId,
        signal: ChannelSignal,
        verified: Verified,
        fingerprint: Fingerprint,
        now_ms: u64,
    ) -> (r: Reaction)
        requires
            old(self).wf(),
            old(profile).wf(),
        ensures
            final(self).wf(),
            final(profile).wf(),
            r.is(
                match old(self)@.name_of(id) {
                    Some(name) => signal_reaction(
                        old(self)@,
                        old(profile)@,
                        id,
                        name,
                        signal,
                        fingerprint,
                        now_ms,
                    ),
                    None => no_reaction(old(self)@, old(profile)@),
                },
                final(self)@,
                final(profile)@,
            ),
    {
        let mut events: Vec<AppEvent> = Vec::new();
        assert(app_event_views(events@) =~= seq![]);
        let name: ChannelName = match self.name_of(&id) {
            Some(name) => name,
            None => {
                return Reaction { save: None, events };
            },
        };
        if profile.is_blocked(&signal.actor()) {
            return Reaction { save: None, events };
        }
        let ghost before = self.channels@;
        match signal {
            ChannelSignal::Message(wire) => self.receive_message(
                profile,
                id,
                &name,
                wire,
                verified,
                fingerprint,
                now_ms,
            ),
            ChannelSignal::Joined { who, nickname } => {
                let nick: Option<Nickname> = match &nickname {
                    Some(n) => match Nickname::parse(n.as_str()) {
                        Ok(n) => Some(n),
                        Err(_) => None,
                    },
                    None => None,
                };
                match profile.observe_peer(who, fingerprint, nick, now_ms) {
                    Some(event) => {
                        events.push(AppEvent::Domain(DomainEvent::Identity(event)));
                        assert(app_event_views(events@) =~= seq![identity(event)]);
                    },
                    None => {},
                }
                let ghost raised = app_event_views(events@);
                match self.channels.get_mut(&id) {
                    Some(channel) => {
                        match channel.join(who) {
                            Ok(event) => {
                                events.push(domain(event));
                                assert(app_event_views(events@) =~= raised.push(messaging(event@)));
                            },
                            Err(_) => {},
                        }
                    },
                    None => {},
                }
                proof {
                    self.lemma_one_changed(before, id);
                }
                Reaction { save: None, events }
            },
            ChannelSignal::Left { who } => {
                match self.channels.get_mut(&id) {
                    Some(channel) => {
                        match channel.leave(who) {
                            Ok(event) => {
                                events.push(domain(event));
                                assert(app_event_views(events@) =~= seq![messaging(event@)]);
                            },
                            Err(_) => {},
                        }
                    },
                    None => {},
                }
                proof {
                    self.lemma_one_changed(before, id);
                }
                Reaction { save: None, events }
            },
            ChannelSignal::TopicChanged { by, topic } => {
                match Topic::parse(topic.as_str()) {
                    Ok(topic) => {
                        match self.channels.get_mut(&id) {
                            Some(channel) => {
                                match channel.set_topic(by, topic) {
                                    Ok(event) => {
                                        events.push(domain(event));
                                        assert(app_event_views(events@) =~= seq![messaging(event@)]);
                                    },
                                    Err(_) => {},
                                }
                            },
                            None => {},
                        }
                    },
                    Err(_) => {},
                }
                proof {
                    self.lemma_one_changed(before, id);
                }
                Reaction { save: None, events }
            },
            ChannelSignal::RoleChanged { by, target, op } => {
                let role: Role = if op {
                    Role::Op
                } else {
                    Role::Member
                };
                match self.channels.get_mut(&id) {
                    Some(channel) => {
                        match channel.set_role(by, target, role) {
                            Ok(event) => {
                                events.push(domain(event));
                                assert(app_event_views(events@) =~= seq![messaging(event@)]);
                            },
                            Err(_) => {},
                        }
                    },
                    None => {},
                }
                proof {
                    self.lemma_one_changed(before, id);
                }
                Reaction { save: None, events }
            },
            ChannelSignal::Presence { .. } => Reaction { save: None, events },
        }
    }

    /// At most the channel under `id` differs from before.
    proof fn lemma_one_changed(&self, before: Map<ChannelId, Channel>, id: ChannelId)
        requires
            self.channels@ == before || self.channels@ == before.insert(id, self.channels@[id]),
        ensures
            before.contains_key(id) ==> channel_views(self.channels@) == channel_views(
                before,
            ).insert(id, self.channels@[id]@),
            !before.contains_key(id) && self.channels@ == before ==> channel_views(self.channels@)
                == channel_views(before),
            before.contains_key(id) && self.channels@[id]@ == before[id]@ ==> channel_views(
                self.channels@,
            ) == channel_views(before),
    {
        assert(before.contains_key(id) ==> channel_views(self.channels@) =~= channel_views(
            before,
        ).insert(id, self.channels@[id]@));
        assert(before.contains_key(id) && self.channels@[id]@ == before[id]@ ==> channel_views(
            self.channels@,
        ) =~= channel_views(before));
    }
}

/// Nothing that a blocked peer does on a channel leaves a trace: no message, no
/// joining or leaving, no topic and no role.
pub proof fn law_blocked_author_leaves_no_trace(
    chat: ChatView,
    profile: ProfileView,
    id: ChannelId,
    name: Seq<char>,
    signal: ChannelSignal,
    fingerprint: Fingerprint,
    now_ms: u64,
)
    requires
        profile.blocks(acting(signal)),
    ensures
        signal_reaction(chat, profile, id, name, signal, fingerprint, now_ms) == no_reaction(
            chat,
            profile,
        ),
{
}

/// However often a message of a member arrives, it is told and saved once: a
/// repeat changes nothing in the channel.
pub proof fn law_message_is_told_once(
    chat: ChatView,
    profile: ProfileView,
    id: ChannelId,
    name: Seq<char>,
    m: MessageView,
    fingerprint: Fingerprint,
    now_ms: u64,
)
    requires
        chat.channels.contains_key(id),
        chat.channels[id].members.contains_key(m.author),
        chat.channels[id].known.contains_key(m.id),
    ensures
        message_reaction(chat, profile, id, name, m, fingerprint, now_ms).chat == chat,
        message_reaction(chat, profile, id, name, m, fingerprint, now_ms).save is None,
        profile.blocks(m.author) || body_fault(m.body) is Some || message_reaction(
            chat,
            profile,
            id,
            name,
            m,
            fingerprint,
            now_ms,
        ).events == as_list(sighting_event(profile, m.author, fingerprint)),
{
    let c = chat.channels[id];
    assert(after_record(c, m) == c);
    assert(chat.channels.insert(id, c) =~= chat.channels);
    assert(as_list(sighting_event(profile, m.author, fingerprint)) + Seq::<AppEventView>::empty()
        + Seq::<AppEventView>::empty() + all_messaging(seq![]) =~= as_list(
        sighting_event(profile, m.author, fingerprint),
    ));
}

/// A message gets through. One from somebody we do not block, with a body that can be
/// said, to a channel we are on, new and with nothing missing below it, is told to
/// frontends, once, with its author, its words and its time, is saved, and is part of
/// what the channel shows.
pub proof fn law_a_message_gets_through(
    chat: ChatView,
    profile: ProfileView,
    id: ChannelId,
    name: Seq<char>,
    wire: WireMessage,
    fingerprint: Fingerprint,
    now_ms: u64,
)
    requires
        !profile.blocks(wire.author),
        body_fault(wire.body@) is None,
        chat.channels.contains_key(id),
        !chat.channels[id].known.contains_key(wire.id),
        forall|i: int|
            0 <= i < wire.parents@.len() ==> history_of(chat.channels[id].known).contains_key(
                #[trigger] wire.parents@[i],
            ),
    ensures
        ({
            let r = signal_reaction(
                chat,
                profile,
                id,
                name,
                ChannelSignal::Message(wire),
                fingerprint,
                now_ms,
            );
            let nick = if wire.author == profile.id {
                profile.nickname
            } else if profile.nicks.contains_key(wire.author) {
                Some(profile.nicks[wire.author])
            } else {
                None
            };
            &&& r.save == Some(wire@)
            &&& r.chat.channels.contains_key(id)
            &&& history_of(r.chat.channels[id].known).contains_key(wire.id)
            &&& history_of(r.chat.channels[id].known)[wire.id] == wire@
            &&& r.chat.channels[id].members.contains_key(wire.author)
            &&& r.events.contains(
                AppEventView::ChannelMessage {
                    channel: name,
                    author: wire.author,
                    author_nick: nick,
                    message: wire.id,
                    body: wire.body@,
                    ts_hint_ms: wire.ts_hint_ms,
                },
            )
        }),
{
    let m = wire@;
    let c0 = chat.channels[id];
    let r = message_reaction(chat, profile, id, name, m, fingerprint, now_ms);
    let seen = after_sighting(profile, m.author, fingerprint, None, now_ms);
    let raised = as_list(sighting_event(profile, m.author, fingerprint));
    let c1 = if c0.members.contains_key(m.author) {
        c0
    } else {
        after_join(c0, m.author)
    };
    assert(shown_at_once(c1, m));
    crate::messaging::dag::law_a_timely_message_is_shown(c1.known, m);
    let said = told(name, m, seen.nick_of(m.author));
    let at: int = raised.len() as int + if c0.members.contains_key(m.author) {
        0int
    } else {
        1
    };
    assert(r.events[at] == said);
}

/// A message that waits for its parents is kept: it is part of what the channel knows,
/// is neither told nor saved yet, and the gap is told.
pub proof fn law_an_early_message_is_kept(
    chat: ChatView,
    profile: ProfileView,
    id: ChannelId,
    name: Seq<char>,
    m: MessageView,
    fingerprint: Fingerprint,
    now_ms: u64,
    gap: int,
)
    requires
        !profile.blocks(m.author),
        body_fault(m.body) is None,
        chat.channels.contains_key(id),
        !chat.channels[id].known.contains_key(m.id),
        0 <= gap < m.parents.len(),
        !history_of(chat.channels[id].known).contains_key(m.parents[gap]),
    ensures
        ({
            let r = message_reaction(chat, profile, id, name, m, fingerprint, now_ms);
            &&& r.save is None
            &&& r.chat.channels[id].known.contains_key(m.id)
            &&& r.chat.channels[id].known[m.id] == m
            &&& r.events.len() > 0
            &&& r.events.last() matches AppEventView::Domain(
                DomainEventView::Messaging(MessagingEventView::HistoryGapDetected { missing, .. }),
            ) && missing.contains(m.parents[gap])
        }),
{
    let c0 = chat.channels[id];
    let c1 = if c0.members.contains_key(m.author) {
        c0
    } else {
        after_join(c0, m.author)
    };
    crate::messaging::channel::law_recording_tells_the_news(c1.id, c1.known, m, false);
    crate::messaging::dag::law_gaps_name_what_is_missing(
        m.parents,
        history_of(c1.known).dom(),
        m.parents[gap],
    );
    assert(!shown_at_once(c1, m));
    let r = message_reaction(chat, profile, id, name, m, fingerprint, now_ms);
    let news = all_messaging(record_events(c1.id, c1.known, m, false));
    assert(news.len() == 1);
    assert(r.events.last() == news[0]);
    assert(m.parents.contains(m.parents[gap]));
}

/// What a peer may do on a channel happens there, for everyone who hears it: joining,
/// leaving, setting the topic and appointing, each with one event; and what they may
/// not do changes nothing.
pub proof fn law_rightful_signals_take_effect(
    chat: ChatView,
    profile: ProfileView,
    id: ChannelId,
    name: Seq<char>,
    signal: ChannelSignal,
    fingerprint: Fingerprint,
    now_ms: u64,
)
    requires
        chat.channels.contains_key(id),
        !profile.blocks(acting(signal)),
    ensures
        ({
            let c = chat.channels[id];
            let r = signal_reaction(chat, profile, id, name, signal, fingerprint, now_ms);
            let after = r.chat.channels[id];
            match signal {
                ChannelSignal::Joined { who, .. } => {
                    &&& after.members.contains_key(who)
                    &&& c.members.contains_key(who) ==> r.chat == chat
                    &&& !c.members.contains_key(who) ==> after.members == c.members.insert(
                        who,
                        Role::Member,
                    ) && after.known == c.known && r.events.len() > 0 && r.events.last() == messaging(
                        MessagingEventView::ChannelJoined { channel: c.id, who },
                    )
                },
                ChannelSignal::Left { who } => {
                    if c.members.contains_key(who) && c.members[who] != Role::Founder {
                        &&& after.members == c.members.remove(who)
                        &&& after.known == c.known
                        &&& r.events == seq![
                            messaging(MessagingEventView::ChannelLeft { channel: c.id, who }),
                        ]
                    } else {
                        r.chat == chat && r.events.len() == 0
                    }
                },
                ChannelSignal::TopicChanged { by, topic } => {
                    if topic_fault(topic@) is None && c.members.contains_key(by) && (c.members[by]
                        == Role::Founder || c.members[by] == Role::Op) {
                        &&& after.topic == topic@
                        &&& after.members == c.members
                        &&& after.known == c.known
                        &&& r.events == seq![
                            messaging(
                                MessagingEventView::TopicChanged {
                                    channel: c.id,
                                    by,
                                    topic: topic@,
                                },
                            ),
                        ]
                    } else {
                        r.chat == chat && r.events.len() == 0
                    }
                },
                ChannelSignal::RoleChanged { by, target, op } => {
                    if c.members.contains_key(by) && c.members[by] == Role::Founder
                        && c.members.contains_key(target) && c.members[target] != Role::Founder {
                        &&& after.members == c.members.insert(
                            target,
                            if op {
                                Role::Op
                            } else {
                                Role::Member
                            },
                        )
                        &&& after.known == c.known
                        &&& r.events.len() == 1
                    } else {
                        r.chat == chat && r.events.len() == 0
                    }
                },
                ChannelSignal::Presence { .. } => r.chat == chat && r.events.len() == 0,
                ChannelSignal::Message(_) => true,
            }
        }),
{
}

/// A signal on one channel touches no other, and leaves every channel joined under the
/// name it has.
pub proof fn law_other_channels_are_untouched(
    chat: ChatView,
    profile: ProfileView,
    id: ChannelId,
    name: Seq<char>,
    signal: ChannelSignal,
    fingerprint: Fingerprint,
    now_ms: u64,
    other: ChannelId,
)
    requires
        other != id,
    ensures
        ({
            let after = signal_reaction(chat, profile, id, name, signal, fingerprint, now_ms).chat;
            &&& after.names == chat.names
            &&& after.channels.contains_key(other) <==> chat.channels.contains_key(other)
            &&& chat.channels.contains_key(other) ==> after.channels[other] == chat.channels[other]
        }),
{
}

/// A nickname announced on joining is the one shown from then on, if it can be one;
/// otherwise the one known before stays.
pub proof fn law_announced_nicknames_are_learned(
    chat: ChatView,
    profile: ProfileView,
    id: ChannelId,
    name: Seq<char>,
    who: IdentityId,
    nickname: String,
    fingerprint: Fingerprint,
    now_ms: u64,
)
    requires
        !profile.blocks(who),
        who != profile.id,
    ensures
        ({
            let r = signal_reaction(
                chat,
                profile,
                id,
                name,
                ChannelSignal::Joined { who, nickname: Some(nickname) },
                fingerprint,
                now_ms,
            );
            &&& nickname_fault(nickname@) is None ==> r.profile.nick_of(who) == Some(nickname@)
            &&& nickname_fault(nickname@) is Some ==> r.profile.nick_of(who) == profile.nick_of(who)
        }),
{
}

/// To open a channel is to be in it: as the founder of a new one, or of one on record
/// that is our own, and as a plain member of anyone else's, whose founder is whoever
/// the record names. It is public, empty, and without a topic.
pub proof fn law_opening_a_channel_joins_it(
    record: Option<ChannelRecord>,
    name: Seq<char>,
    me: IdentityId,
    fresh: ChannelId,
)
    ensures
        ({
            let c = opened(record, name, me, fresh);
            &&& c.members.contains_key(me)
            &&& record is None ==> c.id == fresh && c.members[me] == Role::Founder
                && c.members.dom() =~= set![me]
            &&& record matches Some(r) ==> {
                &&& c.id == r.id
                &&& c.members.contains_key(r.founder) && c.members[r.founder] == Role::Founder
                &&& r.founder != me ==> c.members[me] == Role::Member
                &&& c.members.dom() =~= set![me, r.founder]
            }
            &&& c.name == name
            &&& c.known.len() == 0
            &&& c.topic.len() == 0
            &&& c.visibility is Public
        }),
        opening_events(record, name, me, fresh).last() == (MessagingEventView::ChannelJoined {
            channel: opened(record, name, me, fresh).id,
            who: me,
        }),
        opening_events(record, name, me, fresh)[0] == (MessagingEventView::ChannelCreated {
            channel: opened(record, name, me, fresh).id,
            name,
        }),
{
    assert(Map::<MessageId, MessageView>::empty().len() == 0);
}

/// Replaying a stored history gives back every message of it that can be read, with its
/// author as a member, and forgets nothing that was there.
pub proof fn law_stored_history_comes_back(c: ChannelView, stored: Seq<WireMessage>, i: int)
    requires
        0 <= i < stored.len(),
    ensures
        ({
            let after = all_replayed(c, stored);
            &&& after.members.contains_key(stored[i].author)
            &&& body_fault(stored[i].body@) is None ==> after.known.contains_key(stored[i].id)
            &&& forall|id: MessageId| #[trigger]
                c.known.contains_key(id) ==> after.known.contains_key(id) && after.known[id]
                    == c.known[id]
            &&& forall|who: IdentityId| #[trigger]
                c.members.contains_key(who) ==> after.members.contains_key(who) && after.members[who]
                    == c.members[who]
            &&& after.topic == c.topic
            &&& after.id == c.id
        }),
    decreases stored.len(),
{
    let front = stored.drop_last();
    if i < front.len() {
        law_stored_history_comes_back(c, front, i);
        assert(front[i] == stored[i]);
    } else if front.len() > 0 {
        law_stored_history_comes_back(c, front, 0);
    }
    assert(stored.last() == stored[stored.len() - 1]);
}

/// A message drafted is sent as it was written: by its author, with its words, behind
/// what it links, at its place in the order.
pub proof fn law_drafts_become_what_they_say(d: Draft, author: IdentityId, id: MessageId, ts_hint_ms: u64)
    ensures
        drafted(d, author, id, ts_hint_ms).id == id,
        drafted(d, author, id, ts_hint_ms).author == author,
        drafted(d, author, id, ts_hint_ms).body == d.body@,
        drafted(d, author, id, ts_hint_ms).parents == d.parents@,
        drafted(d, author, id, ts_hint_ms).lamport == d.lamport,
        drafted(d, author, id, ts_hint_ms).ts_hint_ms == ts_hint_ms,
{
}

/// A channel that is joined has a name, and it is one that it is joined under.
pub proof fn law_joined_channels_have_a_name(chat: ChatView, id: ChannelId, name: Seq<char>)
    requires
        chat.first_name(id, name),
    ensures
        chat.name_of(id) == Some(name),
        chat.names.contains_key(name) && chat.names[name] == id,
{
    assert(chat.names.contains_value(id));
    let other = choose|n: Seq<char>| chat.first_name(id, n);
    assert(chat.first_name(id, other));
    lemma_text_total(name, other);
}

/// A message is shown as it was said: its words, its author, its time and the nickname that
/// its author goes by.
pub proof fn law_messages_are_shown_as_said(r: RenderedMessage, m: MessageView, p: ProfileView)
    ensures
        r.shows(m, p) <==> {
            &&& r.id == m.id
            &&& r.author == m.author
            &&& r.body@ == m.body
            &&& r.ts_hint_ms == m.ts_hint_ms
            &&& nick_text(r.author_nick) == (if m.author == p.id {
                p.nickname
            } else if p.nicks.contains_key(m.author) {
                Some(p.nicks[m.author])
            } else {
                None
            })
        },
{
}

/// A reaction that is as it should be leaves both services as it says, tells what it says
/// and saves what it says.
pub proof fn law_reactions_are_as_they_say(
    r: Reaction,
    v: ReactionView,
    chat: ChatView,
    profile: ProfileView,
)
    requires
        r.is(v, chat, profile),
    ensures
        chat == v.chat,
        profile == v.profile,
        app_event_views(r.events@) == v.events,
        r.save is Some <==> v.save is Some,
        r.save matches Some(wire) ==> wire@ == v.save->0,
{
}

} // verus!

//! Direct-message use cases. Payload encryption is the transport's duty; the
//! service works with plaintext bodies that exist only on this node.

use vstd::prelude::*;

use crate::events::{
    app_event_views, identity, AppEvent, AppEventView, DomainEvent,
};
use crate::messaging::dag::{display_order, heads_of, history_of, is_max_lamport, learn};
use crate::messaging::message::MessageView;
use crate::messaging::values::body_fault;
use crate::messaging::{
    DmKey, DmKeyError, DmThread, Message, MessageBody, MessageBodyError, MessageId, Verified,
};
use crate::order::Key;
use crate::ports::{TransportError, WireMessage};
use crate::shared::{Fingerprint, IdentityId};
use crate::sorted::{ascending, copy_keys, SortedMap};

use super::chat::{as_list, render, rendered_ids, RenderedMessage};
use super::identity::{after_sighting, sighting_event, IdentityService, ProfileView};

verus! {

#[derive(Debug, Clone, PartialEq, Eq)]
pub enum DmError {
    Key(DmKeyError),
    Body(MessageBodyError),
    Transport(TransportError),
    Blocked,
}

/// What each thread has heard so far, by the pair of its participants.
pub type Threads = Map<DmKey, Map<MessageId, MessageView>>;

/// What the thread under `key` has heard: nothing, if it was never opened.
pub open spec fn heard(threads: Threads, key: DmKey) -> Map<MessageId, MessageView> {
    if threads.contains_key(key) {
        threads[key]
    } else {
        Map::empty()
    }
}

/// The key of the thread between two people.
pub open spec fn key_between(key: DmKey, a: IdentityId, b: IdentityId) -> bool {
    key.wf() && key.joins(a) && key.joins(b) && a != b
}

/// What stored threads have heard.
pub open spec fn thread_views(m: Map<DmKey, DmThread>) -> Threads {
    Map::new(|k: DmKey| m.contains_key(k), |k: DmKey| m[k].known())
}

/// How frontends hear of direct message `m`.
pub open spec fn told(m: MessageView, nick: Option<Seq<char>>) -> AppEventView {
    AppEventView::DirectMessage {
        from: m.author,
        from_nick: nick,
        message: m.id,
        body: m.body,
        ts_hint_ms: m.ts_hint_ms,
    }
}

/// Why `to` cannot be sent `raw_body`, if so.
pub open spec fn send_fault(profile: ProfileView, to: IdentityId, raw_body: Seq<char>) -> Option<DmError> {
    if profile.blocks(to) {
        Some(DmError::Blocked)
    } else if body_fault(raw_body) is Some {
        Some(DmError::Body(body_fault(raw_body)->0))
    } else if to == profile.id {
        Some(DmError::Key(DmKeyError::SelfThread))
    } else {
        None
    }
}

/// A direct message is discarded if its sender is blocked, if it claims
/// another author, if its body is malformed, and if it comes from ourselves.
pub open spec fn discarded(profile: ProfileView, from: IdentityId, m: MessageView) -> bool {
    ||| profile.blocks(from)
    ||| m.author != from
    ||| body_fault(m.body) is Some
    ||| from == profile.id
}

/// A direct message about to be sent: everything but its id and its time.
#[derive(Debug)]
pub struct DmDraft {
    pub key: DmKey,
    pub parents: Vec<MessageId>,
    pub lamport: u64,
    pub body: MessageBody,
}

/// The message a draft becomes.
pub open spec fn drafted(d: DmDraft, author: IdentityId, id: MessageId, ts_hint_ms: u64) -> MessageView {
    MessageView {
        id,
        author,
        lamport: d.lamport,
        parents: d.parents@,
        body: d.body@,
        ts_hint_ms,
    }
}

/// The direct-message threads.
#[derive(Debug)]
pub struct DmService {
    threads: SortedMap<DmKey, DmThread>,
}

impl View for DmService {
    type V = Threads;

    closed spec fn view(&self) -> Threads {
        thread_views(self.threads@)
    }
}

impl DmService {
    /// Each thread stands under its own key.
    pub closed spec fn wf(&self) -> bool {
        &&& self.threads.wf()
        &&& forall|k: DmKey| #[trigger]
            self.threads@.contains_key(k) ==> self.threads@[k].wf() && self.threads@[k].spec_key()
                == k
    }

    pub fn new() -> (r: DmService)
        ensures
            r.wf(),
            r@ == Map::<DmKey, Map<MessageId, MessageView>>::empty(),
    {
        let r = DmService { threads: SortedMap::new() };
        assert(r@ =~= Map::<DmKey, Map<MessageId, MessageView>>::empty());
        r
    }

    /// The highest Lamport counter seen in the thread with `with`.
    pub fn top_lamport(&self, profile: &IdentityService, with: IdentityId) -> (r: u64)
        requires
            self.wf(),
            profile.wf(),
        ensures
            forall|key: DmKey| #[trigger]
                key_between(key, profile@.id, with) ==> is_max_lamport(
                    history_of(heard(self@, key)),
                    r,
                ),
    {
        let me: IdentityId = profile.local_id();
        match DmKey::new(me, with) {
            Ok(key) => {
                proof {
                    lemma_one_key(me, with, key);
                }
                match self.threads.get(&key) {
                    Some(thread) => thread.max_lamport(),
                    None => {
                        proof {
                            lemma_nothing_heard();
                        }
                        0
                    },
                }
            },
            Err(_) => 0,
        }
    }

    /// Prepares a direct message to `to`: it links the heads we see, and its
    /// clock is one past everything we saw.
    pub fn draft(&self, profile: &IdentityService, to: IdentityId, raw_body: &str) -> (r: Result<
        DmDraft,
        DmError,
    >)
        requires
            self.wf(),
            profile.wf(),
            forall|key: DmKey, id: MessageId|
                key_between(key, profile@.id, to) && history_of(heard(self@, key)).contains_key(id)
                    ==> (#[trigger] history_of(heard(self@, key))[id]).lamport < u64::MAX,
        ensures
            match r {
                Ok(d) => {
                    &&& send_fault(profile@, to, raw_body@) is None
                    &&& key_between(d.key, profile@.id, to)
                    &&& ascending(d.parents@)
                    &&& d.parents@.to_set() == heads_of(history_of(heard(self@, d.key)))
                    &&& d.lamport > 0
                    &&& is_max_lamport(history_of(heard(self@, d.key)), (d.lamport - 1) as u64)
                    &&& d.body@ == raw_body@
                    &&& d.body.wf()
                },
                Err(e) => send_fault(profile@, to, raw_body@) == Some(e),
            },
    {
        if profile.is_blocked(&to) {
            return Err(DmError::Blocked);
        }
        let body: MessageBody = match MessageBody::parse(raw_body) {
            Ok(body) => body,
            Err(e) => {
                return Err(DmError::Body(e));
            },
        };
        let me: IdentityId = profile.local_id();
        match DmKey::new(me, to) {
            Ok(key) => {
                let (parents, lamport) = match self.threads.get(&key) {
                    Some(thread) => {
                        assert(key_between(key, me, to) && thread.known() == heard(self@, key));
                        thread.next_message_position()
                    },
                    None => {
                        let thread = DmThread::new(key);
                        proof {
                            lemma_nothing_heard();
                        }
                        thread.next_message_position()
                    },
                };
                Ok(DmDraft { key, parents, lamport, body })
            },
            Err(e) => Err(DmError::Key(e)),
        }
    }

    /// Takes `message` into the thread under `key`, opening it if need be.
    fn record(&mut self, key: DmKey, message: Message) -> (recorded: bool)
        requires
            old(self).wf(),
            key.wf(),
        ensures
            final(self).wf(),
            recorded == key.joins(message@.author),
            final(self)@ == old(self)@.insert(
                key,
                if recorded {
                    learn(heard(old(self)@, key), message@)
                } else {
                    heard(old(self)@, key)
                },
            ),
    {
        let mut thread: DmThread = match self.threads.remove(&key) {
            Some(thread) => thread,
            None => DmThread::new(key),
        };
        assert(thread.known() == heard(old(self)@, key));
        let recorded: bool = match thread.record_message(message) {
            Ok(_) => true,
            Err(_) => false,
        };
        self.threads.insert(key, thread);
        assert(self@ =~= old(self)@.insert(key, thread.known()));
        recorded
    }

    /// The `PRIVMSG nick` use case: records a drafted message under its id,
    /// gives it the shape in which it travels, and tells frontends.
    pub fn send_dm(
        &mut self,
        profile: &IdentityService,
        draft: &DmDraft,
        id: MessageId,
        ts_hint_ms: u64,
    ) -> (r: (WireMessage, AppEvent))
        requires
            old(self).wf(),
            profile.wf(),
            draft.key.wf(),
            draft.key.joins(profile@.id),
            draft.body.wf(),
        ensures
            final(self).wf(),
            ({
                let m = drafted(*draft, profile@.id, id, ts_hint_ms);
                &&& r.0@ == m
                &&& r.1@ == told(m, profile@.nickname)
                &&& final(self)@ == old(self)@.insert(
                    draft.key,
                    learn(heard(old(self)@, draft.key), m),
                )
            }),
    {
        let me: IdentityId = profile.local_id();
        let message = Message::authored(
            id,
            me,
            draft.lamport,
            copy_keys(&draft.parents),
            draft.body.clone(),
            ts_hint_ms,
        );
        self.record(draft.key, message);
        let wire = WireMessage {
            id,
            author: me,
            lamport: draft.lamport,
            parents: copy_keys(&draft.parents),
            body: draft.body.as_str().to_owned(),
            ts_hint_ms,
        };
        let event = AppEvent::DirectMessage {
            from: me,
            from_nick: profile.nickname(),
            message: id,
            body: draft.body.clone(),
            ts_hint_ms,
        };
        (wire, event)
    }

    /// Inbound path from the transport router. `fingerprint` is that of the
    /// sender.
    pub fn receive_dm(
        &mut self,
        profile: &mut IdentityService,
        from: IdentityId,
        wire: WireMessage,
        verified: Verified,
        fingerprint: Fingerprint,
        now_ms: u64,
    ) -> (events: Vec<AppEvent>)
        requires
            old(self).wf(),
            old(profile).wf(),
        ensures
            final(self).wf(),
            final(profile).wf(),
            if discarded(old(profile)@, from, wire@) {
                &&& final(self)@ == old(self)@
                &&& final(profile)@ == old(profile)@
                &&& events@.len() == 0
            } else {
                &&& final(profile)@ == after_sighting(
                    old(profile)@,
                    from,
                    fingerprint,
                    None,
                    now_ms,
                )
                &&& exists|key: DmKey| #[trigger]
                    key_between(key, old(profile)@.id, from) && final(self)@ == old(self)@.insert(
                        key,
                        learn(heard(old(self)@, key), wire@),
                    )
                &&& app_event_views(events@) == as_list(
                    sighting_event(old(profile)@, from, fingerprint),
                ).push(told(wire@, final(profile)@.nick_of(from)))
            },
    {
        let mut events: Vec<AppEvent> = Vec::new();
        assert(app_event_views(events@) =~= seq![]);
        if profile.is_blocked(&from) {
            return events;
        }
        if !wire.author.same(&from) {
            return events;
        }
        let body: MessageBody = match MessageBody::parse(wire.body.as_str()) {
            Ok(body) => body,
            Err(_) => {
                return events;
            },
        };
        let me: IdentityId = profile.local_id();
        let key: DmKey = match DmKey::new(me, from) {
            Ok(key) => key,
            Err(_) => {
                return events;
            },
        };
        assert(key_between(key, me, from));
        match profile.observe_peer(from, fingerprint, None, now_ms) {
            Some(event) => {
                events.push(AppEvent::Domain(DomainEvent::Identity(event)));
                assert(app_event_views(events@) =~= seq![identity(event)]);
            },
            None => {},
        }
        let ghost raised = app_event_views(events@);
        let message = Message::received(
            verified,
            wire.id,
            wire.author,
            wire.lamport,
            copy_keys(&wire.parents),
            body.clone(),
            wire.ts_hint_ms,
        );
        assert(message@ == wire@);
        if self.record(key, message) {
            let last = AppEvent::DirectMessage {
                from,
                from_nick: profile.nickname_of(&from),
                message: wire.id,
                body,
                ts_hint_ms: wire.ts_hint_ms,
            };
            events.push(last);
            assert(app_event_views(events@) =~= raised.push(last@));
        }
        events
    }

    /// Deterministically ordered history of the thread with `with`.
    pub fn history(&self, profile: &IdentityService, with: IdentityId) -> (r: Result<
        Vec<RenderedMessage>,
        DmError,
    >)
        requires
            self.wf(),
            profile.wf(),
        ensures
            match r {
                Ok(shown) => {
                    &&& with != profile@.id
                    &&& forall|key: DmKey| #[trigger]
                        key_between(key, profile@.id, with) ==> {
                            let h = history_of(heard(self@, key));
                            &&& rendered_ids(shown@) == display_order(h)
                            &&& forall|i: int|
                                0 <= i < shown@.len() ==> (#[trigger] shown@[i]).shows(
                                    h[shown@[i].id],
                                    profile@,
                                )
                        }
                },
                Err(e) => with == profile@.id && e == DmError::Key(DmKeyError::SelfThread),
            },
    {
        let me: IdentityId = profile.local_id();
        match DmKey::new(me, with) {
            Ok(key) => {
                proof {
                    lemma_one_key(me, with, key);
                }
                match self.threads.get(&key) {
                    Some(thread) => {
                        let messages: Vec<&Message> = thread.history();
                        Ok(render(&messages, profile))
                    },
                    None => {
                        let thread = DmThread::new(key);
                        let messages: Vec<&Message> = thread.history();
                        Ok(render(&messages, profile))
                    },
                }
            },
            Err(e) => Err(DmError::Key(e)),
        }
    }
}

/// Nothing is applied where nothing was heard.
proof fn lemma_nothing_heard()
    ensures
        history_of(Map::<MessageId, MessageView>::empty()) == Map::<MessageId, MessageView>::empty(),
        is_max_lamport(history_of(Map::<MessageId, MessageView>::empty()), 0),
{
    assert(history_of(Map::<MessageId, MessageView>::empty()) =~= Map::<
        MessageId,
        MessageView,
    >::empty());
}

/// Two people have one key between them.
proof fn lemma_one_key(a: IdentityId, b: IdentityId, key: DmKey)
    requires
        key_between(key, a, b),
    ensures
        forall|k: DmKey| #[trigger] key_between(k, a, b) ==> k == key,
{
    assert forall|k: DmKey| #[trigger] key_between(k, a, b) implies k == key by {
        crate::messaging::dm::law_dm_key_is_order_independent(a, b, k, key);
    }
}

/// A direct message from a blocked sender is never shown: it leaves no trace.
pub proof fn law_blocked_sender_is_discarded(profile: ProfileView, from: IdentityId, m: MessageView)
    requires
        profile.blocks(from),
    ensures
        discarded(profile, from, m),
{
}

/// Who can be written to: anyone but ourselves whom we do not block, with a body that
/// can be said.
pub proof fn law_anyone_not_blocked_can_be_written_to(
    profile: ProfileView,
    to: IdentityId,
    raw_body: Seq<char>,
)
    ensures
        send_fault(profile, to, raw_body) is None <==> {
            &&& !profile.blocks(to)
            &&& body_fault(raw_body) is None
            &&& to != profile.id
        },
        profile.blocks(to) ==> send_fault(profile, to, raw_body) == Some(DmError::Blocked),
{
}

/// A direct message is heard if its sender is who it names as its author, is neither
/// blocked nor ourselves, and said something that can be said; and only then.
pub proof fn law_honest_direct_messages_are_heard(
    profile: ProfileView,
    from: IdentityId,
    m: MessageView,
)
    ensures
        !discarded(profile, from, m) <==> {
            &&& !(profile.contacts.contains_key(from) && profile.contacts[from].trust
                == crate::identity::TrustLevel::Blocked)
            &&& m.author == from
            &&& body_fault(m.body) is None
            &&& from != profile.id
        },
        told(m, profile.nick_of(from)) == (AppEventView::DirectMessage {
            from: m.author,
            from_nick: profile.nick_of(from),
            message: m.id,
            body: m.body,
            ts_hint_ms: m.ts_hint_ms,
        }),
{
}

/// A thread that was never opened has heard nothing; one that was has heard what it has,
/// and what a thread learns it learns alone.
pub proof fn law_threads_are_apart(
    threads: Threads,
    key: DmKey,
    other: DmKey,
    m: MessageView,
)
    ensures
        !threads.contains_key(key) ==> heard(threads, key).len() == 0,
        threads.contains_key(key) ==> heard(threads, key) == threads[key],
        heard(threads.insert(key, learn(heard(threads, key), m)), key).contains_key(m.id),
        other != key ==> heard(threads.insert(key, learn(heard(threads, key), m)), other) == heard(
            threads,
            other,
        ),
{
    assert(Map::<MessageId, MessageView>::empty().len() == 0);
}

/// A direct message drafted is sent as it was written.
pub proof fn law_drafts_become_what_they_say(d: DmDraft, author: IdentityId, id: MessageId, ts_hint_ms: u64)
    ensures
        drafted(d, author, id, ts_hint_ms).id == id,
        drafted(d, author, id, ts_hint_ms).author == author,
        drafted(d, author, id, ts_hint_ms).body == d.body@,
        drafted(d, author, id, ts_hint_ms).parents == d.parents@,
        drafted(d, author, id, ts_hint_ms).lamport == d.lamport,
        drafted(d, author, id, ts_hint_ms).ts_hint_ms == ts_hint_ms,
{
}

} // verus!

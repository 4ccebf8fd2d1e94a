//! The `Channel` aggregate root.

use vstd::prelude::*;

use crate::order::{
    bytes_before, bytes_equal, lemma_lex_irreflexive, lemma_lex_total, lemma_lex_transitive,
    lex_before, Key,
};
use crate::shared::IdentityId;
use crate::sorted::{ascending, SortedMap};
use crate::text::{hex_of, hex_text};

use super::dag::{
    cascade, heads_of, history_of, ids_of, display_order, is_display_order, is_max_lamport, learn, missing_from,
    DagInsert, MessageDag,
};
use super::message::{Message, MessageId, MessageView};
use super::values::{ChannelName, Topic};
use super::{event_views, MessagingEvent, MessagingEventView};

verus! {

/// Channel identity. For public channels this is derived deterministically
/// from the canonical name (BLAKE3 at the adapter boundary) so `JOIN #stage`
/// converges on one gossip topic everywhere; private channels use random ids
/// shared via invite.
#[derive(Clone, Copy, PartialEq, Eq, PartialOrd, Ord, Hash, Debug)]
pub struct ChannelId([u8; 32]);

impl View for ChannelId {
    type V = Seq<u8>;

    closed spec fn view(&self) -> Seq<u8> {
        self.0@
    }
}

impl ChannelId {
    /// The bytes are all there is: equal bytes, equal values.
    pub proof fn lemma_view_injective(a: ChannelId, b: ChannelId)
        ensures
            a@.len() == 32,
            (a@ == b@) == (a == b),
    {
        if a@ == b@ {
            assert(a.0 =~= b.0);
        }
    }

    pub fn from_bytes(bytes: [u8; 32]) -> (r: ChannelId)
        ensures
            r@ == bytes@,
    {
        ChannelId(bytes)
    }

    pub fn as_bytes(&self) -> (r: &[u8; 32])
        ensures
            r@ == self@,
    {
        &self.0
    }

    /// Short hex prefix: enough to disambiguate in logs, not for security
    /// decisions.
    pub fn short_hex(&self) -> (r: String)
        ensures
            r@ == hex_text(self@.take(6)),
    {
        let head: [u8; 6] = [self.0[0], self.0[1], self.0[2], self.0[3], self.0[4], self.0[5]];
        assert(head@ =~= self@.take(6));
        hex_of(&head)
    }
}

impl Key for ChannelId {
    open spec fn before(self, other: Self) -> bool {
        lex_before(self@, other@)
    }

    proof fn lemma_irreflexive(a: Self) {
        lemma_lex_irreflexive(a@);
    }

    proof fn lemma_transitive(a: Self, b: Self, c: Self) {
        lemma_lex_transitive(a@, b@, c@);
    }

    proof fn lemma_total(a: Self, b: Self) {
        lemma_lex_total(a@, b@);
        ChannelId::lemma_view_injective(a, b);
    }

    fn is_before(&self, other: &Self) -> (r: bool) {
        bytes_before(&self.0, &other.0)
    }

    fn same(&self, other: &Self) -> (r: bool) {
        proof {
            ChannelId::lemma_view_injective(*self, *other);
        }
        bytes_equal(&self.0, &other.0)
    }
}

/// Member roles. Ordered: `Member < Op < Founder`.
#[derive(Debug, Clone, Copy, PartialEq, Eq, PartialOrd, Ord, Structural)]
pub enum Role {
    Member,
    Op,
    Founder,
}

#[derive(Debug, Clone, Copy, PartialEq, Eq, Structural)]
pub enum ChannelVisibility {
    Public,
    /// Private channels carry an encryption epoch, bumped on membership
    /// change so departed members cannot read new traffic.
    Private { epoch: u64 },
}

#[derive(Debug, Clone, Copy, PartialEq, Eq, Structural)]
pub enum ChannelError {
    NotAMember,
    NotAnOperator,
    FounderIsImmovable,
    AlreadyMember,
    NotFounder,
}

/// What a channel holds.
pub struct ChannelView {
    pub id: ChannelId,
    pub name: Seq<char>,
    pub topic: Seq<char>,
    pub visibility: ChannelVisibility,
    pub members: Map<IdentityId, Role>,
    pub known: Map<MessageId, MessageView>,
}

/// `f` is a founder.
pub open spec fn founded_by(members: Map<IdentityId, Role>, f: IdentityId) -> bool {
    members.contains_key(f) && members[f] == Role::Founder
}

/// `f` is the founder, and the only one.
pub open spec fn sole_founder(members: Map<IdentityId, Role>, f: IdentityId) -> bool {
    &&& founded_by(members, f)
    &&& forall|x: IdentityId| #[trigger] founded_by(members, x) ==> x == f
}

/// The epoch of a private channel moves on; a public channel has none.
pub open spec fn next_epoch(v: ChannelVisibility) -> ChannelVisibility {
    match v {
        ChannelVisibility::Public => ChannelVisibility::Public,
        ChannelVisibility::Private { epoch } => ChannelVisibility::Private {
            epoch: (epoch + 1) as u64,
        },
    }
}

/// A private channel has an epoch left to move to.
pub open spec fn epoch_can_advance(v: ChannelVisibility) -> bool {
    match v {
        ChannelVisibility::Public => true,
        ChannelVisibility::Private { epoch } => epoch < u64::MAX,
    }
}

/// Why `who` cannot join, if so.
pub open spec fn join_fault(c: ChannelView, who: IdentityId) -> Option<ChannelError> {
    if c.members.contains_key(who) {
        Some(ChannelError::AlreadyMember)
    } else {
        None
    }
}

/// The channel once `who` has joined.
pub open spec fn after_join(c: ChannelView, who: IdentityId) -> ChannelView {
    ChannelView {
        members: c.members.insert(who, Role::Member),
        visibility: next_epoch(c.visibility),
        ..c
    }
}

/// Why `who` cannot leave, if so: the founder's seat is for life.
pub open spec fn leave_fault(c: ChannelView, who: IdentityId) -> Option<ChannelError> {
    if !c.members.contains_key(who) {
        Some(ChannelError::NotAMember)
    } else if founded_by(c.members, who) {
        Some(ChannelError::FounderIsImmovable)
    } else {
        None
    }
}

/// The channel once `who` has left.
pub open spec fn after_leave(c: ChannelView, who: IdentityId) -> ChannelView {
    ChannelView {
        members: c.members.remove(who),
        visibility: next_epoch(c.visibility),
        ..c
    }
}

/// Why `by` cannot set the topic, if so: that takes an operator.
pub open spec fn topic_change_fault(c: ChannelView, by: IdentityId) -> Option<ChannelError> {
    if !c.members.contains_key(by) {
        Some(ChannelError::NotAMember)
    } else if c.members[by] == Role::Member {
        Some(ChannelError::NotAnOperator)
    } else {
        None
    }
}

/// Why `by` cannot give `target` the role, if so: only the founder changes
/// roles, and the founder's own role can never change.
pub open spec fn role_change_fault(
    c: ChannelView,
    by: IdentityId,
    target: IdentityId,
    role: Role,
) -> Option<ChannelError> {
    if !founded_by(c.members, by) {
        Some(ChannelError::NotFounder)
    } else if !c.members.contains_key(target) {
        Some(ChannelError::NotAMember)
    } else if founded_by(c.members, target) || role == Role::Founder {
        Some(ChannelError::FounderIsImmovable)
    } else {
        None
    }
}

/// The channel once `target` has the role.
pub open spec fn after_role_change(c: ChannelView, target: IdentityId, role: Role) -> ChannelView {
    ChannelView { members: c.members.insert(target, role), ..c }
}

/// Why `m` cannot be recorded, if so: its author must be a member.
pub open spec fn record_fault(c: ChannelView, m: MessageView) -> Option<ChannelError> {
    if c.members.contains_key(m.author) {
        None
    } else {
        Some(ChannelError::NotAMember)
    }
}

/// The channel once `m` has been heard.
pub open spec fn after_record(c: ChannelView, m: MessageView) -> ChannelView {
    ChannelView { known: learn(c.known, m), ..c }
}

/// The events of recording message `m`.
pub open spec fn record_events(
    channel: ChannelId,
    known: Map<MessageId, MessageView>,
    m: MessageView,
    locally_authored: bool,
) -> Seq<MessagingEventView> {
    let applied = history_of(known).dom();
    let missing = missing_from(m.parents, applied);
    if known.contains_key(m.id) {
        seq![]
    } else if missing.len() > 0 {
        seq![MessagingEventView::HistoryGapDetected { channel, missing }]
    } else {
        let unblocked = cascade(learn(known, m), applied.insert(m.id), seq![m.id]);
        seq![
            if locally_authored {
                MessagingEventView::MessagePosted { channel, message: m.id }
            } else {
                MessagingEventView::MessageReceived { channel, message: m.id }
            },
        ] + Seq::new(
            unblocked.len(),
            |i: int| MessagingEventView::MessageReceived { channel, message: unblocked[i] },
        )
    }
}

/// A chat channel: name, topic, membership with roles, and the message DAG.
///
/// Invariants: exactly one founder, the founder is always a member, every
/// recorded message's author was accepted through membership.
#[derive(Debug, Clone, PartialEq, Eq)]
pub struct Channel {
    id: ChannelId,
    name: ChannelName,
    topic: Topic,
    visibility: ChannelVisibility,
    members: SortedMap<IdentityId, Role>,
    dag: MessageDag,
}

impl View for Channel {
    type V = ChannelView;

    closed spec fn view(&self) -> ChannelView {
        ChannelView {
            id: self.id,
            name: self.name@,
            topic: self.topic@,
            visibility: self.visibility,
            members: self.members@,
            known: self.dag.known(),
        }
    }
}

impl Channel {
    /// Exactly one founder, and parts that are each in order.
    pub closed spec fn wf(&self) -> bool {
        &&& self.name.wf()
        &&& self.topic.wf()
        &&& self.members.wf()
        &&& self.dag.wf()
        &&& exists|f: IdentityId| sole_founder(self.members@, f)
    }

    /// However long it runs, a channel knows finitely many messages.
    pub proof fn law_finitely_many_are_known(&self)
        requires
            self.wf(),
        ensures
            self@.known.dom().finite(),
    {
        self.dag.law_finitely_many_are_known();
    }

    /// A channel has one founder.
    pub proof fn lemma_one_founder(&self) -> (f: IdentityId)
        requires
            self.wf(),
        ensures
            sole_founder(self@.members, f),
    {
        choose|f: IdentityId| sole_founder(self.members@, f)
    }

    pub fn create(
        id: ChannelId,
        name: ChannelName,
        founder: IdentityId,
        visibility: ChannelVisibility,
    ) -> (r: (Channel, Vec<MessagingEvent>))
        requires
            name.wf(),
        ensures
            r.0.wf(),
            r.0@ == (ChannelView {
                id,
                name: name@,
                topic: Seq::<char>::empty(),
                visibility,
                members: Map::<IdentityId, Role>::empty().insert(founder, Role::Founder),
                known: Map::<MessageId, MessageView>::empty(),
            }),
            event_views(r.1@) == seq![
                MessagingEventView::ChannelCreated { channel: id, name: name@ },
                MessagingEventView::ChannelJoined { channel: id, who: founder },
            ],
    {
        let mut members: SortedMap<IdentityId, Role> = SortedMap::new();
        members.insert(founder, Role::Founder);
        let channel = Channel {
            id,
            name: name.clone(),
            topic: Topic::none(),
            visibility,
            members,
            dag: MessageDag::new(),
        };
        let mut events: Vec<MessagingEvent> = Vec::new();
        events.push(MessagingEvent::ChannelCreated { channel: id, name });
        events.push(MessagingEvent::ChannelJoined { channel: id, who: founder });
        proof {
            assert(sole_founder(channel.members@, founder));
            assert(event_views(events@) =~= seq![
                MessagingEventView::ChannelCreated { channel: id, name: name@ },
                MessagingEventView::ChannelJoined { channel: id, who: founder },
            ]);
        }
        (channel, events)
    }

    pub fn id(&self) -> (r: ChannelId)
        ensures
            r == self@.id,
    {
        self.id
    }

    pub fn name(&self) -> (r: &ChannelName)
        ensures
            r@ == self@.name,
            self.wf() ==> r.wf(),
    {
        &self.name
    }

    pub fn topic(&self) -> (r: &Topic)
        ensures
            r@ == self@.topic,
            self.wf() ==> r.wf(),
    {
        &self.topic
    }

    pub fn visibility(&self) -> (r: ChannelVisibility)
        ensures
            r == self@.visibility,
    {
        self.visibility
    }

    /// The members with their roles, in id order.
    pub fn members(&self) -> (r: Vec<(IdentityId, Role)>)
        requires
            self.wf(),
        ensures
            ascending(r@.map_values(|e: (IdentityId, Role)| e.0)),
            r@.map_values(|e: (IdentityId, Role)| e.0).to_set() == self@.members.dom(),
            forall|i: int| 0 <= i < r@.len() ==> self@.members[(#[trigger] r@[i]).0] == r@[i].1,
    {
        let n: usize = self.members.len();
        let mut r: Vec<(IdentityId, Role)> = Vec::new();
        let mut i: usize = 0;
        while i < n
            invariant
                i <= n,
                n == self.members.walk().len(),
                self.members.wf(),
                r@.len() == i,
                forall|j: int|
                    0 <= j < i ==> (#[trigger] r@[j]).0 == self.members.walk()[j]
                        && self.members@[r@[j].0] == r@[j].1,
            decreases n - i,
        {
            r.push((self.members.key_at(i), *self.members.value_at(i)));
            i = i + 1;
        }
        proof {
            self.members.lemma_walk();
            assert(r@.map_values(|e: (IdentityId, Role)| e.0) =~= self.members.walk());
        }
        r
    }

    pub fn role_of(&self, id: &IdentityId) -> (r: Option<Role>)
        requires
            self.wf(),
        ensures
            match r {
                Some(role) => self@.members.contains_key(*id) && role == self@.members[*id],
                None => !self@.members.contains_key(*id),
            },
    {
        match self.members.get(id) {
            Some(role) => Some(*role),
            None => None,
        }
    }

    pub fn is_member(&self, id: &IdentityId) -> (r: bool)
        requires
            self.wf(),
        ensures
            r == self@.members.contains_key(*id),
    {
        self.members.contains_key(id)
    }

    pub fn dag(&self) -> (r: &MessageDag)
        ensures
            r.known() == self@.known,
            self.wf() ==> r.wf(),
    {
        &self.dag
    }

    /// Deterministic display order of all applied messages.
    pub fn history(&self) -> (r: Vec<&Message>)
        requires
            self.wf(),
        ensures
            is_display_order(history_of(self@.known), ids_of(r@)),
            ids_of(r@) == display_order(history_of(self@.known)),
            forall|i: int|
                0 <= i < r@.len() ==> (#[trigger] r@[i])@ == history_of(self@.known)[r@[i]@.id],
    {
        let r = self.dag.linearize();
        proof {
            self.dag.lemma_display_order(ids_of(r@));
        }
        r
    }

    /// Moves a private channel to its next epoch.
    fn bump_epoch(&mut self)
        requires
            epoch_can_advance(old(self).visibility),
        ensures
            final(self).visibility == next_epoch(old(self).visibility),
            final(self).id == old(self).id,
            final(self).name == old(self).name,
            final(self).topic == old(self).topic,
            final(self).members == old(self).members,
            final(self).dag == old(self).dag,
    {
        match self.visibility {
            ChannelVisibility::Public => {},
            ChannelVisibility::Private { epoch } => {
                self.visibility = ChannelVisibility::Private { epoch: epoch + 1 };
            },
        }
    }

    pub fn join(&mut self, who: IdentityId) -> (r: Result<MessagingEvent, ChannelError>)
        requires
            old(self).wf(),
            epoch_can_advance(old(self)@.visibility),
        ensures
            final(self).wf(),
            match r {
                Ok(event) => {
                    &&& join_fault(old(self)@, who) is None
                    &&& final(self)@ == after_join(old(self)@, who)
                    &&& event@ == (MessagingEventView::ChannelJoined { channel: old(self)@.id, who })
                },
                Err(e) => join_fault(old(self)@, who) == Some(e) && *final(self) == *old(self),
            },
    {
        if self.members.contains_key(&who) {
            return Err(ChannelError::AlreadyMember);
        }
        let ghost f = self.lemma_one_founder();
        self.members.insert(who, Role::Member);
        self.bump_epoch();
        proof {
            assert(sole_founder(self.members@, f)) by {
                assert forall|x: IdentityId| #[trigger] founded_by(self.members@, x) implies x == f by {
                    assert(founded_by(old(self).members@, x));
                }
            }
        }
        Ok(MessagingEvent::ChannelJoined { channel: self.id, who })
    }

    pub fn leave(&mut self, who: IdentityId) -> (r: Result<MessagingEvent, ChannelError>)
        requires
            old(self).wf(),
            epoch_can_advance(old(self)@.visibility),
        ensures
            final(self).wf(),
            match r {
                Ok(event) => {
                    &&& leave_fault(old(self)@, who) is None
                    &&& final(self)@ == after_leave(old(self)@, who)
                    &&& event@ == (MessagingEventView::ChannelLeft { channel: old(self)@.id, who })
                },
                Err(e) => leave_fault(old(self)@, who) == Some(e) && *final(self) == *old(self),
            },
    {
        match self.role_of(&who) {
            None => Err(ChannelError::NotAMember),
            Some(Role::Founder) => Err(ChannelError::FounderIsImmovable),
            Some(Role::Op) | Some(Role::Member) => {
                let ghost f = self.lemma_one_founder();
                self.members.remove(&who);
                self.bump_epoch();
                proof {
                    assert(sole_founder(self.members@, f)) by {
                        assert forall|x: IdentityId| #[trigger] founded_by(self.members@, x) implies x == f by {
                            assert(founded_by(old(self).members@, x));
                        }
                    }
                }
                Ok(MessagingEvent::ChannelLeft { channel: self.id, who })
            },
        }
    }

    pub fn set_topic(&mut self, by: IdentityId, topic: Topic) -> (r: Result<
        MessagingEvent,
        ChannelError,
    >)
        requires
            old(self).wf(),
            topic.wf(),
        ensures
            final(self).wf(),
            match r {
                Ok(event) => {
                    &&& topic_change_fault(old(self)@, by) is None
                    &&& final(self)@ == (ChannelView { topic: topic@, ..old(self)@ })
                    &&& event@ == (MessagingEventView::TopicChanged {
                        channel: old(self)@.id,
                        by,
                        topic: topic@,
                    })
                },
                Err(e) => topic_change_fault(old(self)@, by) == Some(e) && *final(self) == *old(self),
            },
    {
        match self.role_of(&by) {
            None => Err(ChannelError::NotAMember),
            Some(Role::Member) => Err(ChannelError::NotAnOperator),
            Some(Role::Op) | Some(Role::Founder) => {
                self.topic = topic.clone();
                Ok(MessagingEvent::TopicChanged { channel: self.id, by, topic })
            },
        }
    }

    /// Grant or revoke operator status. Only the founder may change roles,
    /// and the founder's own role can never change.
    pub fn set_role(&mut self, by: IdentityId, target: IdentityId, role: Role) -> (r: Result<
        MessagingEvent,
        ChannelError,
    >)
        requires
            old(self).wf(),
        ensures
            final(self).wf(),
            match r {
                Ok(event) => {
                    &&& role_change_fault(old(self)@, by, target, role) is None
                    &&& final(self)@ == after_role_change(old(self)@, target, role)
                    &&& event@ == (MessagingEventView::MemberRoleChanged {
                        channel: old(self)@.id,
                        member: target,
                        role,
                    })
                },
                Err(e) => role_change_fault(old(self)@, by, target, role) == Some(e) && *final(self) == *old(self),
            },
    {
        match self.role_of(&by) {
            Some(Role::Founder) => {},
            _ => {
                return Err(ChannelError::NotFounder);
            },
        }
        match self.role_of(&target) {
            None => Err(ChannelError::NotAMember),
            Some(Role::Founder) => Err(ChannelError::FounderIsImmovable),
            Some(Role::Op) | Some(Role::Member) => {
                let new_role: Role = match role {
                    Role::Founder => {
                        return Err(ChannelError::FounderIsImmovable);
                    },
                    Role::Op => Role::Op,
                    Role::Member => Role::Member,
                };
                let ghost f = self.lemma_one_founder();
                self.members.insert(target, new_role);
                proof {
                    assert(sole_founder(self.members@, f)) by {
                        assert forall|x: IdentityId| #[trigger] founded_by(self.members@, x) implies x == f by {
                            assert(founded_by(old(self).members@, x));
                        }
                    }
                }
                Ok(
                    MessagingEvent::MemberRoleChanged {
                        channel: self.id,
                        member: target,
                        role: new_role,
                    },
                )
            },
        }
    }

    /// Record a message (locally authored or received). The author must be a
    /// member. Emits `MessagePosted`/`MessageReceived` plus
    /// `HistoryGapDetected` when parents are missing.
    pub fn record_message(&mut self, message: Message, locally_authored: bool) -> (r: Result<
        Vec<MessagingEvent>,
        ChannelError,
    >)
        requires
            old(self).wf(),
        ensures
            final(self).wf(),
            match r {
                Ok(events) => {
                    &&& record_fault(old(self)@, message@) is None
                    &&& final(self)@ == after_record(old(self)@, message@)
                    &&& event_views(events@) == record_events(
                        old(self)@.id,
                        old(self)@.known,
                        message@,
                        locally_authored,
                    )
                },
                Err(e) => record_fault(old(self)@, message@) == Some(e) && *final(self) == *old(self),
            },
    {
        if !self.members.contains_key(&message.author()) {
            return Err(ChannelError::NotAMember);
        }
        let id: MessageId = message.id();
        let ghost m = message@;
        let ghost known = self.dag.known();
        let mut events: Vec<MessagingEvent> = Vec::new();
        match self.dag.insert(message) {
            DagInsert::Duplicate => {},
            DagInsert::Applied { unblocked } => {
                events.push(
                    if locally_authored {
                        MessagingEvent::MessagePosted { channel: self.id, message: id }
                    } else {
                        MessagingEvent::MessageReceived { channel: self.id, message: id }
                    },
                );
                let mut i: usize = 0;
                while i < unblocked.len()
                    invariant
                        i <= unblocked@.len(),
                        events@.len() == i + 1,
                        events@[0]@ == if locally_authored {
                            MessagingEventView::MessagePosted { channel: self.id, message: id }
                        } else {
                            MessagingEventView::MessageReceived { channel: self.id, message: id }
                        },
                        forall|j: int|
                            1 <= j < i + 1 ==> (#[trigger] events@[j])@ == (MessagingEventView::MessageReceived {
                                channel: self.id,
                                message: unblocked@[j - 1],
                            }),
                    decreases unblocked@.len() - i,
                {
                    events.push(
                        MessagingEvent::MessageReceived { channel: self.id, message: unblocked[i] },
                    );
                    i = i + 1;
                }
            },
            DagInsert::Pending { missing } => {
                events.push(MessagingEvent::HistoryGapDetected { channel: self.id, missing });
            },
        }
        assert(event_views(events@) =~= record_events(old(self)@.id, known, m, locally_authored));
        Ok(events)
    }

    /// The parents and lamport counter a new local message should carry.
    pub fn next_message_position(&self) -> (r: (Vec<MessageId>, u64))
        requires
            self.wf(),
            forall|id: MessageId|
                history_of(self@.known).contains_key(id) ==> (#[trigger] history_of(self@.known)[id]).lamport
                    < u64::MAX,
        ensures
            ascending(r.0@),
            r.0@.to_set() == heads_of(history_of(self@.known)),
            r.1 > 0,
            is_max_lamport(history_of(self@.known), (r.1 - 1) as u64),
    {
        let top: u64 = self.dag.max_lamport();
        proof {
            let h = history_of(self@.known);
            if top > 0 {
                let id = choose|id: MessageId| h.contains_key(id) && (#[trigger] h[id]).lamport == top;
                assert(history_of(self@.known)[id].lamport < u64::MAX);
            }
        }
        (self.dag.heads(), top + 1)
    }
}

/// The founder is for life: whoever founded the channel founds it after any
/// command that goes through.
pub proof fn law_founder_stays(
    c: ChannelView,
    f: IdentityId,
    by: IdentityId,
    who: IdentityId,
    role: Role,
)
    requires
        sole_founder(c.members, f),
    ensures
        join_fault(c, who) is None ==> sole_founder(after_join(c, who).members, f),
        leave_fault(c, who) is None ==> sole_founder(after_leave(c, who).members, f),
        role_change_fault(c, by, who, role) is None ==> sole_founder(
            after_role_change(c, who, role).members,
            f,
        ),
        leave_fault(c, f) is Some,
        role_change_fault(c, by, f, role) is Some,
{
    assert forall|x: IdentityId| #[trigger] founded_by(c.members.insert(who, Role::Member), x)
        && !c.members.contains_key(who) implies x == f by {
        assert(founded_by(c.members, x));
    }
    assert forall|x: IdentityId| #[trigger] founded_by(c.members.remove(who), x) implies x == f by {
        assert(founded_by(c.members, x));
    }
    assert forall|x: IdentityId| #[trigger] founded_by(c.members.insert(who, role), x) && role
        != Role::Founder implies x == f by {
        assert(founded_by(c.members, x));
    }
}

/// Anyone can join a channel once, as a plain member; nobody else is moved, and
/// nothing said there is lost.
pub proof fn law_anyone_can_join(c: ChannelView, who: IdentityId, other: IdentityId)
    ensures
        join_fault(c, who) is None <==> !c.members.contains_key(who),
        ({
            let after = after_join(c, who);
            &&& after.members.contains_key(who)
            &&& after.members[who] == Role::Member
            &&& other != who ==> (after.members.contains_key(other) <==> c.members.contains_key(other))
            &&& other != who && c.members.contains_key(other) ==> after.members[other]
                == c.members[other]
            &&& after.known == c.known
            &&& after.topic == c.topic
            &&& after.name == c.name
            &&& after.id == c.id
            &&& join_fault(after, who) is Some
            &&& c.visibility is Public ==> after.visibility is Public
        }),
{
}

/// Any member but the founder can leave, and only the leaver goes.
pub proof fn law_any_member_can_leave(c: ChannelView, who: IdentityId, other: IdentityId)
    requires
        c.members.contains_key(who),
    ensures
        leave_fault(c, who) is None <==> c.members[who] != Role::Founder,
        ({
            let after = after_leave(c, who);
            &&& !after.members.contains_key(who)
            &&& other != who ==> (after.members.contains_key(other) <==> c.members.contains_key(other))
            &&& other != who && c.members.contains_key(other) ==> after.members[other]
                == c.members[other]
            &&& after.known == c.known
            &&& after.topic == c.topic
            &&& join_fault(after, who) is None
        }),
{
}

/// Comings and goings move the epoch of a private channel by one, so that each
/// membership has its own.
pub proof fn law_membership_changes_move_the_epoch(c: ChannelView, who: IdentityId, epoch: u64)
    requires
        c.visibility == (ChannelVisibility::Private { epoch }),
        epoch < u64::MAX,
    ensures
        after_join(c, who).visibility == (ChannelVisibility::Private { epoch: (epoch + 1) as u64 }),
        after_leave(c, who).visibility == (ChannelVisibility::Private { epoch: (epoch + 1) as u64 }),
        epoch_can_advance(c.visibility),
{
}

/// Operators set the topic: the founder and every operator can, and nobody else.
pub proof fn law_operators_set_the_topic(c: ChannelView, by: IdentityId)
    ensures
        topic_change_fault(c, by) is None <==> c.members.contains_key(by) && (c.members[by]
            == Role::Founder || c.members[by] == Role::Op),
        !c.members.contains_key(by) ==> topic_change_fault(c, by) == Some(ChannelError::NotAMember),
        c.members.contains_key(by) && c.members[by] == Role::Member ==> topic_change_fault(c, by)
            == Some(ChannelError::NotAnOperator),
{
}

/// The founder makes and unmakes operators: of any member but the founder, and nobody
/// else can. Only the one concerned changes; an operator made so can set the topic, one
/// unmade cannot.
pub proof fn law_the_founder_appoints(
    c: ChannelView,
    by: IdentityId,
    target: IdentityId,
    other: IdentityId,
)
    ensures
        role_change_fault(c, by, target, Role::Op) is None <==> {
            &&& c.members.contains_key(by) && c.members[by] == Role::Founder
            &&& c.members.contains_key(target) && c.members[target] != Role::Founder
        },
        role_change_fault(c, by, target, Role::Member) is None <==> role_change_fault(
            c,
            by,
            target,
            Role::Op,
        ) is None,
        role_change_fault(c, by, target, Role::Founder) is Some,
        !(c.members.contains_key(by) && c.members[by] == Role::Founder) ==> role_change_fault(
            c,
            by,
            target,
            Role::Op,
        ) == Some(ChannelError::NotFounder),
        topic_change_fault(after_role_change(c, target, Role::Op), target) is None,
        topic_change_fault(after_role_change(c, target, Role::Member), target) is Some,
        other != target ==> after_role_change(c, target, Role::Op).members[other] == c.members[other]
            && (after_role_change(c, target, Role::Op).members.contains_key(other)
            <==> c.members.contains_key(other)),
        after_role_change(c, target, Role::Op).known == c.known,
{
}

/// Members can speak, and nobody else: what a member says is remembered, under its id,
/// and nothing else about the channel changes.
pub proof fn law_members_can_speak(c: ChannelView, m: MessageView)
    ensures
        record_fault(c, m) is None <==> c.members.contains_key(m.author),
        ({
            let after = after_record(c, m);
            &&& after.known.contains_key(m.id)
            &&& !c.known.contains_key(m.id) ==> after.known == c.known.insert(m.id, m)
            &&& c.known.contains_key(m.id) ==> after.known == c.known
            &&& after.members == c.members
            &&& after.topic == c.topic
            &&& after.visibility == c.visibility
            &&& after.id == c.id
        }),
{
}

/// What recording a message tells: nothing of one that is known; what is missing of one
/// that has a gap below it; and of any other that it is there, as posted if it is our
/// own and as received if not, before whatever it unblocks.
pub proof fn law_recording_tells_the_news(
    channel: ChannelId,
    known: Map<MessageId, MessageView>,
    m: MessageView,
    own: bool,
)
    ensures
        ({
            let events = record_events(channel, known, m, own);
            let whole = forall|i: int|
                0 <= i < m.parents.len() ==> history_of(known).contains_key(#[trigger] m.parents[i]);
            &&& known.contains_key(m.id) ==> events.len() == 0
            &&& !known.contains_key(m.id) && !whole ==> events.len() == 1 && events[0] == (
            MessagingEventView::HistoryGapDetected {
                channel,
                missing: missing_from(m.parents, history_of(known).dom()),
            })
            &&& !known.contains_key(m.id) && whole ==> events.len() >= 1 && events[0] == (if own {
                MessagingEventView::MessagePosted { channel, message: m.id }
            } else {
                MessagingEventView::MessageReceived { channel, message: m.id }
            })
            &&& !known.contains_key(m.id) && whole ==> {
                let unblocked = cascade(
                    learn(known, m),
                    history_of(known).dom().insert(m.id),
                    seq![m.id],
                );
                &&& events.len() == 1 + unblocked.len()
                &&& forall|i: int|
                    0 <= i < unblocked.len() ==> events[i + 1] == (
                    MessagingEventView::MessageReceived { channel, message: #[trigger] unblocked[i] })
            }
        }),
{
    let applied = history_of(known).dom();
    super::dag::law_gaps_name_what_is_missing(m.parents, applied, m.id);
    if forall|i: int|
        0 <= i < m.parents.len() ==> history_of(known).contains_key(#[trigger] m.parents[i]) {
        assert forall|i: int| 0 <= i < m.parents.len() implies applied.contains(#[trigger] m.parents[i]) by {
            assert(history_of(known).contains_key(m.parents[i]));
        }
    } else {
        let i = choose|i: int|
            0 <= i < m.parents.len() && !history_of(known).contains_key(#[trigger] m.parents[i]);
        assert(!applied.contains(m.parents[i]));
    }
}

} // verus!

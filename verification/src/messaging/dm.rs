//! Direct-message threads.

use vstd::prelude::*;

use crate::order::Key;
use crate::shared::IdentityId;
use crate::sorted::ascending;

use super::dag::{
    cascade, heads_of, history_of, ids_of, display_order, is_display_order, is_max_lamport, learn, missing_from,
    DagInsert, MessageDag,
};
use super::message::{Message, MessageId, MessageView};

verus! {

/// The unordered pair of participants in a DM thread, stored canonically
/// (smaller id first) so `(a, b)` and `(b, a)` are one value: two
/// representations of the same thread are unrepresentable.
#[derive(Debug, Clone, Copy, PartialEq, Eq, PartialOrd, Ord, Hash)]
pub struct DmKey {
    lower: IdentityId,
    higher: IdentityId,
}

#[derive(Debug, Clone, Copy, PartialEq, Eq, Structural)]
pub enum DmKeyError {
    SelfThread,
}

impl DmKey {
    /// The participant with the smaller id.
    pub closed spec fn low(&self) -> IdentityId {
        self.lower
    }

    /// The participant with the larger id.
    pub closed spec fn high(&self) -> IdentityId {
        self.higher
    }

    pub open spec fn wf(&self) -> bool {
        self.low().before(self.high())
    }

    pub open spec fn joins(&self, id: IdentityId) -> bool {
        self.low() == id || self.high() == id
    }

    pub fn new(a: IdentityId, b: IdentityId) -> (r: Result<DmKey, DmKeyError>)
        ensures
            match r {
                Ok(key) => a != b && key.wf() && key.joins(a) && key.joins(b),
                Err(e) => a == b && e == DmKeyError::SelfThread,
            },
    {
        if a.same(&b) {
            return Err(DmKeyError::SelfThread);
        }
        proof {
            IdentityId::lemma_total(a, b);
        }
        if a.is_before(&b) {
            Ok(DmKey { lower: a, higher: b })
        } else {
            Ok(DmKey { lower: b, higher: a })
        }
    }

    pub fn participants(&self) -> (r: (IdentityId, IdentityId))
        ensures
            r == (self.low(), self.high()),
    {
        (self.lower, self.higher)
    }

    pub fn involves(&self, id: &IdentityId) -> (r: bool)
        ensures
            r == self.joins(*id),
    {
        self.lower.same(id) || self.higher.same(id)
    }

    pub fn other(&self, me: &IdentityId) -> (r: Option<IdentityId>)
        ensures
            r == if self.low() == *me {
                Some(self.high())
            } else if self.high() == *me {
                Some(self.low())
            } else {
                None
            },
    {
        if self.lower.same(me) {
            Some(self.higher)
        } else if self.higher.same(me) {
            Some(self.lower)
        } else {
            None
        }
    }
}

/// A thread has one key: whoever is named first, the two keys are the same.
pub proof fn law_dm_key_is_order_independent(a: IdentityId, b: IdentityId, ab: DmKey, ba: DmKey)
    requires
        a != b,
        ab.wf(),
        ab.joins(a),
        ab.joins(b),
        ba.wf(),
        ba.joins(b),
        ba.joins(a),
    ensures
        ab == ba,
{
    if ab.low() != ba.low() {
        IdentityId::lemma_transitive(ab.low(), ab.high(), ab.low());
        IdentityId::lemma_irreflexive(ab.low());
    }
}

impl Key for DmKey {
    /// By the smaller participant, then by the larger.
    open spec fn before(self, other: Self) -> bool {
        ||| self.low().before(other.low())
        ||| (self.low() == other.low() && self.high().before(other.high()))
    }

    proof fn lemma_irreflexive(a: Self) {
        IdentityId::lemma_irreflexive(a.lower);
        IdentityId::lemma_irreflexive(a.higher);
    }

    proof fn lemma_transitive(a: Self, b: Self, c: Self) {
        if a.lower == b.lower && b.lower == c.lower {
            IdentityId::lemma_transitive(a.higher, b.higher, c.higher);
        } else if a.lower.before(b.lower) && b.lower.before(c.lower) {
            IdentityId::lemma_transitive(a.lower, b.lower, c.lower);
        }
    }

    proof fn lemma_total(a: Self, b: Self) {
        IdentityId::lemma_total(a.lower, b.lower);
        IdentityId::lemma_total(a.higher, b.higher);
    }

    fn is_before(&self, other: &Self) -> (r: bool) {
        self.lower.is_before(&other.lower) || (self.lower.same(&other.lower) && self.higher.is_before(
            &other.higher,
        ))
    }

    fn same(&self, other: &Self) -> (r: bool) {
        self.lower.same(&other.lower) && self.higher.same(&other.higher)
    }
}

/// A DM conversation: the same causally ordered DAG as a channel, scoped to
/// two participants. Payload encryption happens at the adapter boundary.
#[derive(Debug, Clone, PartialEq, Eq)]
pub struct DmThread {
    key: DmKey,
    dag: MessageDag,
}

#[derive(Debug, Clone, Copy, PartialEq, Eq, Structural)]
pub enum DmThreadError {
    NotAParticipant,
}

impl DmThread {
    pub closed spec fn spec_key(&self) -> DmKey {
        self.key
    }

    /// Every message of the thread heard so far, by id.
    pub closed spec fn known(&self) -> Map<MessageId, MessageView> {
        self.dag.known()
    }

    /// Only the two participants speak in a thread.
    pub closed spec fn wf(&self) -> bool {
        &&& self.key.wf()
        &&& self.dag.wf()
        &&& forall|id: MessageId| #[trigger]
            self.dag.known().contains_key(id) ==> self.key.joins(self.dag.known()[id].author)
    }

    /// Nobody but the two participants ever speaks in a thread.
    pub proof fn law_only_participants_speak(&self)
        requires
            self.wf(),
        ensures
            self.spec_key().wf(),
            forall|id: MessageId| #[trigger]
                self.known().contains_key(id) ==> self.spec_key().joins(self.known()[id].author),
    {
    }

    /// However long it runs, a thread knows finitely many messages.
    pub proof fn law_finitely_many_are_known(&self)
        requires
            self.wf(),
        ensures
            self.known().dom().finite(),
    {
        self.dag.law_finitely_many_are_known();
    }

    pub fn new(key: DmKey) -> (r: DmThread)
        requires
            key.wf(),
        ensures
            r.wf(),
            r.spec_key() == key,
            r.known() == Map::<MessageId, MessageView>::empty(),
    {
        DmThread { key, dag: MessageDag::new() }
    }

    pub fn key(&self) -> (r: DmKey)
        ensures
            r == self.spec_key(),
    {
        self.key
    }

    /// Takes a message of one of the two participants into the history.
    pub fn record_message(&mut self, message: Message) -> (r: Result<DagInsert, DmThreadError>)
        requires
            old(self).wf(),
        ensures
            final(self).wf(),
            final(self).spec_key() == old(self).spec_key(),
            match r {
                Err(e) => {
                    &&& e == DmThreadError::NotAParticipant
                    &&& !old(self).spec_key().joins(message@.author)
                    &&& *final(self) == *old(self)
                },
                Ok(inserted) => {
                    &&& old(self).spec_key().joins(message@.author)
                    &&& final(self).known() == learn(old(self).known(), message@)
                    &&& insert_outcome(old(self).known(), message@, inserted)
                },
            },
    {
        if !self.key.involves(&message.author()) {
            return Err(DmThreadError::NotAParticipant);
        }
        let ghost before = self.dag.known();
        let r = self.dag.insert(message);
        Ok(r)
    }

    /// Deterministic display order of all applied messages.
    pub fn history(&self) -> (r: Vec<&Message>)
        requires
            self.wf(),
        ensures
            is_display_order(history_of(self.known()), ids_of(r@)),
            ids_of(r@) == display_order(history_of(self.known())),
            forall|i: int|
                0 <= i < r@.len() ==> (#[trigger] r@[i])@ == history_of(self.known())[r@[i]@.id],
    {
        let r = self.dag.linearize();
        proof {
            self.dag.lemma_display_order(ids_of(r@));
        }
        r
    }

    /// The highest Lamport counter applied so far.
    pub fn max_lamport(&self) -> (r: u64)
        requires
            self.wf(),
        ensures
            is_max_lamport(history_of(self.known()), r),
    {
        self.dag.max_lamport()
    }

    /// The parents and lamport counter a new local message should carry.
    pub fn next_message_position(&self) -> (r: (Vec<MessageId>, u64))
        requires
            self.wf(),
            forall|id: MessageId|
                history_of(self.known()).contains_key(id) ==> (#[trigger] history_of(self.known())[id]).lamport
                    < u64::MAX,
        ensures
            ascending(r.0@),
            r.0@.to_set() == heads_of(history_of(self.known())),
            r.1 > 0,
            is_max_lamport(history_of(self.known()), (r.1 - 1) as u64),
    {
        let top: u64 = self.dag.max_lamport();
        proof {
            let h = history_of(self.known());
            if top > 0 {
                let id = choose|id: MessageId| h.contains_key(id) && (#[trigger] h[id]).lamport == top;
                assert(history_of(self.known())[id].lamport < u64::MAX);
            }
        }
        (self.dag.heads(), top + 1)
    }
}

/// What taking `m` into a history reports.
pub open spec fn insert_outcome(
    known: Map<MessageId, MessageView>,
    m: MessageView,
    outcome: DagInsert,
) -> bool {
    let applied = history_of(known).dom();
    match outcome {
        DagInsert::Duplicate => known.contains_key(m.id),
        DagInsert::Pending { missing } => {
            &&& !known.contains_key(m.id)
            &&& missing@ == missing_from(m.parents, applied)
            &&& missing@.len() > 0
        },
        DagInsert::Applied { unblocked } => {
            &&& !known.contains_key(m.id)
            &&& missing_from(m.parents, applied).len() == 0
            &&& unblocked@ == cascade(learn(known, m), applied.insert(m.id), seq![m.id])
        },
    }
}

/// What taking in a direct message reports: that it is known already, what is missing below
/// it, or that it is there; exactly one of them.
pub proof fn law_outcomes_tell_what_happened(
    known: Map<MessageId, MessageView>,
    m: MessageView,
    outcome: DagInsert,
)
    requires
        insert_outcome(known, m, outcome),
    ensures
        outcome is Duplicate <==> known.contains_key(m.id),
        outcome is Applied <==> !known.contains_key(m.id) && forall|i: int|
            0 <= i < m.parents.len() ==> history_of(known).contains_key(#[trigger] m.parents[i]),
        outcome matches DagInsert::Pending { missing } ==> missing@ == missing_from(
            m.parents,
            history_of(known).dom(),
        ),
{
    super::dag::law_gaps_name_what_is_missing(m.parents, history_of(known).dom(), m.id);
    if forall|i: int|
        0 <= i < m.parents.len() ==> history_of(known).contains_key(#[trigger] m.parents[i]) {
        assert forall|i: int| 0 <= i < m.parents.len() implies history_of(known).dom().contains(
            #[trigger] m.parents[i],
        ) by {
            assert(history_of(known).contains_key(m.parents[i]));
        }
    }
    if outcome is Applied {
        assert forall|i: int| 0 <= i < m.parents.len() implies history_of(known).contains_key(
            #[trigger] m.parents[i],
        ) by {
            assert(history_of(known).dom().contains(m.parents[i]));
        }
    }
}

} // verus!

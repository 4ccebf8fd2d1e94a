//! Calls bounded context.
//!
//! Group calls are a full mesh: with no server there is no SFU, so every
//! participant sends media to every other. The mesh limit (8) is therefore a
//! *domain invariant* enforced by [`CallRoster`]'s construction, not a UI
//! suggestion: a 9th participant is unrepresentable.
//!
//! A call opened with nobody to ring is a *solo stage*: legal, immediately
//! [`CallPhase::Active`] with only its opener, who rings people later via
//! [`Call::invite`]. Staying alone is a choice: a solo stage never ends by
//! "last participant left" while the opener holds it; only hanging up does.

use vstd::prelude::*;

use crate::order::{
    bytes_before, bytes_equal, lemma_lex_irreflexive, lemma_lex_total, lemma_lex_transitive,
    lex_before, Key,
};
use crate::shared::IdentityId;
use crate::sorted::{ascending, copy_keys, in_order, lemma_in_order, lists, SortedMap, SortedSet};
use crate::text::{hex_of, hex_text};

verus! {

/// Call identity (UUIDv7 bytes).
#[derive(Clone, Copy, PartialEq, Eq, PartialOrd, Ord, Hash, Debug)]
pub struct CallId([u8; 16]);

impl View for CallId {
    type V = Seq<u8>;

    closed spec fn view(&self) -> Seq<u8> {
        self.0@
    }
}

impl CallId {
    /// The bytes are all there is: equal bytes, equal values.
    pub proof fn lemma_view_injective(a: CallId, b: CallId)
        ensures
            a@.len() == 16,
            (a@ == b@) == (a == b),
    {
        if a@ == b@ {
            assert(a.0 =~= b.0);
        }
    }

    pub fn from_bytes(bytes: [u8; 16]) -> (r: CallId)
        ensures
            r@ == bytes@,
    {
        CallId(bytes)
    }

    pub fn as_bytes(&self) -> (r: &[u8; 16])
        ensures
            r@ == self@,
    {
        &self.0
    }

    /// Short hex prefix: enough to disambiguate in logs, not for security
    /// decisions.
    pub fn short_hex(&self) -> (r: String)
        ensures
            r@ == hex_text(self@.take(6)),
    {
        let head: [u8; 6] = [self.0[0], self.0[1], self.0[2], self.0[3], self.0[4], self.0[5]];
        assert(head@ =~= self@.take(6));
        hex_of(&head)
    }
}

impl Key for CallId {
    open spec fn before(self, other: Self) -> bool {
        lex_before(self@, other@)
    }

    proof fn lemma_irreflexive(a: Self) {
        lemma_lex_irreflexive(a@);
    }

    proof fn lemma_transitive(a: Self, b: Self, c: Self) {
        lemma_lex_transitive(a@, b@, c@);
    }

    proof fn lemma_total(a: Self, b: Self) {
        lemma_lex_total(a@, b@);
        CallId::lemma_view_injective(a, b);
    }

    fn is_before(&self, other: &Self) -> (r: bool) {
        bytes_before(&self.0, &other.0)
    }

    fn same(&self, other: &Self) -> (r: bool) {
        proof {
            CallId::lemma_view_injective(*self, *other);
        }
        bytes_equal(&self.0, &other.0)
    }
}

#[derive(Debug, Clone, Copy, PartialEq, Eq, Structural)]
pub struct MediaState {
    pub mic_muted: bool,
    pub deafened: bool,
    pub sharing_screen: bool,
}

impl MediaState {
    /// Microphone open, ears open, no share.
    pub open spec fn fresh() -> MediaState {
        MediaState { mic_muted: false, deafened: false, sharing_screen: false }
    }
}

impl Default for MediaState {
    fn default() -> (r: Self)
        ensures
            r == MediaState::fresh(),
    {
        MediaState { mic_muted: false, deafened: false, sharing_screen: false }
    }
}

/// Bounded participant set: from one to [`CallRoster::MAX_PARTICIPANTS`].
#[derive(Debug, Clone, PartialEq, Eq)]
pub struct CallRoster {
    participants: SortedMap<IdentityId, MediaState>,
}

#[derive(Debug, Clone, Copy, PartialEq, Eq, Structural)]
pub enum RosterError {
    Full,
    AlreadyPresent,
    NotPresent,
    /// Somebody always sits in a call: it ends before its last seat is given
    /// up.
    LastOne,
}

impl View for CallRoster {
    type V = Map<IdentityId, MediaState>;

    closed spec fn view(&self) -> Map<IdentityId, MediaState> {
        self.participants@
    }
}

impl CallRoster {
    /// Full-mesh ceiling: ~N-1 uplinks per member at ~32 kbps Opus each.
    pub const MAX_PARTICIPANTS: usize = 8;

    /// Never empty, and no more than the mesh can carry.
    pub closed spec fn wf(&self) -> bool {
        &&& self.participants.wf()
        &&& self.participants@.dom().finite()
        &&& 1 <= self.participants@.dom().len() <= 8
    }

    pub proof fn lemma_bounded(&self)
        requires
            self.wf(),
        ensures
            self@.dom().finite(),
            1 <= self@.dom().len() <= 8,
    {
    }

    pub fn solo(initiator: IdentityId) -> (r: CallRoster)
        ensures
            r.wf(),
            r@ == Map::<IdentityId, MediaState>::empty().insert(initiator, MediaState::fresh()),
    {
        let mut participants: SortedMap<IdentityId, MediaState> = SortedMap::new();
        participants.insert(initiator, MediaState::default());
        assert(participants@.dom() =~= Set::<IdentityId>::empty().insert(initiator));
        CallRoster { participants }
    }

    pub fn len(&self) -> (n: usize)
        requires
            self.wf(),
        ensures
            n == self@.dom().len(),
    {
        self.participants.len()
    }

    pub fn is_empty(&self) -> (r: bool)
        requires
            self.wf(),
        ensures
            r == (self@.dom().len() == 0),
    {
        self.participants.len() == 0
    }

    pub fn contains(&self, id: &IdentityId) -> (r: bool)
        requires
            self.wf(),
        ensures
            r == self@.contains_key(*id),
    {
        self.participants.contains_key(id)
    }

    /// The participants with their media, in id order.
    pub fn members(&self) -> (r: Vec<(IdentityId, MediaState)>)
        requires
            self.wf(),
        ensures
            r@.map_values(|e: (IdentityId, MediaState)| e.0) == in_order(self@.dom()),
            forall|i: int| 0 <= i < r@.len() ==> self@.contains_key((#[trigger] r@[i]).0) && self@[r@[i].0] == r@[i].1,
    {
        let n: usize = self.participants.len();
        let mut r: Vec<(IdentityId, MediaState)> = Vec::new();
        let mut i: usize = 0;
        while i < n
            invariant
                i <= n,
                n == self.participants.walk().len(),
                self.participants.wf(),
                r@.len() == i,
                forall|j: int|
                    0 <= j < i ==> (#[trigger] r@[j]).0 == self.participants.walk()[j]
                        && self.participants@.contains_key(r@[j].0) && self.participants@[r@[j].0] == r@[j].1,
            decreases n - i,
        {
            r.push((self.participants.key_at(i), *self.participants.value_at(i)));
            i = i + 1;
        }
        proof {
            self.participants.lemma_walk();
            lemma_in_order(self@.dom(), self.participants.walk());
            assert(r@.map_values(|e: (IdentityId, MediaState)| e.0) =~= self.participants.walk());
        }
        r
    }

    /// The media state of one participant.
    pub fn media_of(&self, id: &IdentityId) -> (r: Option<MediaState>)
        requires
            self.wf(),
        ensures
            match r {
                Some(m) => self@.contains_key(*id) && m == self@[*id],
                None => !self@.contains_key(*id),
            },
    {
        match self.participants.get(id) {
            Some(m) => Some(*m),
            None => None,
        }
    }

    pub fn add(&mut self, id: IdentityId) -> (r: Result<(), RosterError>)
        requires
            old(self).wf(),
        ensures
            final(self).wf(),
            match r {
                Ok(_) => {
                    &&& !old(self)@.contains_key(id)
                    &&& old(self)@.dom().len() < 8
                    &&& final(self)@ == old(self)@.insert(id, MediaState::fresh())
                },
                Err(e) => {
                    &&& *final(self) == *old(self)
                    &&& e == RosterError::AlreadyPresent ==> old(self)@.contains_key(id)
                    &&& e != RosterError::AlreadyPresent ==> {
                        &&& e == RosterError::Full
                        &&& !old(self)@.contains_key(id)
                        &&& old(self)@.dom().len() >= 8
                    }
                },
            },
    {
        if self.participants.contains_key(&id) {
            return Err(RosterError::AlreadyPresent);
        }
        if self.participants.len() >= Self::MAX_PARTICIPANTS {
            return Err(RosterError::Full);
        }
        self.participants.insert(id, MediaState::default());
        assert(self.participants@.dom() =~= old(self).participants@.dom().insert(id));
        Ok(())
    }

    /// Takes `id` out, unless nobody would be left.
    pub fn remove(&mut self, id: &IdentityId) -> (r: Result<(), RosterError>)
        requires
            old(self).wf(),
        ensures
            final(self).wf(),
            match r {
                Ok(_) => {
                    &&& old(self)@.contains_key(*id)
                    &&& old(self)@.dom().len() > 1
                    &&& final(self)@ == old(self)@.remove(*id)
                },
                Err(e) => {
                    &&& *final(self) == *old(self)
                    &&& if old(self)@.contains_key(*id) {
                        e == RosterError::LastOne && old(self)@.dom().len() == 1
                    } else {
                        e == RosterError::NotPresent
                    }
                },
            },
    {
        if !self.participants.contains_key(id) {
            return Err(RosterError::NotPresent);
        }
        if self.participants.len() == 1 {
            return Err(RosterError::LastOne);
        }
        let _ = self.participants.remove(id);
        assert(self.participants@.dom() =~= old(self).participants@.dom().remove(*id));
        Ok(())
    }

    /// Replaces a participant's media state by what `f` makes of it.
    pub fn update_media(&mut self, id: &IdentityId, f: impl FnOnce(MediaState) -> MediaState) -> (r: Result<
        MediaState,
        RosterError,
    >)
        requires
            old(self).wf(),
            old(self)@.contains_key(*id) ==> call_requires(f, (old(self)@[*id],)),
        ensures
            final(self).wf(),
            match r {
                Ok(state) => {
                    &&& old(self)@.contains_key(*id)
                    &&& call_ensures(f, (old(self)@[*id],), state)
                    &&& final(self)@ == old(self)@.insert(*id, state)
                },
                Err(e) => {
                    &&& e == RosterError::NotPresent
                    &&& !old(self)@.contains_key(*id)
                    &&& *final(self) == *old(self)
                },
            },
    {
        match self.media_of(id) {
            None => Err(RosterError::NotPresent),
            Some(media) => {
                let state: MediaState = f(media);
                self.participants.insert(*id, state);
                assert(self.participants@.dom() =~= old(self).participants@.dom());
                Ok(state)
            },
        }
    }
}

/// Forwarder election policy: the strategy seam of the forwarding tree.
///
/// A forwarder is a *peer role*, never a server: one seated participant
/// relays the sharer's sealed frames so the sharer uplinks each frame
/// exactly once regardless of viewer count. This one picks deterministically;
/// real scoring (uplink bandwidth, CPU headroom, public reachability)
/// replaces the implementation behind this same trait.
pub trait ForwarderStrategy: Send + Sync {
    /// Choose a forwarder among `candidates`: the seated, non-sharer
    /// peers, in roster (identity) order. `None` means nobody is worth
    /// electing and the sharer fans out directly.
    fn pick(&self, candidates: &[IdentityId]) -> Option<IdentityId>;
}

/// The **lowest identity among seated non-sharer peers**: deterministic,
/// stable across machines, and re-derivable from roster state alone. Only
/// elects when the forwarder would offload at least one *other* viewer: with
/// fewer than two candidates, direct fan-out costs the sharer the same single
/// uplink, so a forwarder is pure overhead.
#[derive(Debug, Clone, Copy, Default)]
pub struct LowestSeatedIdentity;

/// Nobody among fewer than two, else the least.
pub open spec fn lowest_of(candidates: Seq<IdentityId>, choice: Option<IdentityId>) -> bool {
    match choice {
        None => candidates.len() < 2,
        Some(id) => {
            &&& candidates.len() >= 2
            &&& candidates.contains(id)
            &&& forall|x: IdentityId| #[trigger] candidates.contains(x) ==> !x.before(id)
        },
    }
}

impl ForwarderStrategy for LowestSeatedIdentity {
    fn pick(&self, candidates: &[IdentityId]) -> (r: Option<IdentityId>)
        ensures
            lowest_of(candidates@, r),
    {
        if candidates.len() < 2 {
            return None;
        }
        let mut best: IdentityId = candidates[0];
        let mut i: usize = 1;
        proof {
            IdentityId::lemma_irreflexive(best);
        }
        while i < candidates.len()
            invariant
                1 <= i <= candidates@.len(),
                candidates@.len() >= 2,
                exists|k: int| 0 <= k < i && candidates@[k] == best,
                forall|k: int| 0 <= k < i ==> !(#[trigger] candidates@[k]).before(best),
            decreases candidates@.len() - i,
        {
            let ghost prior = best;
            if candidates[i].is_before(&best) {
                best = candidates[i];
                assert(candidates@[i as int] == best);
                proof {
                    IdentityId::lemma_irreflexive(best);
                    assert forall|k: int| 0 <= k < i + 1 implies !(#[trigger] candidates@[k]).before(best) by {
                        if k < i && candidates@[k].before(best) {
                            IdentityId::lemma_transitive(candidates@[k], best, prior);
                        }
                    }
                }
            }
            i = i + 1;
        }
        Some(best)
    }
}

#[derive(Debug, Clone, Copy, PartialEq, Eq, Structural)]
pub enum EndReason {
    HungUp,
    Declined,
    Failed,
    LastParticipantLeft,
}

/// Call lifecycle. Transitions consume the current phase and are matched
/// exhaustively: an illegal transition is a visible `Err`, never a silent
/// state overwrite.
#[derive(Debug, PartialEq, Eq)]
pub enum CallPhase {
    /// Offer sent, waiting for the callee(s).
    Ringing { offered_to: Vec<IdentityId> },
    /// Accepted; media transports are being established.
    Connecting,
    /// Media flowing.
    Active,
    /// Terminal.
    Ended { reason: EndReason },
}

/// A phase and what it carries.
pub enum PhaseView {
    Ringing { offered_to: Seq<IdentityId> },
    Connecting,
    Active,
    Ended { reason: EndReason },
}

impl View for CallPhase {
    type V = PhaseView;

    open spec fn view(&self) -> PhaseView {
        match *self {
            CallPhase::Ringing { offered_to } => PhaseView::Ringing { offered_to: offered_to@ },
            CallPhase::Connecting => PhaseView::Connecting,
            CallPhase::Active => PhaseView::Active,
            CallPhase::Ended { reason } => PhaseView::Ended { reason },
        }
    }
}

pub open spec fn phase_name(phase: PhaseView) -> Seq<char> {
    match phase {
        PhaseView::Ringing { .. } => "ringing"@,
        PhaseView::Connecting => "connecting"@,
        PhaseView::Active => "active"@,
        PhaseView::Ended { .. } => "ended"@,
    }
}

#[derive(Debug, Clone, Copy, PartialEq, Eq)]
pub struct InvalidTransition {
    pub action: &'static str,
    pub state: &'static str,
}

impl InvalidTransition {
    /// Names the refused action and the phase it was refused in.
    pub open spec fn refuses(&self, action: Seq<char>, phase: PhaseView) -> bool {
        self.action@ == action && self.state@ == phase_name(phase)
    }
}

impl Clone for CallPhase {
    fn clone(&self) -> (r: Self)
        ensures
            r@ == self@,
    {
        match self {
            CallPhase::Ringing { offered_to } => CallPhase::Ringing { offered_to: copy_keys(offered_to) },
            CallPhase::Connecting => CallPhase::Connecting,
            CallPhase::Active => CallPhase::Active,
            CallPhase::Ended { reason } => CallPhase::Ended { reason: *reason },
        }
    }
}

impl CallPhase {
    fn name(&self) -> (r: &'static str)
        ensures
            r@ == phase_name(self@),
    {
        match self {
            CallPhase::Ringing { .. } => "ringing",
            CallPhase::Connecting => "connecting",
            CallPhase::Active => "active",
            CallPhase::Ended { .. } => "ended",
        }
    }

    pub fn accept(self) -> (r: Result<CallPhase, InvalidTransition>)
        ensures
            match r {
                Ok(next) => self@ is Ringing && next@ == PhaseView::Connecting,
                Err(e) => !(self@ is Ringing) && e.refuses("accept"@, self@),
            },
    {
        match self {
            CallPhase::Ringing { .. } => Ok(CallPhase::Connecting),
            CallPhase::Connecting | CallPhase::Active | CallPhase::Ended { .. } => Err(
                InvalidTransition { action: "accept", state: self.name() },
            ),
        }
    }

    pub fn decline(self) -> (r: Result<CallPhase, InvalidTransition>)
        ensures
            match r {
                Ok(next) => self@ is Ringing && next@ == (PhaseView::Ended { reason: EndReason::Declined }),
                Err(e) => !(self@ is Ringing) && e.refuses("decline"@, self@),
            },
    {
        match self {
            CallPhase::Ringing { .. } => Ok(CallPhase::Ended { reason: EndReason::Declined }),
            CallPhase::Connecting | CallPhase::Active | CallPhase::Ended { .. } => Err(
                InvalidTransition { action: "decline", state: self.name() },
            ),
        }
    }

    pub fn connected(self) -> (r: Result<CallPhase, InvalidTransition>)
        ensures
            match r {
                Ok(next) => self@ is Connecting && next@ == PhaseView::Active,
                Err(e) => !(self@ is Connecting) && e.refuses("connected"@, self@),
            },
    {
        match self {
            CallPhase::Connecting => Ok(CallPhase::Active),
            CallPhase::Ringing { .. } | CallPhase::Active | CallPhase::Ended { .. } => Err(
                InvalidTransition { action: "connected", state: self.name() },
            ),
        }
    }

    pub fn hang_up(self) -> (r: Result<CallPhase, InvalidTransition>)
        ensures
            match r {
                Ok(next) => !(self@ is Ended) && next@ == (PhaseView::Ended { reason: EndReason::HungUp }),
                Err(e) => self@ is Ended && e.refuses("hang_up"@, self@),
            },
    {
        match self {
            CallPhase::Ringing { .. } | CallPhase::Connecting | CallPhase::Active => Ok(
                CallPhase::Ended { reason: EndReason::HungUp },
            ),
            CallPhase::Ended { .. } => Err(
                InvalidTransition { action: "hang_up", state: self.name() },
            ),
        }
    }
}

#[derive(Debug, Clone, PartialEq, Eq)]
pub enum CallEvent {
    CallOffered { call: CallId, by: IdentityId, to: Vec<IdentityId> },
    /// A solo stage opened: active immediately with only its opener.
    CallOpened { call: CallId, by: IdentityId },
    /// Peers rung into an ongoing call (mid-call invite).
    CallInvited { call: CallId, by: IdentityId, to: Vec<IdentityId> },
    CallAccepted { call: CallId, by: IdentityId },
    CallDeclined { call: CallId, by: IdentityId },
    ParticipantJoined { call: CallId, who: IdentityId },
    ParticipantLeft { call: CallId, who: IdentityId },
    ScreenShareStarted { call: CallId, who: IdentityId },
    ScreenShareStopped { call: CallId, who: IdentityId },
    MicMuted { call: CallId, who: IdentityId },
    MicUnmuted { call: CallId, who: IdentityId },
    /// A seated peer was elected to forward `sharer`'s stream: the sharer
    /// sends each sealed frame once to the forwarder, who fans out.
    ForwarderElected { call: CallId, sharer: IdentityId, forwarder: IdentityId },
    /// `sharer`'s share no longer has a forwarder (the forwarder or the
    /// sharer left, or the share stopped). Until a re-election lands, the
    /// sharer fans out directly: a cleared forwarder never ends a share.
    ForwarderCleared { call: CallId, sharer: IdentityId },
    CallEnded { call: CallId, reason: EndReason },
}

/// What a call event reports.
pub enum CallEventView {
    CallOffered { call: CallId, by: IdentityId, to: Seq<IdentityId> },
    CallOpened { call: CallId, by: IdentityId },
    CallInvited { call: CallId, by: IdentityId, to: Seq<IdentityId> },
    CallAccepted { call: CallId, by: IdentityId },
    CallDeclined { call: CallId, by: IdentityId },
    ParticipantJoined { call: CallId, who: IdentityId },
    ParticipantLeft { call: CallId, who: IdentityId },
    ScreenShareStarted { call: CallId, who: IdentityId },
    ScreenShareStopped { call: CallId, who: IdentityId },
    MicMuted { call: CallId, who: IdentityId },
    MicUnmuted { call: CallId, who: IdentityId },
    ForwarderElected { call: CallId, sharer: IdentityId, forwarder: IdentityId },
    ForwarderCleared { call: CallId, sharer: IdentityId },
    CallEnded { call: CallId, reason: EndReason },
}

impl View for CallEvent {
    type V = CallEventView;

    open spec fn view(&self) -> CallEventView {
        match *self {
            CallEvent::CallOffered { call, by, to } => CallEventView::CallOffered { call, by, to: to@ },
            CallEvent::CallOpened { call, by } => CallEventView::CallOpened { call, by },
            CallEvent::CallInvited { call, by, to } => CallEventView::CallInvited { call, by, to: to@ },
            CallEvent::CallAccepted { call, by } => CallEventView::CallAccepted { call, by },
            CallEvent::CallDeclined { call, by } => CallEventView::CallDeclined { call, by },
            CallEvent::ParticipantJoined { call, who } => CallEventView::ParticipantJoined { call, who },
            CallEvent::ParticipantLeft { call, who } => CallEventView::ParticipantLeft { call, who },
            CallEvent::ScreenShareStarted { call, who } => CallEventView::ScreenShareStarted { call, who },
            CallEvent::ScreenShareStopped { call, who } => CallEventView::ScreenShareStopped { call, who },
            CallEvent::MicMuted { call, who } => CallEventView::MicMuted { call, who },
            CallEvent::MicUnmuted { call, who } => CallEventView::MicUnmuted { call, who },
            CallEvent::ForwarderElected { call, sharer, forwarder } => CallEventView::ForwarderElected { call, sharer, forwarder },
            CallEvent::ForwarderCleared { call, sharer } => CallEventView::ForwarderCleared { call, sharer },
            CallEvent::CallEnded { call, reason } => CallEventView::CallEnded { call, reason },
        }
    }
}

/// What a list of call events reports.
pub open spec fn call_event_views(events: Seq<CallEvent>) -> Seq<CallEventView> {
    Seq::new(events.len(), |i: int| events[i]@)
}

#[derive(Debug, Clone, Copy, PartialEq, Eq)]
pub enum CallError {
    Roster(RosterError),
    Transition(InvalidTransition),
    Ended,
    NotInvited,
    AlreadyInvited,
    NoFreeSeat { seated: usize, pending: usize },
    NotSharing,
    ForwarderNotSeated,
    ForwarderIsSharer,
}

/// What a call error says.
pub enum CallErrorView {
    Roster(RosterError),
    /// The refused action and the phase it was refused in.
    Transition { action: Seq<char>, state: Seq<char> },
    Ended,
    NotInvited,
    AlreadyInvited,
    NoFreeSeat { seated: nat, pending: nat },
    NotSharing,
    ForwarderNotSeated,
    ForwarderIsSharer,
}

impl View for CallError {
    type V = CallErrorView;

    open spec fn view(&self) -> CallErrorView {
        match *self {
            CallError::Roster(e) => CallErrorView::Roster(e),
            CallError::Transition(t) => CallErrorView::Transition {
                action: t.action@,
                state: t.state@,
            },
            CallError::Ended => CallErrorView::Ended,
            CallError::NotInvited => CallErrorView::NotInvited,
            CallError::AlreadyInvited => CallErrorView::AlreadyInvited,
            CallError::NoFreeSeat { seated, pending } => CallErrorView::NoFreeSeat {
                seated: seated as nat,
                pending: pending as nat,
            },
            CallError::NotSharing => CallErrorView::NotSharing,
            CallError::ForwarderNotSeated => CallErrorView::ForwarderNotSeated,
            CallError::ForwarderIsSharer => CallErrorView::ForwarderIsSharer,
        }
    }
}

/// What a call holds.
pub struct CallView {
    pub id: CallId,
    pub initiator: IdentityId,
    pub seats: Map<IdentityId, MediaState>,
    pub invited: Set<IdentityId>,
    pub solo_stage: bool,
    pub forwarders: Map<IdentityId, IdentityId>,
    pub phase: PhaseView,
}

impl CallView {
    /// `sharer`'s stream may go through `forwarder`: both seated, the sharer
    /// sharing, and not the same peer.
    pub open spec fn may_forward(self, sharer: IdentityId, forwarder: IdentityId) -> bool {
        &&& self.phase is Active
        &&& self.seats.contains_key(sharer)
        &&& self.seats[sharer].sharing_screen
        &&& self.seats.contains_key(forwarder)
        &&& forwarder != sharer
    }

    /// What holds of a call at all times.
    pub open spec fn wf(self) -> bool {
        // Somebody sits in it, and the mesh carries at most eight.
        &&& self.seats.dom().finite()
        &&& 1 <= self.seats.dom().len() <= 8
        &&& self.invited.finite()
        // Forwarders exist only where they may.
        &&& forall|s: IdentityId| #[trigger]
            self.forwarders.contains_key(s) ==> self.may_forward(s, self.forwarders[s])
        // A ring has somebody left to answer it, and only its initiator waits.
        &&& self.phase matches PhaseView::Ringing { offered_to } ==> {
            &&& offered_to.to_set() == self.invited
            &&& self.invited.len() > 0
            &&& self.seats.dom() == set![self.initiator]
            &&& !self.solo_stage
        }
        // Nobody is left alone in a running call but an opener on their stage
        // or a caller whose ring is unanswered.
        &&& !(self.phase is Ended) && self.seats.dom().len() == 1 ==> {
            &&& self.seats.dom() == set![self.initiator]
            &&& self.solo_stage || self.phase is Ringing
        }
        // Who is seated is not waited for, save an initiator who rang
        // themselves.
        &&& forall|x: IdentityId| #[trigger]
            self.invited.contains(x) && self.seats.contains_key(x) ==> x == self.initiator
    }

    /// On a solo stage the opener alone is not "last participant left".
    pub open spec fn opener_holds_the_stage(self) -> bool {
        self.solo_stage && self.seats.dom() == set![self.initiator]
    }
}

/// The named peers that are neither seated nor invited yet, once each, in the
/// order named.
pub open spec fn fresh_invitees(c: CallView, to: Seq<IdentityId>) -> Seq<IdentityId>
    decreases to.len(),
{
    if to.len() == 0 {
        seq![]
    } else {
        let before = fresh_invitees(c, to.drop_last());
        let peer = to.last();
        if !c.seats.contains_key(peer) && !c.invited.contains(peer) && !before.contains(peer) {
            before.push(peer)
        } else {
            before
        }
    }
}

/// The sharers whose forwarding entry names `who` on either side.
pub open spec fn orphaned_by(c: CallView, who: IdentityId) -> Set<IdentityId> {
    Set::new(
        |s: IdentityId| c.forwarders.contains_key(s) && (s == who || c.forwarders[s] == who),
    )
}

/// Nobody but `who` is seated.
pub open spec fn sits_alone(c: CallView, who: IdentityId) -> bool {
    c.seats.dom() == set![who]
}

/// The call after `who` left their seat. The last seat goes with the call: it
/// stays in the roster of the call that has ended.
pub open spec fn after_leave(c: CallView, who: IdentityId) -> CallView {
    let gone = CallView {
        seats: if sits_alone(c, who) {
            c.seats
        } else {
            c.seats.remove(who)
        },
        forwarders: c.forwarders.remove_keys(orphaned_by(c, who)),
        ..c
    };
    if ends_on_leave(c, who) && !(c.phase is Ended) {
        CallView { phase: PhaseView::Ended { reason: EndReason::LastParticipantLeft }, ..gone }
    } else {
        gone
    }
}

/// Whether the departure of `who` leaves too few for a call.
pub open spec fn ends_on_leave(c: CallView, who: IdentityId) -> bool {
    let left = CallView { seats: c.seats.remove(who), ..c };
    left.seats.dom().len() <= 1 && !left.opener_holds_the_stage()
}

/// The events of `who` leaving.
pub open spec fn leave_events(c: CallView, who: IdentityId) -> Seq<CallEventView> {
    let orphans = in_order(orphaned_by(c, who));
    let left = seq![CallEventView::ParticipantLeft { call: c.id, who }] + Seq::new(
        orphans.len(),
        |i: int| CallEventView::ForwarderCleared { call: c.id, sharer: orphans[i] },
    );
    if ends_on_leave(c, who) {
        left.push(CallEventView::CallEnded { call: c.id, reason: EndReason::LastParticipantLeft })
    } else {
        left
    }
}

/// The refusal of `action` in the call's present phase.
pub open spec fn refused(c: CallView, action: Seq<char>) -> CallErrorView {
    CallErrorView::Transition { action, state: phase_name(c.phase) }
}

/// Why nobody can be seated in place of `who`, if so.
pub open spec fn seat_fault(c: CallView, who: IdentityId) -> Option<CallErrorView> {
    if c.seats.contains_key(who) {
        Some(CallErrorView::Roster(RosterError::AlreadyPresent))
    } else if c.seats.dom().len() >= 8 {
        Some(CallErrorView::Roster(RosterError::Full))
    } else {
        None
    }
}

/// Why `by` cannot accept, if so.
pub open spec fn accept_fault(c: CallView, by: IdentityId) -> Option<CallErrorView> {
    if c.phase is Ended {
        Some(CallErrorView::Ended)
    } else if !c.invited.contains(by) {
        Some(CallErrorView::NotInvited)
    } else {
        seat_fault(c, by)
    }
}

/// The call once `by` has accepted.
pub open spec fn after_accept(c: CallView, by: IdentityId) -> CallView {
    CallView {
        seats: c.seats.insert(by, MediaState::fresh()),
        invited: c.invited.remove(by),
        phase: if c.phase is Ringing {
            PhaseView::Connecting
        } else {
            c.phase
        },
        ..c
    }
}

pub open spec fn accept_events(c: CallView, by: IdentityId) -> Seq<CallEventView> {
    seq![
        CallEventView::CallAccepted { call: c.id, by },
        CallEventView::ParticipantJoined { call: c.id, who: by },
    ]
}

/// Why `by` cannot decline, if so.
pub open spec fn decline_fault(c: CallView, by: IdentityId) -> Option<CallErrorView> {
    if c.phase is Ended {
        Some(CallErrorView::Ended)
    } else if !c.invited.contains(by) {
        Some(CallErrorView::NotInvited)
    } else {
        None
    }
}

/// The phase of a call once `by` has declined: a ring ends when nobody is left
/// to answer it, an ongoing call goes on.
pub open spec fn phase_after_decline(c: CallView, by: IdentityId) -> PhaseView {
    match c.phase {
        PhaseView::Ringing { offered_to } => {
            if c.invited.remove(by) == Set::<IdentityId>::empty() {
                PhaseView::Ended { reason: EndReason::Declined }
            } else {
                PhaseView::Ringing { offered_to: others(offered_to, by) }
            }
        },
        p => p,
    }
}

/// The call once `by` has declined.
pub open spec fn after_decline(c: CallView, by: IdentityId) -> CallView {
    CallView { invited: c.invited.remove(by), phase: phase_after_decline(c, by), ..c }
}

pub open spec fn decline_events(c: CallView, by: IdentityId) -> Seq<CallEventView> {
    if phase_after_decline(c, by) is Ended {
        seq![
            CallEventView::CallDeclined { call: c.id, by },
            CallEventView::CallEnded { call: c.id, reason: EndReason::Declined },
        ]
    } else {
        seq![CallEventView::CallDeclined { call: c.id, by }]
    }
}

/// Why none of `to` can be rung, if so.
pub open spec fn invite_fault(c: CallView, to: Seq<IdentityId>) -> Option<CallErrorView> {
    let fresh = fresh_invitees(c, to);
    if c.phase is Ringing {
        Some(refused(c, "invite"@))
    } else if c.phase is Ended {
        Some(CallErrorView::Ended)
    } else if fresh.len() == 0 {
        Some(CallErrorView::AlreadyInvited)
    } else if c.seats.dom().len() + c.invited.len() + fresh.len() > 8 {
        Some(CallErrorView::NoFreeSeat { seated: c.seats.dom().len(), pending: c.invited.len() })
    } else {
        None
    }
}

/// The call once the new ones among `to` have been rung.
pub open spec fn after_invite(c: CallView, to: Seq<IdentityId>) -> CallView {
    CallView { invited: c.invited.union(fresh_invitees(c, to).to_set()), ..c }
}

/// Why media cannot count as established, if so.
pub open spec fn connected_fault(c: CallView) -> Option<CallErrorView> {
    if c.phase is Connecting {
        None
    } else {
        Some(refused(c, "connected"@))
    }
}

/// The call with media established.
pub open spec fn after_connected(c: CallView) -> CallView {
    CallView { phase: PhaseView::Active, ..c }
}

/// Why `who` cannot join, if so.
pub open spec fn join_fault(c: CallView, who: IdentityId) -> Option<CallErrorView> {
    if c.phase is Ringing || c.phase is Ended {
        Some(CallErrorView::Ended)
    } else {
        seat_fault(c, who)
    }
}

/// The call once `who` has joined: whoever sits is waited for no longer.
pub open spec fn after_join(c: CallView, who: IdentityId) -> CallView {
    CallView {
        seats: c.seats.insert(who, MediaState::fresh()),
        invited: c.invited.remove(who),
        ..c
    }
}

/// Why `who` cannot leave, if so.
pub open spec fn leave_fault(c: CallView, who: IdentityId) -> Option<CallErrorView> {
    if !c.seats.contains_key(who) {
        Some(CallErrorView::Roster(RosterError::NotPresent))
    } else if c.phase is Ended && sits_alone(c, who) {
        Some(CallErrorView::Roster(RosterError::LastOne))
    } else {
        None
    }
}

/// Why the call cannot be hung up, if so.
pub open spec fn hang_up_fault(c: CallView) -> Option<CallErrorView> {
    if c.phase is Ended {
        Some(refused(c, "hang_up"@))
    } else {
        None
    }
}

/// The call once hung up.
pub open spec fn after_hang_up(c: CallView) -> CallView {
    CallView {
        phase: PhaseView::Ended { reason: EndReason::HungUp },
        forwarders: Map::<IdentityId, IdentityId>::empty(),
        ..c
    }
}

pub open spec fn hang_up_event(c: CallView) -> CallEventView {
    CallEventView::CallEnded { call: c.id, reason: EndReason::HungUp }
}

/// Why the media of `who` cannot change, if so.
pub open spec fn media_fault(c: CallView, who: IdentityId) -> Option<CallErrorView> {
    if !(c.phase is Active) {
        Some(CallErrorView::Ended)
    } else if !c.seats.contains_key(who) {
        Some(CallErrorView::Roster(RosterError::NotPresent))
    } else {
        None
    }
}

/// The call once `who` has started or stopped sharing.
pub open spec fn after_screen_sharing(c: CallView, who: IdentityId, sharing: bool) -> CallView {
    CallView {
        seats: c.seats.insert(who, MediaState { sharing_screen: sharing, ..c.seats[who] }),
        forwarders: if sharing {
            c.forwarders
        } else {
            c.forwarders.remove(who)
        },
        ..c
    }
}

pub open spec fn screen_sharing_events(c: CallView, who: IdentityId, sharing: bool) -> Seq<
    CallEventView,
> {
    if sharing {
        seq![CallEventView::ScreenShareStarted { call: c.id, who }]
    } else if c.forwarders.contains_key(who) {
        seq![
            CallEventView::ScreenShareStopped { call: c.id, who },
            CallEventView::ForwarderCleared { call: c.id, sharer: who },
        ]
    } else {
        seq![CallEventView::ScreenShareStopped { call: c.id, who }]
    }
}

/// Why `forwarder` cannot forward `sharer`'s stream, if so.
pub open spec fn elect_fault(c: CallView, sharer: IdentityId, forwarder: IdentityId) -> Option<
    CallErrorView,
> {
    if !(c.phase is Active) {
        Some(CallErrorView::Ended)
    } else if !(c.seats.contains_key(sharer) && c.seats[sharer].sharing_screen) {
        Some(CallErrorView::NotSharing)
    } else if forwarder == sharer {
        Some(CallErrorView::ForwarderIsSharer)
    } else if !c.seats.contains_key(forwarder) {
        Some(CallErrorView::ForwarderNotSeated)
    } else {
        None
    }
}

/// The call once `forwarder` has been elected for `sharer`.
pub open spec fn after_elect(c: CallView, sharer: IdentityId, forwarder: IdentityId) -> CallView {
    CallView { forwarders: c.forwarders.insert(sharer, forwarder), ..c }
}

/// The call once `who` has muted or unmuted.
pub open spec fn after_mic_muted(c: CallView, who: IdentityId, muted: bool) -> CallView {
    CallView { seats: c.seats.insert(who, MediaState { mic_muted: muted, ..c.seats[who] }), ..c }
}

pub open spec fn mic_muted_event(c: CallView, who: IdentityId, muted: bool) -> CallEventView {
    if muted {
        CallEventView::MicMuted { call: c.id, who }
    } else {
        CallEventView::MicUnmuted { call: c.id, who }
    }
}

/// Two different elements make at least two.
proof fn lemma_two_elements(s: Set<IdentityId>, a: IdentityId, b: IdentityId)
    requires
        s.finite(),
        s.contains(a),
        s.contains(b),
        a != b,
    ensures
        s.len() >= 2,
{
    let both = set![a, b];
    assert(both =~= Set::<IdentityId>::empty().insert(a).insert(b));
    assert(both.len() == 2);
    assert(both.subset_of(s));
    vstd::set_lib::lemma_len_subset(both, s);
}

/// A set of one element holds just that.
proof fn lemma_one_element(s: Set<IdentityId>, a: IdentityId)
    requires
        s.finite(),
        s.len() == 1,
        s.contains(a),
    ensures
        s == set![a],
{
    assert forall|x: IdentityId| s.contains(x) implies x == a by {
        if x != a {
            lemma_two_elements(s, a, x);
        }
    }
    assert(s =~= set![a]);
}

/// The `Call` aggregate.
#[derive(Debug, Clone, PartialEq, Eq)]
pub struct Call {
    id: CallId,
    initiator: IdentityId,
    roster: CallRoster,
    /// Offered-but-not-joined: everyone rung (at offer time or mid-call)
    /// who has neither come into the roster nor declined. Accepting
    /// requires membership here: an uninvited accept is unrepresentable.
    invited: SortedSet<IdentityId>,
    /// Opened with nobody to ring: the opener holds the stage alone by
    /// choice, so "last participant left" never fires while they stay.
    solo_stage: bool,
    /// Per-sharer elected forwarder (sharer -> forwarder). Entries exist
    /// only while both parties are seated and the sharer is sharing:
    /// [`Call::elect_forwarder`] refuses anything else, and [`Call::leave`]
    /// / [`Call::set_screen_sharing`] clear entries the moment either
    /// party departs or the share stops.
    forwarders: SortedMap<IdentityId, IdentityId>,
    phase: CallPhase,
}

impl View for Call {
    type V = CallView;

    closed spec fn view(&self) -> CallView {
        CallView {
            id: self.id,
            initiator: self.initiator,
            seats: self.roster@,
            invited: self.invited@,
            solo_stage: self.solo_stage,
            forwarders: self.forwarders@,
            phase: self.phase@,
        }
    }
}

impl Call {
    spec fn parts_wf(&self) -> bool {
        self.roster.wf() && self.invited.wf() && self.forwarders.wf()
    }

    pub closed spec fn wf(&self) -> bool {
        self.parts_wf() && self@.wf()
    }

    /// What holds of a call at all times, for those who cannot see inside.
    pub proof fn lemma_wf(&self)
        requires
            self.wf(),
        ensures
            self@.wf(),
    {
    }

    /// Ring `offered_to`. An empty list is a [`Call::open_solo`]: a
    /// ringing call with nobody to answer it is unrepresentable.
    pub fn offer(id: CallId, initiator: IdentityId, offered_to: Vec<IdentityId>) -> (r: (Call, CallEvent))
        ensures
            r.0.wf(),
            r.0@ == (CallView {
                id,
                initiator,
                seats: Map::<IdentityId, MediaState>::empty().insert(initiator, MediaState::fresh()),
                invited: offered_to@.to_set(),
                solo_stage: offered_to@.len() == 0,
                forwarders: Map::<IdentityId, IdentityId>::empty(),
                phase: if offered_to@.len() == 0 {
                    PhaseView::Active
                } else {
                    PhaseView::Ringing { offered_to: offered_to@ }
                },
            }),
            r.1@ == if offered_to@.len() == 0 {
                CallEventView::CallOpened { call: id, by: initiator }
            } else {
                CallEventView::CallOffered { call: id, by: initiator, to: offered_to@ }
            },
    {
        if offered_to.len() == 0 {
            assert(offered_to@.to_set() =~= Set::<IdentityId>::empty());
            return Self::open_solo(id, initiator);
        }
        let mut invited: SortedSet<IdentityId> = SortedSet::new();
        let mut i: usize = 0;
        assert(offered_to@.take(0).to_set() =~= Set::<IdentityId>::empty());
        while i < offered_to.len()
            invariant
                i <= offered_to@.len(),
                invited.wf(),
                invited@ == offered_to@.take(i as int).to_set(),
            decreases offered_to@.len() - i,
        {
            invited.insert(offered_to[i]);
            proof {
                lemma_take_set(offered_to@, i as int);
            }
            i = i + 1;
        }
        assert(offered_to@.take(i as int) =~= offered_to@);
        let call = Call {
            id,
            initiator,
            roster: CallRoster::solo(initiator),
            invited,
            solo_stage: false,
            forwarders: SortedMap::new(),
            phase: CallPhase::Ringing { offered_to: copy_keys(&offered_to) },
        };
        proof {
            call.invited.lemma_walk();
            call.roster.lemma_bounded();
            assert(call@.seats.dom() =~= set![initiator]);
            assert(call@.invited.contains(offered_to@[0])) by {
                assert(offered_to@.contains(offered_to@[0]));
            }
            assert(call@.wf());
        }
        let event = CallEvent::CallOffered { call: id, by: initiator, to: offered_to };
        (call, event)
    }

    /// Open a solo stage: active immediately with only the opener, who
    /// rings people later via [`Call::invite`].
    pub fn open_solo(id: CallId, initiator: IdentityId) -> (r: (Call, CallEvent))
        ensures
            r.0.wf(),
            r.0@ == (CallView {
                id,
                initiator,
                seats: Map::<IdentityId, MediaState>::empty().insert(initiator, MediaState::fresh()),
                invited: Set::<IdentityId>::empty(),
                solo_stage: true,
                forwarders: Map::<IdentityId, IdentityId>::empty(),
                phase: PhaseView::Active,
            }),
            r.1@ == (CallEventView::CallOpened { call: id, by: initiator }),
    {
        let call = Call {
            id,
            initiator,
            roster: CallRoster::solo(initiator),
            invited: SortedSet::new(),
            solo_stage: true,
            forwarders: SortedMap::new(),
            phase: CallPhase::Active,
        };
        proof {
            call.roster.lemma_bounded();
            assert(call@.seats.dom() =~= set![initiator]);
            assert(call@.wf());
        }
        (call, CallEvent::CallOpened { call: id, by: initiator })
    }

    pub fn id(&self) -> (r: CallId)
        ensures
            r == self@.id,
    {
        self.id
    }

    pub fn initiator(&self) -> (r: IdentityId)
        ensures
            r == self@.initiator,
    {
        self.initiator
    }

    pub fn phase(&self) -> (r: &CallPhase)
        ensures
            r@ == self@.phase,
    {
        &self.phase
    }

    pub fn roster(&self) -> (r: &CallRoster)
        ensures
            r@ == self@.seats,
            self.wf() ==> r.wf(),
    {
        &self.roster
    }

    /// Offered-but-not-joined peers (initial ring plus mid-call invites), in
    /// id order.
    pub fn invited(&self) -> (r: Vec<IdentityId>)
        requires
            self.wf(),
        ensures
            r@ == in_order(self@.invited),
    {
        proof {
            self.invited.lemma_walk();
            lemma_in_order(self.invited@, self.invited.walk());
        }
        self.invited.to_vec()
    }

    pub fn is_solo_stage(&self) -> (r: bool)
        ensures
            r == self@.solo_stage,
    {
        self.solo_stage
    }

    /// An invited peer picks up. The first pickup moves a ring to
    /// [`CallPhase::Connecting`]; later pickups (a second callee, a
    /// mid-call invitee) land in the already connecting/active call.
    pub fn accept(&mut self, by: IdentityId) -> (r: Result<Vec<CallEvent>, CallError>)
        requires
            old(self).wf(),
        ensures
            final(self).wf(),
            match r {
                Ok(events) => {
                    &&& accept_fault(old(self)@, by) is None
                    &&& final(self)@ == after_accept(old(self)@, by)
                    &&& call_event_views(events@) == accept_events(old(self)@, by)
                },
                Err(e) => accept_fault(old(self)@, by) == Some(e@) && final(self)@ == old(self)@,
            },
    {
        match self.phase {
            CallPhase::Ended { .. } => {
                return Err(CallError::Ended);
            },
            _ => {},
        }
        if !self.invited.contains(&by) {
            return Err(CallError::NotInvited);
        }
        match self.roster.add(by) {
            Ok(_) => {},
            Err(e) => {
                return Err(CallError::Roster(e));
            },
        }
        self.invited.remove(&by);
        match self.phase {
            CallPhase::Ringing { .. } => {
                match self.phase.clone().accept() {
                    Ok(next) => {
                        self.phase = next;
                    },
                    Err(e) => {
                        return Err(CallError::Transition(e));
                    },
                }
            },
            _ => {},
        }
        let mut events: Vec<CallEvent> = Vec::new();
        events.push(CallEvent::CallAccepted { call: self.id, by });
        events.push(CallEvent::ParticipantJoined { call: self.id, who: by });
        proof {
            let c0 = old(self)@;
            let c1 = self@;
            assert(c1.seats.dom() =~= c0.seats.dom().insert(by));
            assert forall|x: IdentityId| #[trigger] c1.forwarders.contains_key(x) implies c1.may_forward(
                x,
                c1.forwarders[x],
            ) by {
                assert(c0.may_forward(x, c0.forwarders[x]));
            }
            if c1.seats.dom().len() <= 1 {
                assert(c0.seats.dom().len() == 0);
                assert(c0.seats.dom() == set![c0.initiator]);
                assert(c0.seats.dom().contains(c0.initiator));
            }
            assert(c1.wf());
            assert(call_event_views(events@) =~= seq![
                CallEventView::CallAccepted { call: c0.id, by },
                CallEventView::ParticipantJoined { call: c0.id, who: by },
            ]);
        }
        Ok(events)
    }

    /// An invited peer turns the call down. The call itself dies only when
    /// the decline leaves nobody to wait for: still ringing with no other
    /// callee pending. An invitee declining an ongoing call (or one of
    /// several ringing callees) never tears it down for those in it.
    pub fn decline(&mut self, by: IdentityId) -> (r: Result<Vec<CallEvent>, CallError>)
        requires
            old(self).wf(),
        ensures
            final(self).wf(),
            match r {
                Ok(events) => {
                    &&& decline_fault(old(self)@, by) is None
                    &&& final(self)@ == after_decline(old(self)@, by)
                    &&& call_event_views(events@) == decline_events(old(self)@, by)
                },
                Err(e) => decline_fault(old(self)@, by) == Some(e@) && final(self)@ == old(self)@,
            },
    {
        match self.phase {
            CallPhase::Ended { .. } => {
                return Err(CallError::Ended);
            },
            _ => {},
        }
        if !self.invited.remove(&by) {
            assert(old(self).invited@.remove(by) =~= old(self).invited@);
            return Err(CallError::NotInvited);
        }
        let mut events: Vec<CallEvent> = Vec::new();
        events.push(CallEvent::CallDeclined { call: self.id, by });
        let mut over: bool = false;
        match &self.phase {
            CallPhase::Ringing { offered_to } => {
                let left: Vec<IdentityId> = without(offered_to, &by);
                proof {
                    lemma_without(offered_to@, by);
                    assert(left@.to_set() =~= self.invited@) by {
                        assert forall|x: IdentityId| left@.to_set().contains(x) <==> self.invited@.contains(x) by {
                            assert(left@.contains(x) <==> offered_to@.contains(x) && x != by);
                            assert(offered_to@.to_set().contains(x) <==> old(self).invited@.contains(x));
                        }
                    }
                }
                self.phase = CallPhase::Ringing { offered_to: left };
                over = self.invited.len() == 0;
            },
            _ => {},
        }
        if over {
            match self.phase.clone().decline() {
                Ok(next) => {
                    self.phase = next;
                },
                Err(e) => {
                    return Err(CallError::Transition(e));
                },
            }
            events.push(CallEvent::CallEnded { call: self.id, reason: EndReason::Declined });
        }
        proof {
            let c0 = old(self)@;
            let c1 = self@;
            self.invited.lemma_walk();
            assert forall|x: IdentityId| #[trigger] c1.forwarders.contains_key(x) implies c1.may_forward(
                x,
                c1.forwarders[x],
            ) by {
                assert(c0.may_forward(x, c0.forwarders[x]));
            }
            if c0.phase is Ringing {
                if over {
                    assert(self.invited.walk().to_set() =~= Set::<IdentityId>::empty());
                } else {
                    assert(self.invited@ != Set::<IdentityId>::empty());
                }
            }
            assert(c1.phase == phase_after_decline(c0, by));
            assert(c1.wf());
            if over {
                assert(call_event_views(events@) =~= seq![
                    CallEventView::CallDeclined { call: c0.id, by },
                    CallEventView::CallEnded { call: c0.id, reason: EndReason::Declined },
                ]);
            } else {
                assert(call_event_views(events@) =~= seq![CallEventView::CallDeclined { call: c0.id, by }]);
            }
        }
        Ok(events)
    }

    /// Ring more peers into an ongoing call. Peers already in the roster
    /// or already invited are not re-rung; the mesh cap is respected at
    /// invite time counting both seats taken and invites outstanding.
    pub fn invite(&mut self, by: IdentityId, to: &[IdentityId]) -> (r: Result<CallEvent, CallError>)
        requires
            old(self).wf(),
        ensures
            final(self).wf(),
            match r {
                Ok(event) => {
                    &&& invite_fault(old(self)@, to@) is None
                    &&& final(self)@ == after_invite(old(self)@, to@)
                    &&& event@ == (CallEventView::CallInvited {
                        call: old(self)@.id,
                        by,
                        to: fresh_invitees(old(self)@, to@),
                    })
                },
                Err(e) => invite_fault(old(self)@, to@) == Some(e@) && final(self)@ == old(self)@,
            },
    {
        match self.phase {
            CallPhase::Connecting | CallPhase::Active => {},
            CallPhase::Ringing { .. } => {
                return Err(
                    CallError::Transition(InvalidTransition { action: "invite", state: self.phase.name() }),
                );
            },
            CallPhase::Ended { .. } => {
                return Err(CallError::Ended);
            },
        }
        let mut fresh: Vec<IdentityId> = Vec::new();
        let ghost c0 = self@;
        let mut i: usize = 0;
        assert(to@.take(0) =~= Seq::<IdentityId>::empty());
        while i < to.len()
            invariant
                i <= to@.len(),
                self.parts_wf(),
                self@ == c0,
                fresh@ == fresh_invitees(c0, to@.take(i as int)),
                fresh@.len() <= i,
            decreases to@.len() - i,
        {
            let peer: IdentityId = to[i];
            proof {
                assert(to@.take(i + 1).drop_last() =~= to@.take(i as int));
                assert(to@.take(i + 1).last() == peer);
            }
            if !self.roster.contains(&peer) && !self.invited.contains(&peer) && !lists(&fresh, &peer) {
                fresh.push(peer);
            }
            i = i + 1;
        }
        assert(to@.take(i as int) =~= to@);
        if fresh.len() == 0 {
            return Err(CallError::AlreadyInvited);
        }
        let seated: usize = self.roster.len();
        let pending: usize = self.invited.len();
        proof {
            self.roster.lemma_bounded();
        }
        if pending > CallRoster::MAX_PARTICIPANTS || fresh.len() > CallRoster::MAX_PARTICIPANTS || seated + pending
            + fresh.len() > CallRoster::MAX_PARTICIPANTS {
            return Err(CallError::NoFreeSeat { seated, pending });
        }
        let mut k: usize = 0;
        assert(fresh@.take(0).to_set() =~= Set::<IdentityId>::empty());
        assert(c0.invited.union(Set::<IdentityId>::empty()) =~= c0.invited);
        while k < fresh.len()
            invariant
                k <= fresh@.len(),
                self.invited.wf(),
                self.roster == old(self).roster,
                self.forwarders == old(self).forwarders,
                self.id == old(self).id,
                self.initiator == old(self).initiator,
                self.solo_stage == old(self).solo_stage,
                self.phase == old(self).phase,
                self.invited@ == c0.invited.union(fresh@.take(k as int).to_set()),
            decreases fresh@.len() - k,
        {
            let ghost before = self.invited@;
            self.invited.insert(fresh[k]);
            proof {
                lemma_take_set(fresh@, k as int);
                assert(before.insert(fresh@[k as int]) =~= c0.invited.union(fresh@.take(k + 1).to_set()));
            }
            k = k + 1;
        }
        proof {
            assert(fresh@.take(k as int) =~= fresh@);
            self.invited.lemma_walk();
            let c1 = self@;
            lemma_fresh_new(c0, to@);
            assert forall|x: IdentityId| #[trigger] c1.forwarders.contains_key(x) implies c1.may_forward(
                x,
                c1.forwarders[x],
            ) by {
                assert(c0.may_forward(x, c0.forwarders[x]));
            }
            assert forall|x: IdentityId| #[trigger] c1.invited.contains(x) && c1.seats.contains_key(x) implies x
                == c1.initiator by {
                if !c0.invited.contains(x) {
                    assert(fresh@.contains(x));
                }
            }
            assert(c1.wf());
        }
        Ok(CallEvent::CallInvited { call: self.id, by, to: fresh })
    }

    pub fn connected(&mut self) -> (r: Result<(), CallError>)
        requires
            old(self).wf(),
        ensures
            final(self).wf(),
            match r {
                Ok(_) => {
                    &&& connected_fault(old(self)@) is None
                    &&& final(self)@ == after_connected(old(self)@)
                },
                Err(e) => connected_fault(old(self)@) == Some(e@) && final(self)@ == old(self)@,
            },
    {
        match self.phase.clone().connected() {
            Ok(next) => {
                self.phase = next;
                Ok(())
            },
            Err(e) => Err(CallError::Transition(e)),
        }
    }

    /// Someone joins an active group call.
    pub fn join(&mut self, who: IdentityId) -> (r: Result<CallEvent, CallError>)
        requires
            old(self).wf(),
        ensures
            final(self).wf(),
            match r {
                Ok(event) => {
                    &&& join_fault(old(self)@, who) is None
                    &&& final(self)@ == after_join(old(self)@, who)
                    &&& event@ == (CallEventView::ParticipantJoined { call: old(self)@.id, who })
                },
                Err(e) => join_fault(old(self)@, who) == Some(e@) && final(self)@ == old(self)@,
            },
    {
        match self.phase {
            CallPhase::Active | CallPhase::Connecting => {
                match self.roster.add(who) {
                    Ok(_) => {},
                    Err(e) => {
                        return Err(CallError::Roster(e));
                    },
                }
                self.invited.remove(&who);
                proof {
                    let c0 = old(self)@;
                    let c1 = self@;
                    assert(c1.seats.dom() =~= c0.seats.dom().insert(who));
                    self.invited.lemma_walk();
                    assert forall|x: IdentityId| #[trigger] c1.forwarders.contains_key(x) implies c1.may_forward(
                        x,
                        c1.forwarders[x],
                    ) by {
                        assert(c0.may_forward(x, c0.forwarders[x]));
                    }
                    if c1.seats.dom().len() <= 1 {
                        assert(c0.seats.dom().len() == 0);
                        assert(c0.seats.dom() == set![c0.initiator]);
                        assert(c0.seats.dom().contains(c0.initiator));
                    }
                    assert(c1.wf());
                }
                Ok(CallEvent::ParticipantJoined { call: self.id, who })
            },
            CallPhase::Ringing { .. } | CallPhase::Ended { .. } => Err(CallError::Ended),
        }
    }

    /// The only participant leaves, and the call ends.
    fn leave_last(&mut self, who: IdentityId) -> (events: Vec<CallEvent>)
        requires
            old(self).wf(),
            sits_alone(old(self)@, who),
            !(old(self)@.phase is Ended),
        ensures
            final(self).wf(),
            final(self)@ == after_leave(old(self)@, who),
            call_event_views(events@) == leave_events(old(self)@, who),
    {
        let ghost c0 = self@;
        let mut events: Vec<CallEvent> = Vec::new();
        events.push(CallEvent::ParticipantLeft { call: self.id, who });
        events.push(CallEvent::CallEnded { call: self.id, reason: EndReason::LastParticipantLeft });
        self.phase = CallPhase::Ended { reason: EndReason::LastParticipantLeft };
        proof {
            let gone = orphaned_by(c0, who);
            assert forall|x: IdentityId| !#[trigger] c0.forwarders.contains_key(x) by {
                if c0.forwarders.contains_key(x) {
                    assert(c0.may_forward(x, c0.forwarders[x]));
                    assert(set![who].contains(x) && set![who].contains(c0.forwarders[x]));
                }
            }
            assert(gone =~= Set::<IdentityId>::empty());
            assert(Seq::<IdentityId>::empty().to_set() =~= gone);
            lemma_in_order(gone, Seq::<IdentityId>::empty());
            assert(c0.forwarders.remove_keys(gone) =~= c0.forwarders);
            assert(c0.seats.remove(who).dom() =~= Set::<IdentityId>::empty());
            assert(!Set::<IdentityId>::empty().contains(c0.initiator));
            assert(set![c0.initiator].contains(c0.initiator));
            assert(call_event_views(events@) =~= leave_events(c0, who));
            assert(self@ == after_leave(c0, who));
        }
        events
    }

    /// A participant gives up their seat. Forwarding entries never outlive
    /// their parties: the leaver's own share loses its forwarder, and every
    /// share the leaver forwarded falls back to direct fan-out until a
    /// re-election lands. On a solo stage the opener alone is not "last
    /// participant left": staying is their choice, hanging up is how they end
    /// it. When the only participant leaves, the call ends under them, and a
    /// call that has ended keeps who was last.
    pub fn leave(&mut self, who: IdentityId) -> (r: Result<Vec<CallEvent>, CallError>)
        requires
            old(self).wf(),
        ensures
            final(self).wf(),
            match r {
                Ok(events) => {
                    &&& leave_fault(old(self)@, who) is None
                    &&& final(self)@ == after_leave(old(self)@, who)
                    &&& call_event_views(events@) == leave_events(old(self)@, who)
                },
                Err(e) => leave_fault(old(self)@, who) == Some(e@) && final(self)@ == old(self)@,
            },
    {
        let ghost c0 = old(self)@;
        proof {
            self.roster.lemma_bounded();
            if c0.seats.contains_key(who) && c0.seats.dom().len() == 1 {
                lemma_one_element(c0.seats.dom(), who);
            }
            assert(set![who].len() == 1);
            assert(set![who].contains(who));
        }
        let over: bool = match self.phase {
            CallPhase::Ended { .. } => true,
            _ => false,
        };
        if !over && self.roster.len() == 1 && self.roster.contains(&who) {
            return Ok(self.leave_last(who));
        }
        match self.roster.remove(&who) {
            Ok(_) => {},
            Err(e) => {
                return Err(CallError::Roster(e));
            },
        }
        let mut events: Vec<CallEvent> = Vec::new();
        events.push(CallEvent::ParticipantLeft { call: self.id, who });
        let sharers: Vec<IdentityId> = self.forwarders.keys();
        let ghost walk = sharers@;
        let ghost mut orphans = Seq::<IdentityId>::empty();
        proof {
            self.forwarders.lemma_walk();
            assert(c0.forwarders.remove_keys(Set::<IdentityId>::empty()) =~= c0.forwarders);
        }
        let mut i: usize = 0;
        while i < sharers.len()
            invariant
                i <= sharers@.len(),
                walk == sharers@,
                ascending(walk),
                walk.no_duplicates(),
                c0 == old(self)@,
                forall|k: IdentityId| walk.contains(k) <==> c0.forwarders.contains_key(k),
                self.forwarders.wf(),
                self.id == old(self).id,
                self.initiator == old(self).initiator,
                self.invited == old(self).invited,
                self.solo_stage == old(self).solo_stage,
                self.phase == old(self).phase,
                self.roster.wf(),
                self.roster@ == c0.seats.remove(who),
                ascending(orphans),
                forall|x: IdentityId| #[trigger]
                    orphans.contains(x) <==> walk.take(i as int).contains(x) && (x == who || c0.forwarders[x] == who),
                forall|x: IdentityId| #[trigger]
                    self.forwarders@.contains_key(x) <==> c0.forwarders.contains_key(x) && !orphans.contains(x),
                forall|x: IdentityId|
                    self.forwarders@.contains_key(x) ==> #[trigger] self.forwarders@[x] == c0.forwarders[x],
                call_event_views(events@) == seq![CallEventView::ParticipantLeft { call: c0.id, who }] + Seq::new(
                    orphans.len(),
                    |j: int| CallEventView::ForwarderCleared { call: c0.id, sharer: orphans[j] },
                ),
            decreases sharers@.len() - i,
        {
            let sharer: IdentityId = sharers[i];
            let forwards: bool = match self.forwarders.get(&sharer) {
                Some(f) => f.same(&who),
                None => false,
            };
            proof {
                assert(walk.contains(sharer));
                if orphans.contains(sharer) {
                    assert(walk.take(i as int).contains(sharer));
                    let j = choose|j: int| 0 <= j < i && walk.take(i as int)[j] == sharer;
                    assert(walk[j] == walk[i as int]);
                }
                lemma_take_contains(walk, i as int);
            }
            if sharer.same(&who) || forwards {
                let ghost before = events@;
                let ghost f0 = self.forwarders@;
                self.forwarders.remove(&sharer);
                events.push(CallEvent::ForwarderCleared { call: self.id, sharer });
                proof {
                    let grown = orphans.push(sharer);
                    assert forall|a: int, b: int| 0 <= a < b < grown.len() implies (#[trigger] grown[a]).before(
                        #[trigger] grown[b],
                    ) by {
                        if b < orphans.len() {
                            assert(orphans[a].before(orphans[b]));
                        } else {
                            assert(orphans.contains(orphans[a]));
                            assert(walk.take(i as int).contains(orphans[a]));
                            let j = choose|j: int| 0 <= j < i && walk.take(i as int)[j] == orphans[a];
                            assert(walk[j].before(walk[i as int]));
                        }
                    }
                    assert forall|x: IdentityId| #[trigger] grown.contains(x) <==> orphans.contains(x) || x == sharer by {
                        if orphans.contains(x) {
                            let j = choose|j: int| 0 <= j < orphans.len() && orphans[j] == x;
                            assert(grown[j] == x);
                        }
                        assert(grown[orphans.len() as int] == sharer);
                        if grown.contains(x) {
                            let j = choose|j: int| 0 <= j < grown.len() && grown[j] == x;
                            if j < orphans.len() {
                                assert(orphans[j] == x);
                            }
                        }
                    }
                    assert forall|x: IdentityId| #[trigger] self.forwarders@.contains_key(x) <==> c0.forwarders.contains_key(x)
                        && !grown.contains(x) by {
                        assert(f0.contains_key(x) <==> c0.forwarders.contains_key(x) && !orphans.contains(x));
                    }
                    assert forall|x: IdentityId| self.forwarders@.contains_key(x) implies #[trigger] self.forwarders@[x]
                        == c0.forwarders[x] by {
                        assert(f0.contains_key(x));
                        assert(f0[x] == c0.forwarders[x]);
                    }
                    assert(call_event_views(events@) =~= call_event_views(before).push(
                        CallEventView::ForwarderCleared { call: c0.id, sharer },
                    ));
                    assert(call_event_views(events@) =~= seq![CallEventView::ParticipantLeft { call: c0.id, who }] + Seq::new(
                        grown.len(),
                        |j: int| CallEventView::ForwarderCleared { call: c0.id, sharer: grown[j] },
                    ));
                    orphans = grown;
                }
            }
            i = i + 1;
        }
        let ghost listed = call_event_views(events@);
        proof {
            assert(walk.take(i as int) =~= walk);
            let gone = orphaned_by(c0, who);
            assert(orphans.to_set() =~= gone) by {
                assert forall|x: IdentityId| orphans.to_set().contains(x) <==> gone.contains(x) by {
                    assert(orphans.contains(x) <==> walk.contains(x) && (x == who || c0.forwarders[x] == who));
                }
            }
            lemma_in_order(gone, orphans);
            assert(self.forwarders@ =~= c0.forwarders.remove_keys(gone)) by {
                assert forall|x: IdentityId| self.forwarders@.contains_key(x) <==> c0.forwarders.remove_keys(gone).contains_key(
                    x,
                ) by {
                    assert(orphans.to_set().contains(x) <==> orphans.contains(x));
                }
            }
        }
        let seated: usize = self.roster.len();
        let opener_holds_the_stage: bool = self.solo_stage && seated == 1 && self.roster.contains(&self.initiator);
        proof {
            self.roster.lemma_bounded();
            let left = CallView { seats: c0.seats.remove(who), ..c0 };
            if opener_holds_the_stage {
                lemma_one_element(left.seats.dom(), c0.initiator);
            }
            if left.opener_holds_the_stage() {
                assert(left.seats.dom().contains(c0.initiator));
                assert(set![c0.initiator].len() == 1);
            }
            assert(opener_holds_the_stage == left.opener_holds_the_stage());
            assert forall|x: IdentityId| #[trigger] self.forwarders@.contains_key(x) implies left.seats.contains_key(x)
                && left.seats.contains_key(self.forwarders@[x]) && x != self.forwarders@[x]
                && c0.phase is Active && left.seats[x].sharing_screen by {
                assert(self.forwarders@[x] == c0.forwarders[x]);
                assert(c0.may_forward(x, c0.forwarders[x]));
                assert(!orphaned_by(c0, who).contains(x));
            }
            if seated <= 1 {
                assert forall|x: IdentityId| !#[trigger] self.forwarders@.contains_key(x) by {
                    if self.forwarders@.contains_key(x) {
                        lemma_two_elements(left.seats.dom(), x, self.forwarders@[x]);
                    }
                }
            }
        }
        if seated <= 1 && !opener_holds_the_stage {
            match self.phase {
                CallPhase::Ended { .. } => {},
                CallPhase::Ringing { .. } | CallPhase::Connecting | CallPhase::Active => {
                    self.phase = CallPhase::Ended { reason: EndReason::LastParticipantLeft };
                },
            }
            let ghost before = events@;
            events.push(
                CallEvent::CallEnded { call: self.id, reason: EndReason::LastParticipantLeft },
            );
            assert(call_event_views(events@) =~= call_event_views(before).push(
                CallEventView::CallEnded { call: c0.id, reason: EndReason::LastParticipantLeft },
            ));
        }
        proof {
            let c1 = self@;
            assert(c1 == after_leave(c0, who));
            assert forall|x: IdentityId| #[trigger] c1.forwarders.contains_key(x) implies c1.may_forward(
                x,
                c1.forwarders[x],
            ) by {
                assert(self.forwarders@.contains_key(x));
            }
            if c1.phase is Ringing {
                // A ring has nobody seated but its initiator.
                assert(c0.seats.dom().contains(who));
                assert(c0.seats.dom() == set![c0.initiator]);
                assert(c0.seats.remove(who).dom() =~= Set::<IdentityId>::empty());
            }
            assert forall|x: IdentityId| #[trigger] c1.invited.contains(x) && c1.seats.contains_key(x) implies x
                == c1.initiator by {
                assert(c0.invited.contains(x) && c0.seats.contains_key(x));
            }
            assert(c1.wf());
        }
        Ok(events)
    }

    /// Ends the call; forwarding roles end with it.
    pub fn hang_up(&mut self) -> (r: Result<CallEvent, CallError>)
        requires
            old(self).wf(),
        ensures
            final(self).wf(),
            match r {
                Ok(event) => {
                    &&& hang_up_fault(old(self)@) is None
                    &&& final(self)@ == after_hang_up(old(self)@)
                    &&& event@ == hang_up_event(old(self)@)
                },
                Err(e) => hang_up_fault(old(self)@) == Some(e@) && final(self)@ == old(self)@,
            },
    {
        match self.phase.clone().hang_up() {
            Ok(next) => {
                self.phase = next;
                self.forwarders = SortedMap::new();
                Ok(CallEvent::CallEnded { call: self.id, reason: EndReason::HungUp })
            },
            Err(e) => Err(CallError::Transition(e)),
        }
    }

    /// A participant starts or stops sharing their screen. A stopped share
    /// cannot keep its forwarder: the role only exists while the sharer is
    /// sharing.
    pub fn set_screen_sharing(&mut self, who: IdentityId, sharing: bool) -> (r: Result<
        Vec<CallEvent>,
        CallError,
    >)
        requires
            old(self).wf(),
        ensures
            final(self).wf(),
            match r {
                Ok(events) => {
                    &&& media_fault(old(self)@, who) is None
                    &&& final(self)@ == after_screen_sharing(old(self)@, who, sharing)
                    &&& call_event_views(events@) == screen_sharing_events(old(self)@, who, sharing)
                },
                Err(e) => media_fault(old(self)@, who) == Some(e@) && final(self)@ == old(self)@,
            },
    {
        match self.phase {
            CallPhase::Active => {
                let set_sharing = |m: MediaState| -> (r: MediaState)
                    ensures
                        r == (MediaState { sharing_screen: sharing, ..m }),
                    { MediaState { mic_muted: m.mic_muted, deafened: m.deafened, sharing_screen: sharing } };
                match self.roster.update_media(&who, set_sharing) {
                    Ok(_) => {},
                    Err(e) => {
                        return Err(CallError::Roster(e));
                    },
                }
                let ghost c0 = old(self)@;
                let mut events: Vec<CallEvent> = Vec::new();
                events.push(
                    if sharing {
                        CallEvent::ScreenShareStarted { call: self.id, who }
                    } else {
                        CallEvent::ScreenShareStopped { call: self.id, who }
                    },
                );
                if !sharing {
                    if self.forwarders.remove(&who).is_some() {
                        events.push(CallEvent::ForwarderCleared { call: self.id, sharer: who });
                    }
                }
                proof {
                    let c1 = self@;
                    assert(c1.seats.dom() =~= c0.seats.dom());
                    assert forall|x: IdentityId| #[trigger] c1.forwarders.contains_key(x) implies c1.may_forward(
                        x,
                        c1.forwarders[x],
                    ) by {
                        assert(c0.forwarders.contains_key(x));
                        assert(c0.may_forward(x, c0.forwarders[x]));
                    }
                    assert(c1.wf());
                    if sharing {
                        assert(call_event_views(events@) =~= seq![
                            CallEventView::ScreenShareStarted { call: c0.id, who },
                        ]);
                    } else if c0.forwarders.contains_key(who) {
                        assert(call_event_views(events@) =~= seq![
                            CallEventView::ScreenShareStopped { call: c0.id, who },
                            CallEventView::ForwarderCleared { call: c0.id, sharer: who },
                        ]);
                    } else {
                        assert(call_event_views(events@) =~= seq![
                            CallEventView::ScreenShareStopped { call: c0.id, who },
                        ]);
                    }
                }
                Ok(events)
            },
            CallPhase::Ringing { .. } | CallPhase::Connecting | CallPhase::Ended { .. } => Err(
                CallError::Ended,
            ),
        }
    }

    /// The forwarder currently elected for `sharer`'s share, if any.
    pub fn forwarder_for(&self, sharer: &IdentityId) -> (r: Option<IdentityId>)
        requires
            self.wf(),
        ensures
            match r {
                Some(f) => self@.forwarders.contains_key(*sharer) && f == self@.forwarders[*sharer],
                None => !self@.forwarders.contains_key(*sharer),
            },
    {
        match self.forwarders.get(sharer) {
            Some(f) => Some(*f),
            None => None,
        }
    }

    /// All (sharer, forwarder) pairs in force, by sharer.
    pub fn forwarders(&self) -> (r: Vec<(IdentityId, IdentityId)>)
        requires
            self.wf(),
        ensures
            r@.map_values(|e: (IdentityId, IdentityId)| e.0) == in_order(self@.forwarders.dom()),
            forall|i: int|
                0 <= i < r@.len() ==> self@.forwarders.contains_key((#[trigger] r@[i]).0)
                    && self@.forwarders[r@[i].0] == r@[i].1,
    {
        let n: usize = self.forwarders.len();
        let mut r: Vec<(IdentityId, IdentityId)> = Vec::new();
        let mut i: usize = 0;
        while i < n
            invariant
                i <= n,
                n == self.forwarders.walk().len(),
                self.forwarders.wf(),
                r@.len() == i,
                forall|j: int|
                    0 <= j < i ==> (#[trigger] r@[j]).0 == self.forwarders.walk()[j]
                        && self.forwarders@.contains_key(r@[j].0) && self.forwarders@[r@[j].0] == r@[j].1,
            decreases n - i,
        {
            r.push((self.forwarders.key_at(i), *self.forwarders.value_at(i)));
            i = i + 1;
        }
        proof {
            self.forwarders.lemma_walk();
            lemma_in_order(self.forwarders@.dom(), self.forwarders.walk());
            assert(r@.map_values(|e: (IdentityId, IdentityId)| e.0) =~= self.forwarders.walk());
        }
        r
    }

    /// Peers eligible to forward `sharer`'s stream: everyone seated but
    /// the sharer, in roster (identity) order: the deterministic input a
    /// [`ForwarderStrategy`] picks from.
    pub fn forwarder_candidates(&self, sharer: &IdentityId) -> (r: Vec<IdentityId>)
        requires
            self.wf(),
        ensures
            r@ == in_order(self@.seats.dom().remove(*sharer)),
    {
        let mut seated: SortedSet<IdentityId> = SortedSet::new();
        let members: Vec<(IdentityId, MediaState)> = self.roster.members();
        let mut i: usize = 0;
        let ghost ids = members@.map_values(|e: (IdentityId, MediaState)| e.0);
        proof {
            self.roster.participants.lemma_walk();
            lemma_in_order(self.roster@.dom(), self.roster.participants.walk());
            assert(ids.to_set() == self.roster@.dom());
            assert(ids.take(0).to_set() =~= Set::<IdentityId>::empty());
            assert(Set::<IdentityId>::empty().remove(*sharer) =~= Set::<IdentityId>::empty());
        }
        while i < members.len()
            invariant
                i <= members@.len(),
                ids == members@.map_values(|e: (IdentityId, MediaState)| e.0),
                seated.wf(),
                seated@ == ids.take(i as int).to_set().remove(*sharer),
            decreases members@.len() - i,
        {
            let who: IdentityId = members[i].0;
            proof {
                lemma_take_set(ids, i as int);
                assert(ids[i as int] == who);
                assert(ids.take(i as int).to_set().insert(who).remove(*sharer) =~= if who == *sharer {
                    ids.take(i as int).to_set().remove(*sharer)
                } else {
                    ids.take(i as int).to_set().remove(*sharer).insert(who)
                });
            }
            if !who.same(sharer) {
                seated.insert(who);
            }
            i = i + 1;
        }
        proof {
            assert(ids.take(i as int) =~= ids);
            seated.lemma_walk();
            lemma_in_order(seated@, seated.walk());
        }
        seated.to_vec()
    }

    /// Install `forwarder` for `sharer`'s share. The invariants are the
    /// constructor: an entry violating them cannot exist. The election
    /// *policy* (which candidate) is the caller's [`ForwarderStrategy`];
    /// this method only guards representability.
    pub fn elect_forwarder(&mut self, sharer: IdentityId, forwarder: IdentityId) -> (r: Result<
        CallEvent,
        CallError,
    >)
        requires
            old(self).wf(),
        ensures
            final(self).wf(),
            match r {
                Ok(event) => {
                    &&& elect_fault(old(self)@, sharer, forwarder) is None
                    &&& final(self)@ == after_elect(old(self)@, sharer, forwarder)
                    &&& event@ == (CallEventView::ForwarderElected {
                        call: old(self)@.id,
                        sharer,
                        forwarder,
                    })
                },
                Err(e) => elect_fault(old(self)@, sharer, forwarder) == Some(e@) && final(self)@ == old(self)@,
            },
    {
        match self.phase {
            CallPhase::Active => {},
            _ => {
                return Err(CallError::Ended);
            },
        }
        let sharer_is_sharing: bool = match self.roster.media_of(&sharer) {
            Some(m) => m.sharing_screen,
            None => false,
        };
        if !sharer_is_sharing {
            return Err(CallError::NotSharing);
        }
        if forwarder.same(&sharer) {
            return Err(CallError::ForwarderIsSharer);
        }
        if !self.roster.contains(&forwarder) {
            return Err(CallError::ForwarderNotSeated);
        }
        self.forwarders.insert(sharer, forwarder);
        proof {
            let c0 = old(self)@;
            let c1 = self@;
            assert forall|x: IdentityId| #[trigger] c1.forwarders.contains_key(x) implies c1.may_forward(
                x,
                c1.forwarders[x],
            ) by {
                if x != sharer {
                    assert(c0.forwarders.contains_key(x));
                    assert(c0.may_forward(x, c0.forwarders[x]));
                }
            }
            assert(c1.wf());
        }
        Ok(CallEvent::ForwarderElected { call: self.id, sharer, forwarder })
    }

    /// Drop `sharer`'s forwarder (share stopping, forwarder unreachable,
    /// re-election under way). Returns the event when there was one to
    /// clear; clearing nothing is not an error.
    pub fn clear_forwarder(&mut self, sharer: &IdentityId) -> (r: Option<CallEvent>)
        requires
            old(self).wf(),
        ensures
            final(self).wf(),
            final(self)@ == (CallView {
                forwarders: old(self)@.forwarders.remove(*sharer),
                ..old(self)@
            }),
            match r {
                Some(event) => {
                    &&& old(self)@.forwarders.contains_key(*sharer)
                    &&& event@ == (CallEventView::ForwarderCleared {
                        call: old(self)@.id,
                        sharer: *sharer,
                    })
                },
                None => !old(self)@.forwarders.contains_key(*sharer),
            },
    {
        let had: bool = self.forwarders.remove(sharer).is_some();
        proof {
            let c0 = old(self)@;
            let c1 = self@;
            assert forall|x: IdentityId| #[trigger] c1.forwarders.contains_key(x) implies c1.may_forward(
                x,
                c1.forwarders[x],
            ) by {
                assert(c0.forwarders.contains_key(x));
                assert(c0.may_forward(x, c0.forwarders[x]));
            }
            assert(c1.wf());
        }
        if had {
            Some(CallEvent::ForwarderCleared { call: self.id, sharer: *sharer })
        } else {
            None
        }
    }

    /// A participant's mic mute state changed (their own choice: nobody
    /// mutes anyone else in a serverless mesh).
    pub fn set_mic_muted(&mut self, who: IdentityId, muted: bool) -> (r: Result<CallEvent, CallError>)
        requires
            old(self).wf(),
        ensures
            final(self).wf(),
            match r {
                Ok(event) => {
                    &&& media_fault(old(self)@, who) is None
                    &&& final(self)@ == after_mic_muted(old(self)@, who, muted)
                    &&& event@ == mic_muted_event(old(self)@, who, muted)
                },
                Err(e) => media_fault(old(self)@, who) == Some(e@) && final(self)@ == old(self)@,
            },
    {
        match self.phase {
            CallPhase::Active => {
                let set_muted = |m: MediaState| -> (r: MediaState)
                    ensures
                        r == (MediaState { mic_muted: muted, ..m }),
                    { MediaState { mic_muted: muted, deafened: m.deafened, sharing_screen: m.sharing_screen } };
                match self.roster.update_media(&who, set_muted) {
                    Ok(_) => {},
                    Err(e) => {
                        return Err(CallError::Roster(e));
                    },
                }
                proof {
                    let c0 = old(self)@;
                    let c1 = self@;
                    assert(c1.seats.dom() =~= c0.seats.dom());
                    assert forall|x: IdentityId| #[trigger] c1.forwarders.contains_key(x) implies c1.may_forward(
                        x,
                        c1.forwarders[x],
                    ) by {
                        assert(c0.forwarders.contains_key(x));
                        assert(c0.may_forward(x, c0.forwarders[x]));
                    }
                    assert(c1.wf());
                }
                Ok(
                    if muted {
                        CallEvent::MicMuted { call: self.id, who }
                    } else {
                        CallEvent::MicUnmuted { call: self.id, who }
                    },
                )
            },
            CallPhase::Ringing { .. } | CallPhase::Connecting | CallPhase::Ended { .. } => Err(
                CallError::Ended,
            ),
        }
    }
}

/// `s` without `x`.
pub open spec fn others(s: Seq<IdentityId>, x: IdentityId) -> Seq<IdentityId> {
    s.filter(|y: IdentityId| y != x)
}

proof fn lemma_without(s: Seq<IdentityId>, x: IdentityId)
    ensures
        forall|y: IdentityId| #[trigger] others(s, x).contains(y) <==> s.contains(y) && y != x,
    decreases s.len(),
{
    reveal(Seq::filter);
    let o = others(s, x);
    if s.len() > 0 {
        let init = s.drop_last();
        let last = s.last();
        lemma_without(init, x);
        let oi = others(init, x);
        assert forall|y: IdentityId| #[trigger] o.contains(y) <==> s.contains(y) && y != x by {
            assert(s.contains(y) <==> init.contains(y) || y == last) by {
                if init.contains(y) {
                    let i = choose|i: int| 0 <= i < init.len() && init[i] == y;
                    assert(s[i] == y);
                }
                if s.contains(y) {
                    let i = choose|i: int| 0 <= i < s.len() && s[i] == y;
                    if i < init.len() {
                        assert(init[i] == y);
                    }
                }
                assert(s[s.len() - 1] == last);
            }
            if last != x {
                assert(o == oi.push(last));
                if oi.contains(y) {
                    let i = choose|i: int| 0 <= i < oi.len() && oi[i] == y;
                    assert(o[i] == y);
                }
                if o.contains(y) {
                    let i = choose|i: int| 0 <= i < o.len() && o[i] == y;
                    if i < oi.len() {
                        assert(oi[i] == y);
                    }
                }
                assert(o[oi.len() as int] == last);
            } else {
                assert(o == oi);
            }
        }
    }
}

/// A copy of `s` without `x`.
fn without(s: &Vec<IdentityId>, x: &IdentityId) -> (r: Vec<IdentityId>)
    ensures
        r@ == others(s@, *x),
{
    let mut r: Vec<IdentityId> = Vec::new();
    let mut i: usize = 0;
    proof {
        reveal(Seq::filter);
        assert(s@.take(0) =~= Seq::<IdentityId>::empty());
    }
    while i < s.len()
        invariant
            i <= s@.len(),
            r@ == others(s@.take(i as int), *x),
        decreases s@.len() - i,
    {
        proof {
            reveal(Seq::filter);
            assert(s@.take(i + 1).drop_last() =~= s@.take(i as int));
            assert(s@.take(i + 1).last() == s@[i as int]);
        }
        if !s[i].same(x) {
            r.push(s[i]);
        }
        i = i + 1;
    }
    assert(s@.take(i as int) =~= s@);
    r
}

proof fn lemma_take_contains(s: Seq<IdentityId>, i: int)
    requires
        0 <= i < s.len(),
    ensures
        forall|x: IdentityId| #[trigger] s.take(i + 1).contains(x) <==> s.take(i).contains(x) || x == s[i],
{
    let a = s.take(i);
    let b = s.take(i + 1);
    assert forall|x: IdentityId| #[trigger] b.contains(x) <==> a.contains(x) || x == s[i] by {
        if a.contains(x) {
            let j = choose|j: int| 0 <= j < a.len() && a[j] == x;
            assert(b[j] == x);
        }
        assert(b[i] == s[i]);
        if b.contains(x) {
            let j = choose|j: int| 0 <= j < b.len() && b[j] == x;
            if j < i {
                assert(a[j] == x);
            }
        }
    }
}

proof fn lemma_take_set(s: Seq<IdentityId>, i: int)
    requires
        0 <= i < s.len(),
    ensures
        s.take(i + 1).to_set() == s.take(i).to_set().insert(s[i]),
{
    lemma_take_contains(s, i);
    assert(s.take(i + 1).to_set() =~= s.take(i).to_set().insert(s[i])) by {
        assert forall|x: IdentityId| s.take(i + 1).to_set().contains(x) <==> s.take(i).to_set().insert(s[i]).contains(x) by {
            assert(s.take(i + 1).contains(x) <==> s.take(i).contains(x) || x == s[i]);
        }
    }
}

/// Nobody rung afresh is seated or invited yet.
proof fn lemma_fresh_new(c: CallView, to: Seq<IdentityId>)
    ensures
        forall|x: IdentityId| #[trigger]
            fresh_invitees(c, to).contains(x) ==> !c.seats.contains_key(x) && !c.invited.contains(x),
    decreases to.len(),
{
    if to.len() > 0 {
        lemma_fresh_new(c, to.drop_last());
        let before = fresh_invitees(c, to.drop_last());
        let now = fresh_invitees(c, to);
        assert forall|x: IdentityId| #[trigger] now.contains(x) implies !c.seats.contains_key(x) && !c.invited.contains(
            x,
        ) by {
            let i = choose|i: int| 0 <= i < now.len() && now[i] == x;
            if i < before.len() {
                assert(before[i] == x);
                assert(before.contains(x));
            }
        }
    }
}

// ---- Laws ----

/// A solo stage outlives its guests: as long as the opener stays seated,
/// nobody's departure ends it.
pub proof fn law_solo_stage_survives_its_guests(c: CallView, who: IdentityId)
    requires
        c.wf(),
        c.solo_stage,
        c.seats.contains_key(c.initiator),
        c.seats.contains_key(who),
        who != c.initiator,
    ensures
        after_leave(c, who).phase == c.phase,
{
    let left = c.seats.remove(who);
    assert(left.dom().contains(c.initiator));
    if left.dom().len() <= 1 {
        assert(left.dom().finite());
        if left.dom().len() == 0 {
            assert(left.dom() =~= Set::<IdentityId>::empty());
        }
        lemma_one_element(left.dom(), c.initiator);
    }
}

/// The end is final: an ended call takes no new participant, no answer, no
/// invitation, no share, no mute, no forwarder and no second hang-up, and
/// whoever leaves it leaves its ending as it was.
pub proof fn law_ended_call_stays_ended(c: CallView, who: IdentityId, other: IdentityId, to: Seq<IdentityId>)
    requires
        c.wf(),
        c.phase is Ended,
    ensures
        accept_fault(c, who) is Some,
        decline_fault(c, who) is Some,
        invite_fault(c, to) is Some,
        connected_fault(c) is Some,
        join_fault(c, who) is Some,
        hang_up_fault(c) is Some,
        media_fault(c, who) is Some,
        elect_fault(c, who, other) is Some,
        after_leave(c, who).phase == c.phase,
{
}

/// No departure leaves a forwarding role behind that names the leaver.
pub proof fn law_leaver_forwards_nothing(c: CallView, who: IdentityId, sharer: IdentityId)
    requires
        c.wf(),
        after_leave(c, who).forwarders.contains_key(sharer),
    ensures
        sharer != who,
        after_leave(c, who).forwarders[sharer] != who,
{
    assert(!orphaned_by(c, who).contains(sharer));
}

/// The mesh never seats a ninth: at eight, nobody can accept or join.
pub proof fn law_ninth_participant_is_refused(c: CallView, who: IdentityId)
    requires
        c.wf(),
        c.seats.dom().len() >= 8,
    ensures
        c.seats.dom().len() == 8,
        accept_fault(c, who) is Some,
        join_fault(c, who) is Some,
{
}

/// A departure ends a call only if it leaves too few. While two or more stay, the
/// phase is what it was, and no end is told; with one left, the call goes on
/// exactly if that one is the opener of a solo stage.
pub proof fn law_a_departure_ends_only_the_last_talk(c: CallView, who: IdentityId)
    requires
        c.wf(),
        !(c.phase is Ended),
        c.seats.contains_key(who),
    ensures
        leave_fault(c, who) is None,
        c.seats.dom().len() >= 3 ==> after_leave(c, who).phase == c.phase,
        c.seats.dom().len() == 2 ==> (after_leave(c, who).phase == c.phase <==> (c.solo_stage && who
            != c.initiator && c.seats.contains_key(c.initiator))),
        c.seats.dom().len() == 1 ==> after_leave(c, who).phase is Ended,
        after_leave(c, who).phase != c.phase ==> after_leave(c, who).phase == (PhaseView::Ended {
            reason: EndReason::LastParticipantLeft,
        }),
        (exists|i: int|
            0 <= i < leave_events(c, who).len() && (#[trigger] leave_events(c, who)[i]) is CallEnded)
            <==> after_leave(c, who).phase != c.phase,
{
    let left = c.seats.dom().remove(who);
    assert(c.seats.remove(who).dom() =~= left);
    assert(left.len() == c.seats.dom().len() - 1);
    if left.len() == 1 {
        if c.seats.contains_key(c.initiator) && who != c.initiator {
            assert(left.contains(c.initiator));
            lemma_one_element(left, c.initiator);
        } else {
            assert(!left.contains(c.initiator));
            assert(left != set![c.initiator]) by {
                assert(set![c.initiator].contains(c.initiator));
            }
        }
    } else if left.len() == 0 {
        assert(left != set![c.initiator]) by {
            assert(set![c.initiator].contains(c.initiator));
            if left.contains(c.initiator) {
                assert(left.remove(c.initiator).len() == left.len() - 1);
            }
        }
    }
    let events = leave_events(c, who);
    if ends_on_leave(c, who) {
        assert(events[events.len() - 1] is CallEnded);
    }
}

/// Whoever leaves is gone, and nobody else: the others keep their seats and what
/// their media are like, whoever was rung is still waited for, and the first thing
/// told is who left. Where a forwarding role named the leaver, it is told to be
/// cleared; the roles of others stay.
pub proof fn law_only_the_leaver_goes(c: CallView, who: IdentityId, other: IdentityId)
    requires
        c.wf(),
        c.seats.contains_key(who),
        c.seats.dom().len() >= 2,
    ensures
        ({
            let after = after_leave(c, who);
            &&& !after.seats.contains_key(who)
            &&& other != who ==> (after.seats.contains_key(other) <==> c.seats.contains_key(other))
            &&& other != who && c.seats.contains_key(other) ==> after.seats[other] == c.seats[other]
            &&& after.invited == c.invited
            &&& after.id == c.id
            &&& after.initiator == c.initiator
            &&& after.solo_stage == c.solo_stage
            &&& after.forwarders.contains_key(other) <==> c.forwarders.contains_key(other) && other
                != who && c.forwarders[other] != who
            &&& after.forwarders.contains_key(other) ==> after.forwarders[other]
                == c.forwarders[other]
            &&& leave_events(c, who)[0] == (CallEventView::ParticipantLeft { call: c.id, who })
        }),
{
    assert(!sits_alone(c, who)) by {
        if c.seats.dom() == set![who] {
            assert(set![who] =~= Set::<IdentityId>::empty().insert(who));
            assert(set![who].len() == 1);
        }
    }
}

/// Who may leave: whoever is seated, but for the last one of a call that is over.
pub proof fn law_seated_may_leave(c: CallView, who: IdentityId)
    requires
        c.wf(),
    ensures
        !c.seats.contains_key(who) ==> leave_fault(c, who) == Some(
            CallErrorView::Roster(RosterError::NotPresent),
        ),
        c.seats.contains_key(who) && c.seats.dom().len() >= 2 ==> leave_fault(c, who) is None,
        c.seats.contains_key(who) && !(c.phase is Ended) ==> leave_fault(c, who) is None,
{
    if c.seats.dom() == set![who] {
        assert(set![who] =~= Set::<IdentityId>::empty().insert(who));
        assert(set![who].len() == 1);
    }
}

/// Everyone rung can answer: as long as the call is not over and a seat is free,
/// whoever is waited for, and nobody else, can accept; and then sits in it with a
/// fresh microphone, is no longer waited for, and a ring has been answered. Nobody
/// else is moved.
pub proof fn law_the_invited_can_accept(c: CallView, by: IdentityId, other: IdentityId)
    requires
        c.wf(),
    ensures
        accept_fault(c, by) is None <==> {
            &&& !(c.phase is Ended)
            &&& c.invited.contains(by)
            &&& !c.seats.contains_key(by)
            &&& c.seats.dom().len() < 8
        },
        accept_fault(c, by) is None ==> {
            let after = after_accept(c, by);
            &&& after.seats.contains_key(by)
            &&& after.seats[by] == (MediaState {
                mic_muted: false,
                deafened: false,
                sharing_screen: false,
            })
            &&& after.seats.dom().len() == c.seats.dom().len() + 1
            &&& !after.invited.contains(by)
            &&& other != by ==> (after.invited.contains(other) <==> c.invited.contains(other))
            &&& other != by ==> (after.seats.contains_key(other) <==> c.seats.contains_key(other))
            &&& other != by && c.seats.contains_key(other) ==> after.seats[other] == c.seats[other]
            &&& c.phase is Ringing ==> after.phase is Connecting
            &&& !(c.phase is Ringing) ==> after.phase == c.phase
            &&& after.forwarders == c.forwarders
            &&& after.id == c.id
            &&& after.initiator == c.initiator
            &&& after.solo_stage == c.solo_stage
        },
        accept_events(c, by) == seq![
            CallEventView::CallAccepted { call: c.id, by },
            CallEventView::ParticipantJoined { call: c.id, who: by },
        ],
{
    assert(c.seats.insert(by, MediaState::fresh()).dom() =~= c.seats.dom().insert(by));
}

/// Media is established once: a call that connects becomes active, and no other does
/// by that. An answered ring is so two steps from being active.
pub proof fn law_an_answered_ring_becomes_active(c: CallView, by: IdentityId)
    requires
        c.wf(),
        accept_fault(c, by) is None,
    ensures
        c.phase is Ringing ==> connected_fault(after_accept(c, by)) is None && after_connected(
            after_accept(c, by),
        ).phase is Active,
        connected_fault(c) is None <==> c.phase is Connecting,
        after_connected(c).seats == c.seats,
        after_connected(c).invited == c.invited,
        after_connected(c).forwarders == c.forwarders,
{
}

/// A ring goes on until the last one rung has declined, and then ends, as declined;
/// a call that is under way goes on whoever declines. Only the one who declines is
/// no longer waited for, and no seat is touched.
pub proof fn law_a_ring_ends_with_the_last_decline(c: CallView, by: IdentityId, other: IdentityId)
    requires
        c.wf(),
    ensures
        decline_fault(c, by) is None <==> !(c.phase is Ended) && c.invited.contains(by),
        decline_fault(c, by) is None ==> {
            let after = after_decline(c, by);
            let told = decline_events(c, by);
            &&& !after.invited.contains(by)
            &&& other != by ==> (after.invited.contains(other) <==> c.invited.contains(other))
            &&& after.seats == c.seats
            &&& after.forwarders == c.forwarders
            &&& after.solo_stage == c.solo_stage
            &&& !(c.phase is Ringing) ==> after.phase == c.phase
            &&& c.phase is Ringing && other != by && c.invited.contains(other) ==> after.phase is Ringing
                && after.phase->offered_to.contains(other) && !after.phase->offered_to.contains(by)
            &&& c.phase is Ringing && c.invited.len() == 1 ==> after.phase == (PhaseView::Ended {
                reason: EndReason::Declined,
            })
            &&& told[0] == (CallEventView::CallDeclined { call: c.id, by })
            &&& after.phase == c.phase || after.phase is Ringing ==> told.len() == 1
            &&& c.phase is Ringing && c.invited.len() == 1 ==> told == seq![
                CallEventView::CallDeclined { call: c.id, by },
                CallEventView::CallEnded { call: c.id, reason: EndReason::Declined },
            ]
        },
{
    if decline_fault(c, by) is None && c.phase is Ringing {
        let offered_to = c.phase->offered_to;
        lemma_without(offered_to, by);
        let rest = c.invited.remove(by);
        if other != by && c.invited.contains(other) {
            assert(rest.contains(other));
            assert(offered_to.to_set().contains(other));
            assert(others(offered_to, by).contains(other));
        }
        if c.invited.len() == 1 {
            assert(rest.len() == 0);
            assert(rest =~= Set::<IdentityId>::empty());
        }
    }
}

/// The new ones among the named peers are each of them that is neither seated nor
/// waited for, once.
pub proof fn law_fresh_invitees_are_the_new_ones(c: CallView, to: Seq<IdentityId>, x: IdentityId)
    ensures
        fresh_invitees(c, to).contains(x) <==> to.contains(x) && !c.seats.contains_key(x)
            && !c.invited.contains(x),
        fresh_invitees(c, to).no_duplicates(),
        fresh_invitees(c, to).len() <= to.len(),
    decreases to.len(),
{
    if to.len() > 0 {
        let init = to.drop_last();
        let last = to.last();
        law_fresh_invitees_are_the_new_ones(c, init, x);
        law_fresh_invitees_are_the_new_ones(c, init, last);
        let before = fresh_invitees(c, init);
        let now = fresh_invitees(c, to);
        assert(to.contains(x) <==> init.contains(x) || x == last) by {
            if init.contains(x) {
                let i = choose|i: int| 0 <= i < init.len() && init[i] == x;
                assert(to[i] == x);
            }
            if to.contains(x) {
                let i = choose|i: int| 0 <= i < to.len() && to[i] == x;
                if i < init.len() {
                    assert(init[i] == x);
                }
            }
            assert(to[to.len() - 1] == last);
        }
        if now != before {
            assert(now == before.push(last));
            assert(now[before.len() as int] == last);
            if before.contains(x) {
                let i = choose|i: int| 0 <= i < before.len() && before[i] == x;
                assert(now[i] == x);
            }
            if now.contains(x) {
                let i = choose|i: int| 0 <= i < now.len() && now[i] == x;
                if i < before.len() {
                    assert(before[i] == x);
                }
            }
        }
    } else {
        assert(!to.contains(x));
    }
}

/// A call under way can ring more: whoever among the named is new is rung, if there
/// is anyone new and a seat for all that are waited for; everyone rung before stays
/// so, nobody seated is rung, and nothing else changes.
pub proof fn law_a_call_under_way_can_ring_more(c: CallView, to: Seq<IdentityId>, x: IdentityId)
    requires
        c.wf(),
    ensures
        invite_fault(c, to) is None <==> {
            &&& c.phase is Connecting || c.phase is Active
            &&& exists|y: IdentityId|
                #[trigger] to.contains(y) && !c.seats.contains_key(y) && !c.invited.contains(y)
            &&& c.seats.dom().len() + c.invited.len() + fresh_invitees(c, to).len() <= 8
        },
        ({
            let after = after_invite(c, to);
            &&& after.invited.contains(x) <==> c.invited.contains(x) || (to.contains(x)
                && !c.seats.contains_key(x))
            &&& after.seats == c.seats
            &&& after.phase == c.phase
            &&& after.forwarders == c.forwarders
            &&& after.solo_stage == c.solo_stage
        }),
        invite_fault(c, to) is None && to.contains(x) && !c.seats.contains_key(x) ==> accept_fault(
            after_invite(c, to),
            x,
        ) is None,
{
    let fresh = fresh_invitees(c, to);
    law_fresh_invitees_are_the_new_ones(c, to, x);
    if fresh.len() > 0 {
        law_fresh_invitees_are_the_new_ones(c, to, fresh[0]);
        assert(fresh.contains(fresh[0]));
        assert(to.contains(fresh[0]));
    }
    if exists|y: IdentityId|
        #[trigger] to.contains(y) && !c.seats.contains_key(y) && !c.invited.contains(y) {
        let y = choose|y: IdentityId|
            #[trigger] to.contains(y) && !c.seats.contains_key(y) && !c.invited.contains(y);
        law_fresh_invitees_are_the_new_ones(c, to, y);
        assert(fresh.contains(y));
    }
    assert(fresh.to_set().contains(x) <==> fresh.contains(x));
}

/// A running call can be joined while a seat is free: by anyone who does not sit in
/// it yet, whether or not they were rung. The joiner sits in it afterwards with a
/// fresh microphone, and nobody else is moved.
pub proof fn law_a_running_call_can_be_joined(c: CallView, who: IdentityId, other: IdentityId)
    requires
        c.wf(),
    ensures
        join_fault(c, who) is None <==> {
            &&& c.phase is Connecting || c.phase is Active
            &&& !c.seats.contains_key(who)
            &&& c.seats.dom().len() < 8
        },
        join_fault(c, who) is None ==> {
            let after = after_join(c, who);
            &&& after.seats.contains_key(who)
            &&& after.seats[who] == (MediaState {
                mic_muted: false,
                deafened: false,
                sharing_screen: false,
            })
            &&& after.seats.dom().len() == c.seats.dom().len() + 1
            &&& other != who ==> (after.seats.contains_key(other) <==> c.seats.contains_key(other))
            &&& other != who && c.seats.contains_key(other) ==> after.seats[other] == c.seats[other]
            &&& after.phase == c.phase
            &&& after.forwarders == c.forwarders
            &&& !after.invited.contains(who)
            &&& other != who ==> (after.invited.contains(other) <==> c.invited.contains(other))
        },
{
    assert(c.seats.insert(who, MediaState::fresh()).dom() =~= c.seats.dom().insert(who));
}

/// To join and to leave at once changes nothing for those who stay: with two or more
/// of them, the call goes on as it was.
pub proof fn law_a_short_visit_changes_nothing(c: CallView, who: IdentityId)
    requires
        c.wf(),
        join_fault(c, who) is None,
        c.seats.dom().len() >= 2,
        !c.invited.contains(who),
    ensures
        after_leave(after_join(c, who), who).seats == c.seats,
        after_leave(after_join(c, who), who).phase == c.phase,
        after_leave(after_join(c, who), who).invited == c.invited,
        after_leave(after_join(c, who), who).forwarders == c.forwarders,
{
    let there = after_join(c, who);
    assert(there.seats.dom() =~= c.seats.dom().insert(who));
    assert(there.seats.remove(who) =~= c.seats);
    assert(!sits_alone(there, who)) by {
        if there.seats.dom() == set![who] {
            assert(set![who] =~= Set::<IdentityId>::empty().insert(who));
            assert(set![who].len() == 1);
        }
    }
    assert(there.invited =~= c.invited);
    assert(orphaned_by(there, who) =~= Set::<IdentityId>::empty()) by {
        assert forall|s: IdentityId| !orphaned_by(there, who).contains(s) by {
            if c.forwarders.contains_key(s) {
                assert(c.may_forward(s, c.forwarders[s]));
            }
        }
    }
    assert(c.forwarders.remove_keys(Set::<IdentityId>::empty()) =~= c.forwarders);
}

/// Any call can be hung up until it is over, whatever its phase, and is over then:
/// nobody forwards anything any more, and it is told once.
pub proof fn law_any_running_call_can_be_hung_up(c: CallView)
    ensures
        hang_up_fault(c) is None <==> !(c.phase is Ended),
        after_hang_up(c).phase == (PhaseView::Ended { reason: EndReason::HungUp }),
        after_hang_up(c).seats == c.seats,
        after_hang_up(c).forwarders == Map::<IdentityId, IdentityId>::empty(),
        hang_up_fault(after_hang_up(c)) is Some,
        hang_up_event(c) == (CallEventView::CallEnded { call: c.id, reason: EndReason::HungUp }),
{
}

/// Whoever sits in an active call can mute and share, and nobody else: it changes
/// only what they asked for, only for them, and tells just that. The roster and the
/// phase stay. A share that stops takes its forwarder with it; one that starts has
/// none on its account.
pub proof fn law_media_is_ones_own(c: CallView, who: IdentityId, on: bool, other: IdentityId)
    requires
        c.wf(),
    ensures
        media_fault(c, who) is None <==> c.phase is Active && c.seats.contains_key(who),
        media_fault(c, who) is None ==> {
            let muted = after_mic_muted(c, who, on);
            let shared = after_screen_sharing(c, who, on);
            &&& muted.seats[who] == (MediaState { mic_muted: on, ..c.seats[who] })
            &&& shared.seats[who] == (MediaState { sharing_screen: on, ..c.seats[who] })
            &&& muted.seats.dom() == c.seats.dom()
            &&& shared.seats.dom() == c.seats.dom()
            &&& other != who ==> muted.seats[other] == c.seats[other] && shared.seats[other]
                == c.seats[other]
            &&& muted.phase == c.phase && shared.phase == c.phase
            &&& muted.invited == c.invited && shared.invited == c.invited
            &&& muted.forwarders == c.forwarders
            &&& on ==> shared.forwarders == c.forwarders
            &&& !on ==> !shared.forwarders.contains_key(who)
            &&& other != who ==> (shared.forwarders.contains_key(other)
                <==> c.forwarders.contains_key(other))
            &&& other != who && c.forwarders.contains_key(other) ==> shared.forwarders[other]
                == c.forwarders[other]
        },
        mic_muted_event(c, who, true) == (CallEventView::MicMuted { call: c.id, who }),
        mic_muted_event(c, who, false) == (CallEventView::MicUnmuted { call: c.id, who }),
        screen_sharing_events(c, who, true) == seq![
            CallEventView::ScreenShareStarted { call: c.id, who },
        ],
        screen_sharing_events(c, who, false)[0] == (CallEventView::ScreenShareStopped {
            call: c.id,
            who,
        }),
        screen_sharing_events(c, who, false).len() == 1 + if c.forwarders.contains_key(who) {
            1int
        } else {
            0
        },
        c.forwarders.contains_key(who) ==> screen_sharing_events(c, who, false)[1]
            == (CallEventView::ForwarderCleared { call: c.id, sharer: who }),
{
    if media_fault(c, who) is None {
        assert(after_mic_muted(c, who, on).seats.dom() =~= c.seats.dom());
        assert(after_screen_sharing(c, who, on).seats.dom() =~= c.seats.dom());
    }
}

/// Anyone seated can forward for anyone else who shares in an active call, and
/// nobody can otherwise. An election touches only that sharer's entry.
pub proof fn law_anyone_seated_can_forward(
    c: CallView,
    sharer: IdentityId,
    forwarder: IdentityId,
    other: IdentityId,
)
    ensures
        elect_fault(c, sharer, forwarder) is None <==> {
            &&& c.phase is Active
            &&& c.seats.contains_key(sharer)
            &&& c.seats[sharer].sharing_screen
            &&& c.seats.contains_key(forwarder)
            &&& forwarder != sharer
        },
        after_elect(c, sharer, forwarder).forwarders.contains_key(sharer),
        after_elect(c, sharer, forwarder).forwarders[sharer] == forwarder,
        other != sharer ==> (after_elect(c, sharer, forwarder).forwarders.contains_key(other)
            <==> c.forwarders.contains_key(other)),
        other != sharer && c.forwarders.contains_key(other) ==> after_elect(
            c,
            sharer,
            forwarder,
        ).forwarders[other] == c.forwarders[other],
        after_elect(c, sharer, forwarder).seats == c.seats,
        after_elect(c, sharer, forwarder).phase == c.phase,
{
}

/// With two or more to choose from, somebody is elected: the lowest, and nobody
/// comes before them. With fewer, nobody is.
pub proof fn law_the_lowest_is_elected(candidates: Seq<IdentityId>, choice: Option<IdentityId>)
    requires
        lowest_of(candidates, choice),
    ensures
        choice is Some <==> candidates.len() >= 2,
        choice matches Some(id) ==> candidates.contains(id) && forall|x: IdentityId|
            #[trigger] candidates.contains(x) ==> x == id || id.before(x),
{
    if choice is Some {
        let id = choice->0;
        assert forall|x: IdentityId| #[trigger] candidates.contains(x) implies x == id || id.before(x) by {
            IdentityId::lemma_total(x, id);
        }
    }
}

/// Why a seat is refused: the sitter has one, or all eight are taken.
pub proof fn law_refusals_tell_why(c: CallView, who: IdentityId)
    requires
        c.wf(),
        c.phase is Connecting || c.phase is Active,
    ensures
        c.seats.contains_key(who) ==> join_fault(c, who) == Some(
            CallErrorView::Roster(RosterError::AlreadyPresent),
        ),
        !c.seats.contains_key(who) && c.seats.dom().len() == 8 ==> join_fault(c, who) == Some(
            CallErrorView::Roster(RosterError::Full),
        ),
        !c.invited.contains(who) ==> accept_fault(c, who) == Some(CallErrorView::NotInvited)
            && decline_fault(c, who) == Some(CallErrorView::NotInvited),
{
}

/// Every share that loses its forwarder by a departure is told, and no other: whoever's
/// forwarder left, and the leaver's own if it had one.
pub proof fn law_orphaned_shares_are_told(c: CallView, who: IdentityId, sharer: IdentityId)
    requires
        c.wf(),
    ensures
        leave_events(c, who).contains(CallEventView::ForwarderCleared { call: c.id, sharer }) <==> {
            &&& c.forwarders.contains_key(sharer)
            &&& sharer == who || c.forwarders[sharer] == who
        },
{
    let orphans = orphaned_by(c, who);
    assert(orphans.subset_of(c.seats.dom())) by {
        assert forall|s: IdentityId| orphans.contains(s) implies c.seats.dom().contains(s) by {
            assert(c.may_forward(s, c.forwarders[s]));
        }
    }
    vstd::set_lib::lemma_len_subset(orphans, c.seats.dom());
    crate::sorted::law_in_order_lists_each_once(orphans, sharer);
    let listed = in_order(orphans);
    let events = leave_events(c, who);
    let event = CallEventView::ForwarderCleared { call: c.id, sharer };
    if listed.contains(sharer) {
        let i = choose|i: int| 0 <= i < listed.len() && listed[i] == sharer;
        assert(events[i + 1] == event);
    }
    if events.contains(event) {
        let j = choose|j: int| 0 <= j < events.len() && events[j] == event;
        assert(1 <= j <= listed.len());
        assert(listed[j - 1] == sharer);
    }
}

/// A list without somebody holds everyone else of it.
pub proof fn law_others_are_all_but_one(s: Seq<IdentityId>, x: IdentityId, y: IdentityId)
    ensures
        others(s, x).contains(y) <==> s.contains(y) && y != x,
{
    lemma_without(s, x);
}

/// A refusal by the phase names what was asked and the phase it was asked in.
pub proof fn law_refusals_name_the_phase(c: CallView, action: Seq<char>)
    ensures
        refused(c, action) matches CallErrorView::Transition { action: asked, state } && asked
            == action && state == match c.phase {
            PhaseView::Ringing { .. } => "ringing"@,
            PhaseView::Connecting => "connecting"@,
            PhaseView::Active => "active"@,
            PhaseView::Ended { .. } => "ended"@,
        },
        !(c.phase is Connecting) ==> connected_fault(c) == Some(refused(c, "connected"@)),
        c.phase is Ended ==> hang_up_fault(c) == Some(refused(c, "hang_up"@)),
{
}

/// Every event of a list is reported, in order, as what it is.
pub proof fn law_every_call_event_is_reported(list: Seq<CallEvent>, i: int)
    ensures
        call_event_views(list).len() == list.len(),
        0 <= i < list.len() ==> call_event_views(list)[i] == list[i]@,
{
}

} // verus!

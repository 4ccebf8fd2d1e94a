//! Call use cases: the [`Call`] aggregate driven by signed signaling between
//! peers. The mesh-size invariant and the lifecycle live in the aggregate.

use vstd::prelude::*;

use crate::calls::{
    accept_events, accept_fault, after_accept, after_connected, after_decline, after_hang_up,
    after_invite, after_join, after_leave, after_mic_muted, after_screen_sharing, call_event_views,
    connected_fault, decline_events, decline_fault, fresh_invitees, hang_up_event, hang_up_fault,
    invite_fault, join_fault, leave_events, leave_fault, media_fault, mic_muted_event, others,
    screen_sharing_events, Call, CallError, CallErrorView, CallEvent, CallEventView, CallId,
    CallPhase, CallView, MediaState, PhaseView,
};
use crate::order::Key;
use crate::ports::{CallAction, TransportError};
use crate::shared::IdentityId;
use crate::sorted::{copy_keys, in_order, SortedMap};

use super::identity::{IdentityService, ProfileView};

verus! {

#[derive(Debug, Clone, PartialEq, Eq)]
pub enum CallServiceError {
    UnknownCall,
    Call(CallError),
    Transport(TransportError),
}

/// What a call-service error says.
pub enum CallServiceErrorView {
    UnknownCall,
    Call(CallErrorView),
    /// An adapter failed.
    Adapter,
}

impl View for CallServiceError {
    type V = CallServiceErrorView;

    open spec fn view(&self) -> CallServiceErrorView {
        match *self {
            CallServiceError::UnknownCall => CallServiceErrorView::UnknownCall,
            CallServiceError::Call(e) => CallServiceErrorView::Call(e@),
            CallServiceError::Transport(_) => CallServiceErrorView::Adapter,
        }
    }
}

/// Read-model of a call for frontends.
#[derive(Debug, Clone, PartialEq, Eq)]
pub struct CallSnapshot {
    pub id: CallId,
    pub initiator: IdentityId,
    pub phase: CallPhase,
    pub participants: Vec<(IdentityId, MediaState)>,
    /// Offered-but-not-joined: rung (initially or mid-call) and yet to
    /// answer. Frontends render these as "ringing" and must not re-ring.
    pub invited: Vec<IdentityId>,
}

/// What an action of ours comes to: events for frontends, and the word to
/// send to peers.
#[derive(Debug)]
pub struct Outgoing {
    pub events: Vec<CallEvent>,
    pub to: Vec<IdentityId>,
    pub action: CallAction,
}

/// What a peer's action comes to.
#[derive(Debug)]
pub struct Incoming {
    pub events: Vec<CallEvent>,
    /// The call's media tap is no longer of use.
    pub drop_tap: bool,
}

/// What the call service holds.
pub struct CallsView {
    pub calls: Map<CallId, CallView>,
    pub keys: Map<CallId, [u8; 32]>,
}

impl CallsView {
    /// Everything as it was, but for the call under `id`.
    pub open spec fn with(self, id: CallId, c: CallView) -> CallsView {
        CallsView { calls: self.calls.insert(id, c), ..self }
    }
}

/// The error of a result, if any.
pub open spec fn error_of<T>(r: Result<T, CallServiceError>) -> Option<CallServiceErrorView> {
    match r {
        Ok(_) => None,
        Err(e) => Some(e@),
    }
}

/// The call under `id` was driven to `next`, or refused with `fault`, or there
/// is none.
pub open spec fn driven(
    before: CallsView,
    after: CallsView,
    id: CallId,
    fault: Option<CallErrorView>,
    next: CallView,
    error: Option<CallServiceErrorView>,
) -> bool {
    if !before.calls.contains_key(id) {
        error == Some(CallServiceErrorView::UnknownCall) && after == before
    } else if fault is Some {
        error == Some(CallServiceErrorView::Call(fault->0)) && after == before
    } else {
        error is None && after == before.with(id, next)
    }
}

/// A call in which `initiator` rings `to`: with nobody to ring, a stage of
/// their own.
pub open spec fn rung(id: CallId, initiator: IdentityId, to: Seq<IdentityId>) -> CallView {
    CallView {
        id,
        initiator,
        seats: Map::<IdentityId, MediaState>::empty().insert(initiator, MediaState::fresh()),
        invited: to.to_set(),
        solo_stage: to.len() == 0,
        forwarders: Map::<IdentityId, IdentityId>::empty(),
        phase: if to.len() == 0 {
            PhaseView::Active
        } else {
            PhaseView::Ringing { offered_to: to }
        },
    }
}

pub open spec fn ring_event(id: CallId, initiator: IdentityId, to: Seq<IdentityId>) -> CallEventView {
    if to.len() == 0 {
        CallEventView::CallOpened { call: id, by: initiator }
    } else {
        CallEventView::CallOffered { call: id, by: initiator, to }
    }
}

/// Everyone seated but `me`, in id order.
pub open spec fn peers_of(c: CallView, me: IdentityId) -> Seq<IdentityId> {
    others(in_order(c.seats.dom()), me)
}

/// What becomes of a peer's action.
pub struct IncomingView {
    pub calls: CallsView,
    pub events: Seq<CallEventView>,
    pub drop_tap: bool,
}

/// The calls as they were, and nothing to tell.
pub open spec fn unmoved(v: CallsView) -> IncomingView {
    IncomingView { calls: v, events: seq![], drop_tap: false }
}

/// A peer hung up on a call we know. Who was never seated but is invited
/// declines, and must not tear down a call others are still in; only a peer
/// neither seated nor invited ends our copy outright.
pub open spec fn hung_up_by(c: CallView, from: IdentityId) -> (CallView, Seq<CallEventView>) {
    if leave_fault(c, from) is None {
        (after_leave(c, from), leave_events(c, from))
    } else if decline_fault(c, from) is None {
        (after_decline(c, from), decline_events(c, from))
    } else if hang_up_fault(c) is None {
        (after_hang_up(c), seq![hang_up_event(c)])
    } else {
        (c, seq![])
    }
}

/// An accept on a call we know: whoever picks up first also connects the call.
pub open spec fn accepted_by(c: CallView, from: IdentityId) -> CallView {
    let next = after_accept(c, from);
    if connected_fault(next) is None {
        after_connected(next)
    } else {
        next
    }
}

/// What becomes of `action`, sent by `from` about call `id`: nothing, if we
/// block them.
pub open spec fn incoming(
    v: CallsView,
    profile: ProfileView,
    from: IdentityId,
    id: CallId,
    action: CallAction,
) -> IncomingView {
    if profile.blocks(from) {
        unmoved(v)
    } else {
        admitted(v, profile.id, from, id, action)
    }
}

/// What becomes of `action`, sent by `from` about call `id`, on the node of `me`.
pub open spec fn admitted(
    v: CallsView,
    me: IdentityId,
    from: IdentityId,
    id: CallId,
    action: CallAction,
) -> IncomingView {
    let known = v.calls.contains_key(id);
    let c = v.calls[id];
    match action {
        // A fresh offer, or a re-ring of a call we declined or left earlier:
        // its ended aggregate is superseded.
        CallAction::Offer { media_key, .. } => {
            if !known || c.phase is Ended {
                IncomingView {
                    calls: CallsView {
                        calls: v.calls.insert(id, rung(id, from, seq![me])),
                        keys: v.keys.insert(id, media_key),
                    },
                    events: seq![ring_event(id, from, seq![me])],
                    drop_tap: false,
                }
            } else {
                unmoved(v)
            }
        },
        CallAction::Accept => {
            if known && accept_fault(c, from) is None {
                IncomingView {
                    calls: v.with(id, accepted_by(c, from)),
                    events: accept_events(c, from),
                    drop_tap: false,
                }
            } else {
                unmoved(v)
            }
        },
        CallAction::Decline => {
            if known && decline_fault(c, from) is None {
                IncomingView {
                    calls: v.with(id, after_decline(c, from)),
                    events: decline_events(c, from),
                    drop_tap: false,
                }
            } else {
                unmoved(v)
            }
        },
        // The media tap lives as long as the call does: a single participant
        // leaving must not silence it.
        CallAction::HangUp => {
            if known {
                let (next, events) = hung_up_by(c, from);
                IncomingView { calls: v.with(id, next), events, drop_tap: next.phase is Ended }
            } else {
                IncomingView { calls: v, events: seq![], drop_tap: true }
            }
        },
        CallAction::ScreenShare { active } => {
            if known && media_fault(c, from) is None {
                IncomingView {
                    calls: v.with(id, after_screen_sharing(c, from, active)),
                    events: screen_sharing_events(c, from, active),
                    drop_tap: false,
                }
            } else {
                unmoved(v)
            }
        },
        CallAction::Mute { active } => {
            if known && media_fault(c, from) is None {
                IncomingView {
                    calls: v.with(id, after_mic_muted(c, from, active)),
                    events: seq![mic_muted_event(c, from, active)],
                    drop_tap: false,
                }
            } else {
                unmoved(v)
            }
        },
    }
}

/// What stored calls hold.
pub open spec fn call_views(m: Map<CallId, Call>) -> Map<CallId, CallView> {
    Map::new(|id: CallId| m.contains_key(id), |id: CallId| m[id]@)
}

/// The calls we know of, and the keys of their media.
pub struct CallService {
    calls: SortedMap<CallId, Call>,
    call_keys: SortedMap<CallId, [u8; 32]>,
}

impl View for CallService {
    type V = CallsView;

    closed spec fn view(&self) -> CallsView {
        CallsView { calls: call_views(self.calls@), keys: self.call_keys@ }
    }
}

/// Everyone seated but `me`, in id order.
fn seated_peers(call: &Call, me: IdentityId) -> (r: Vec<IdentityId>)
    requires
        call.wf(),
    ensures
        r@ == peers_of(call@, me),
{
    let members: Vec<(IdentityId, MediaState)> = call.roster().members();
    let ghost ids = members@.map_values(|e: (IdentityId, MediaState)| e.0);
    let mut out: Vec<IdentityId> = Vec::new();
    let mut i: usize = 0;
    proof {
        reveal(Seq::filter);
        assert(ids.take(0) =~= Seq::<IdentityId>::empty());
    }
    while i < members.len()
        invariant
            i <= members@.len(),
            ids == members@.map_values(|e: (IdentityId, MediaState)| e.0),
            out@ == others(ids.take(i as int), me),
        decreases members@.len() - i,
    {
        let who: IdentityId = members[i].0;
        proof {
            reveal(Seq::filter);
            assert(ids.take(i + 1).drop_last() =~= ids.take(i as int));
            assert(ids.take(i + 1).last() == who);
        }
        if !who.same(&me) {
            out.push(who);
        }
        i = i + 1;
    }
    assert(ids.take(i as int) =~= ids);
    out
}

/// Everyone seated, in id order.
fn seated(call: &Call) -> (r: Vec<IdentityId>)
    requires
        call.wf(),
    ensures
        r@ == in_order(call@.seats.dom()),
{
    let members: Vec<(IdentityId, MediaState)> = call.roster().members();
    let mut out: Vec<IdentityId> = Vec::new();
    let mut i: usize = 0;
    while i < members.len()
        invariant
            i <= members@.len(),
            out@.len() == i,
            forall|j: int| 0 <= j < i ==> (#[trigger] out@[j]) == members@[j].0,
        decreases members@.len() - i,
    {
        out.push(members[i].0);
        i = i + 1;
    }
    assert(out@ =~= members@.map_values(|e: (IdentityId, MediaState)| e.0));
    out
}

/// A list of one event.
fn just(event: CallEvent) -> (r: Vec<CallEvent>)
    ensures
        call_event_views(r@) == seq![event@],
{
    let mut r: Vec<CallEvent> = Vec::new();
    r.push(event);
    assert(call_event_views(r@) =~= seq![event@]);
    r
}

impl CallService {
    /// Each call stands under its own id.
    pub closed spec fn wf(&self) -> bool {
        &&& self.calls.wf()
        &&& self.call_keys.wf()
        &&& forall|id: CallId| #[trigger]
            self.calls@.contains_key(id) ==> self.calls@[id].wf() && self.calls@[id]@.id == id
    }

    pub fn new() -> (r: CallService)
        ensures
            r.wf(),
            r@ == (CallsView {
                calls: Map::<CallId, CallView>::empty(),
                keys: Map::<CallId, [u8; 32]>::empty(),
            }),
    {
        let r = CallService { calls: SortedMap::new(), call_keys: SortedMap::new() };
        assert(r@.calls =~= Map::<CallId, CallView>::empty());
        r
    }

    /// At most the call under `id` differs from before.
    proof fn lemma_one_changed(&self, before: Map<CallId, Call>, id: CallId)
        requires
            self.calls@ == before || self.calls@ == before.insert(id, self.calls@[id]),
        ensures
            self.calls@.contains_key(id) ==> call_views(self.calls@) == call_views(before).insert(
                id,
                self.calls@[id]@,
            ),
            before.contains_key(id) && self.calls@[id]@ == before[id]@ ==> call_views(self.calls@)
                == call_views(before),
    {
        assert(self.calls@.contains_key(id) ==> call_views(self.calls@) =~= call_views(
            before,
        ).insert(id, self.calls@[id]@));
        assert(before.contains_key(id) && self.calls@[id]@ == before[id]@ ==> call_views(
            self.calls@,
        ) =~= call_views(before));
    }

    /// Ring one or more peers, or nobody: an empty list opens a solo stage,
    /// active immediately with only us, peers rung later via
    /// [`CallService::invite`]. The mesh cap (8) is enforced by the roster as
    /// participants actually join.
    pub fn start_call(
        &mut self,
        me: IdentityId,
        id: CallId,
        media_key: [u8; 32],
        offered_to: Vec<IdentityId>,
    ) -> (r: Outgoing)
        requires
            old(self).wf(),
        ensures
            final(self).wf(),
            final(self)@ == (CallsView {
                calls: old(self)@.calls.insert(id, rung(id, me, offered_to@)),
                keys: old(self)@.keys.insert(id, media_key),
            }),
            call_event_views(r.events@) == seq![ring_event(id, me, offered_to@)],
            r.to@ == offered_to@,
            r.action matches CallAction::Offer { participants, media_key: key } && participants@
                == seq![me] && key == media_key,
    {
        let to: Vec<IdentityId> = copy_keys(&offered_to);
        let (call, event) = Call::offer(id, me, offered_to);
        let ghost before = self.calls@;
        self.calls.insert(id, call);
        self.call_keys.insert(id, media_key);
        proof {
            self.lemma_one_changed(before, id);
        }
        let mut participants: Vec<IdentityId> = Vec::new();
        participants.push(me);
        assert(participants@ =~= seq![me]);
        Outgoing { events: just(event), to, action: CallAction::Offer { participants, media_key } }
    }

    /// The AEAD key protecting this call's media frames.
    pub fn media_key(&self, id: &CallId) -> (r: Option<[u8; 32]>)
        requires
            self.wf(),
        ensures
            match r {
                Some(key) => self@.keys.contains_key(*id) && key == self@.keys[*id],
                None => !self@.keys.contains_key(*id),
            },
    {
        match self.call_keys.get(id) {
            Some(key) => Some(*key),
            None => None,
        }
    }

    /// Ring more peers into an ongoing call. Each fresh invitee gets the same
    /// offer as an initial ring, carrying the call's existing media key.
    pub fn invite(&mut self, me: IdentityId, id: CallId, peers: Vec<IdentityId>) -> (r: Result<
        Outgoing,
        CallServiceError,
    >)
        requires
            old(self).wf(),
        ensures
            final(self).wf(),
            if !old(self)@.keys.contains_key(id) {
                error_of(r) == Some(CallServiceErrorView::UnknownCall) && final(self)@ == old(self)@
            } else {
                let c = old(self)@.calls[id];
                &&& driven(
                    old(self)@,
                    final(self)@,
                    id,
                    invite_fault(c, peers@),
                    after_invite(c, peers@),
                    error_of(r),
                )
                &&& r matches Ok(out) ==> {
                    &&& call_event_views(out.events@) == seq![
                        CallEventView::CallInvited {
                            call: id,
                            by: me,
                            to: fresh_invitees(c, peers@),
                        },
                    ]
                    &&& out.to@ == fresh_invitees(c, peers@)
                    &&& out.action matches CallAction::Offer { participants, media_key }
                        && participants@ == in_order(c.seats.dom()) && media_key
                        == old(self)@.keys[id]
                }
            },
    {
        let media_key: [u8; 32] = match self.media_key(&id) {
            Some(key) => key,
            None => {
                return Err(CallServiceError::UnknownCall);
            },
        };
        let ghost before = self.calls@;
        let (event, participants) = match self.calls.get_mut(&id) {
            None => {
                return Err(CallServiceError::UnknownCall);
            },
            Some(call) => {
                let participants: Vec<IdentityId> = seated(call);
                let event = call.invite(me, peers.as_slice());
                (event, participants)
            },
        };
        proof {
            self.lemma_one_changed(before, id);
        }
        match event {
            Err(e) => Err(CallServiceError::Call(e)),
            Ok(event) => {
                let to: Vec<IdentityId> = match &event {
                    CallEvent::CallInvited { to, .. } => copy_keys(to),
                    _ => Vec::new(),
                };
                Ok(
                    Outgoing {
                        events: just(event),
                        to,
                        action: CallAction::Offer { participants, media_key },
                    },
                )
            },
        }
    }

    /// Accept a call that was offered to us. Where the call cannot connect
    /// then, the refusal comes after we took the seat.
    pub fn accept_incoming(&mut self, me: IdentityId, id: CallId) -> (r: Result<
        Outgoing,
        CallServiceError,
    >)
        requires
            old(self).wf(),
        ensures
            final(self).wf(),
            ({
                let c = old(self)@.calls[id];
                let seated = after_accept(c, me);
                if old(self)@.calls.contains_key(id) && accept_fault(c, me) is None
                    && connected_fault(seated) is Some {
                    &&& error_of(r) == Some(CallServiceErrorView::Call(connected_fault(seated)->0))
                    &&& final(self)@ == old(self)@.with(id, seated)
                } else {
                    &&& driven(
                        old(self)@,
                        final(self)@,
                        id,
                        accept_fault(c, me),
                        after_connected(seated),
                        error_of(r),
                    )
                    &&& r matches Ok(out) ==> {
                        &&& call_event_views(out.events@) == accept_events(c, me)
                        &&& out.to@ == seq![c.initiator]
                        &&& out.action == CallAction::Accept
                    }
                }
            }),
    {
        let ghost before = self.calls@;
        let (events, initiator) = match self.calls.get_mut(&id) {
            None => {
                return Err(CallServiceError::UnknownCall);
            },
            Some(call) => {
                let events = match call.accept(me) {
                    Err(e) => Err(CallServiceError::Call(e)),
                    Ok(events) => match call.connected() {
                        Err(e) => Err(CallServiceError::Call(e)),
                        Ok(_) => Ok(events),
                    },
                };
                (events, call.initiator())
            },
        };
        proof {
            self.lemma_one_changed(before, id);
        }
        match events {
            Err(e) => Err(e),
            Ok(events) => {
                let mut to: Vec<IdentityId> = Vec::new();
                to.push(initiator);
                assert(to@ =~= seq![initiator]);
                Ok(Outgoing { events, to, action: CallAction::Accept })
            },
        }
    }

    /// Decline a call that was offered to us.
    pub fn decline_incoming(&mut self, me: IdentityId, id: CallId) -> (r: Result<
        Outgoing,
        CallServiceError,
    >)
        requires
            old(self).wf(),
        ensures
            final(self).wf(),
            ({
                let c = old(self)@.calls[id];
                &&& driven(
                    old(self)@,
                    final(self)@,
                    id,
                    decline_fault(c, me),
                    after_decline(c, me),
                    error_of(r),
                )
                &&& r matches Ok(out) ==> {
                    &&& call_event_views(out.events@) == decline_events(c, me)
                    &&& out.to@ == seq![c.initiator]
                    &&& out.action == CallAction::Decline
                }
            }),
    {
        let ghost before = self.calls@;
        let (events, initiator) = match self.calls.get_mut(&id) {
            None => {
                return Err(CallServiceError::UnknownCall);
            },
            Some(call) => {
                let initiator: IdentityId = call.initiator();
                (call.decline(me), initiator)
            },
        };
        proof {
            self.lemma_one_changed(before, id);
        }
        match events {
            Err(e) => Err(CallServiceError::Call(e)),
            Ok(events) => {
                let mut to: Vec<IdentityId> = Vec::new();
                to.push(initiator);
                assert(to@ =~= seq![initiator]);
                Ok(Outgoing { events, to, action: CallAction::Decline })
            },
        }
    }

    /// Hang up: end locally and tell every other participant. The media tap
    /// goes with the call.
    pub fn hang_up_all(&mut self, me: IdentityId, id: CallId) -> (r: Result<
        Outgoing,
        CallServiceError,
    >)
        requires
            old(self).wf(),
        ensures
            final(self).wf(),
            ({
                let c = old(self)@.calls[id];
                &&& driven(
                    old(self)@,
                    final(self)@,
                    id,
                    hang_up_fault(c),
                    after_hang_up(c),
                    error_of(r),
                )
                &&& r matches Ok(out) ==> {
                    &&& call_event_views(out.events@) == seq![hang_up_event(c)]
                    &&& out.to@ == peers_of(c, me)
                    &&& out.action == (CallAction::HangUp)
                }
            }),
    {
        let ghost before = self.calls@;
        let (told, to) = match self.calls.get_mut(&id) {
            None => {
                return Err(CallServiceError::UnknownCall);
            },
            Some(call) => {
                let to: Vec<IdentityId> = seated_peers(call, me);
                (call.hang_up(), to)
            },
        };
        proof {
            self.lemma_one_changed(before, id);
        }
        match told {
            Err(e) => Err(CallServiceError::Call(e)),
            Ok(told) => Ok(
                Outgoing { events: just(told), to, action: CallAction::HangUp },
            ),
        }
    }

    /// Toggle our screen share and tell the call.
    pub fn share_screen(&mut self, me: IdentityId, id: CallId, active: bool) -> (r: Result<
        Outgoing,
        CallServiceError,
    >)
        requires
            old(self).wf(),
        ensures
            final(self).wf(),
            ({
                let c = old(self)@.calls[id];
                &&& driven(
                    old(self)@,
                    final(self)@,
                    id,
                    media_fault(c, me),
                    after_screen_sharing(c, me, active),
                    error_of(r),
                )
                &&& r matches Ok(out) ==> {
                    &&& call_event_views(out.events@) == screen_sharing_events(c, me, active)
                    &&& out.to@ == peers_of(c, me)
                    &&& out.action == (CallAction::ScreenShare { active })
                }
            }),
    {
        let ghost before = self.calls@;
        let (told, to) = match self.calls.get_mut(&id) {
            None => {
                return Err(CallServiceError::UnknownCall);
            },
            Some(call) => {
                let to: Vec<IdentityId> = seated_peers(call, me);
                (call.set_screen_sharing(me, active), to)
            },
        };
        proof {
            self.lemma_one_changed(before, id);
        }
        match told {
            Err(e) => Err(CallServiceError::Call(e)),
            Ok(told) => Ok(
                Outgoing { events: told, to, action: CallAction::ScreenShare { active } },
            ),
        }
    }

    /// Toggle our mic mute and tell the call. The enforcement is local (the
    /// media engine sends silence while muted); this records the state in the
    /// aggregate and advises every peer's roster.
    pub fn set_muted(&mut self, me: IdentityId, id: CallId, muted: bool) -> (r: Result<
        Outgoing,
        CallServiceError,
    >)
        requires
            old(self).wf(),
        ensures
            final(self).wf(),
            ({
                let c = old(self)@.calls[id];
                &&& driven(
                    old(self)@,
                    final(self)@,
                    id,
                    media_fault(c, me),
                    after_mic_muted(c, me, muted),
                    error_of(r),
                )
                &&& r matches Ok(out) ==> {
                    &&& call_event_views(out.events@) == seq![mic_muted_event(c, me, muted)]
                    &&& out.to@ == peers_of(c, me)
                    &&& out.action == (CallAction::Mute { active: muted })
                }
            }),
    {
        let ghost before = self.calls@;
        let (told, to) = match self.calls.get_mut(&id) {
            None => {
                return Err(CallServiceError::UnknownCall);
            },
            Some(call) => {
                let to: Vec<IdentityId> = seated_peers(call, me);
                (call.set_mic_muted(me, muted), to)
            },
        };
        proof {
            self.lemma_one_changed(before, id);
        }
        match told {
            Err(e) => Err(CallServiceError::Call(e)),
            Ok(told) => Ok(
                Outgoing { events: just(told), to, action: CallAction::Mute { active: muted } },
            ),
        }
    }

    /// Inbound signaling from the router (the envelope is already verified).
    pub fn receive_signal(
        &mut self,
        profile: &IdentityService,
        from: IdentityId,
        id: CallId,
        action: CallAction,
    ) -> (r: Incoming)
        requires
            old(self).wf(),
            profile.wf(),
        ensures
            final(self).wf(),
            ({
                let v = incoming(old(self)@, profile@, from, id, action);
                &&& final(self)@ == v.calls
                &&& call_event_views(r.events@) == v.events
                &&& r.drop_tap == v.drop_tap
            }),
    {
        let mut events: Vec<CallEvent> = Vec::new();
        let mut drop_tap: bool = false;
        assert(call_event_views(events@) =~= seq![]);
        if profile.is_blocked(&from) {
            return Incoming { events, drop_tap };
        }
        let me: IdentityId = profile.local_id();
        let ghost before = self.calls@;
        match action {
            CallAction::Offer { media_key, .. } => {
                let fresh: bool = match self.calls.get(&id) {
                    None => true,
                    Some(call) => match call.phase() {
                        CallPhase::Ended { .. } => true,
                        _ => false,
                    },
                };
                if fresh {
                    let mut to: Vec<IdentityId> = Vec::new();
                    to.push(me);
                    assert(to@ =~= seq![me]);
                    let (call, event) = Call::offer(id, from, to);
                    self.calls.insert(id, call);
                    self.call_keys.insert(id, media_key);
                    events = just(event);
                    proof {
                        self.lemma_one_changed(before, id);
                    }
                }
            },
            CallAction::Accept => {
                match self.calls.get_mut(&id) {
                    Some(call) => {
                        match call.accept(from) {
                            Ok(accepted) => {
                                events = accepted;
                                let _ = call.connected();
                            },
                            Err(_) => {},
                        }
                    },
                    None => {},
                }
                proof {
                    self.lemma_one_changed(before, id);
                }
            },
            CallAction::Decline => {
                match self.calls.get_mut(&id) {
                    Some(call) => {
                        match call.decline(from) {
                            Ok(declined) => {
                                events = declined;
                            },
                            Err(_) => {},
                        }
                    },
                    None => {},
                }
                proof {
                    self.lemma_one_changed(before, id);
                }
            },
            CallAction::HangUp => {
                match self.calls.get_mut(&id) {
                    Some(call) => {
                        match call.leave(from) {
                            Ok(left) => {
                                events = left;
                            },
                            Err(_) => match call.decline(from) {
                                Ok(declined) => {
                                    events = declined;
                                },
                                Err(_) => match call.hang_up() {
                                    Ok(event) => {
                                        events = just(event);
                                    },
                                    Err(_) => {},
                                },
                            },
                        }
                        drop_tap = match call.phase() {
                            CallPhase::Ended { .. } => true,
                            _ => false,
                        };
                    },
                    None => {
                        drop_tap = true;
                    },
                }
                proof {
                    self.lemma_one_changed(before, id);
                }
            },
            CallAction::ScreenShare { active } => {
                match self.calls.get_mut(&id) {
                    Some(call) => {
                        match call.set_screen_sharing(from, active) {
                            Ok(told) => {
                                events = told;
                            },
                            Err(_) => {},
                        }
                    },
                    None => {},
                }
                proof {
                    self.lemma_one_changed(before, id);
                }
            },
            CallAction::Mute { active } => {
                match self.calls.get_mut(&id) {
                    Some(call) => {
                        match call.set_mic_muted(from, active) {
                            Ok(event) => {
                                events = just(event);
                            },
                            Err(_) => {},
                        }
                    },
                    None => {},
                }
                proof {
                    self.lemma_one_changed(before, id);
                }
            },
        }
        Incoming { events, drop_tap }
    }

    /// Peers to send media to (everyone in the roster but us).
    pub fn media_peers(&self, me: IdentityId, id: CallId) -> (r: Result<
        Vec<IdentityId>,
        CallServiceError,
    >)
        requires
            self.wf(),
        ensures
            match r {
                Ok(peers) => self@.calls.contains_key(id) && peers@ == peers_of(self@.calls[id], me),
                Err(e) => !self@.calls.contains_key(id) && e@ == CallServiceErrorView::UnknownCall,
            },
    {
        match self.calls.get(&id) {
            Some(call) => Ok(seated_peers(call, me)),
            None => Err(CallServiceError::UnknownCall),
        }
    }

    // Direct drivers of the aggregate, for local flows.

    pub fn accept(&mut self, id: CallId, by: IdentityId) -> (r: Result<Vec<CallEvent>, CallServiceError>)
        requires
            old(self).wf(),
        ensures
            final(self).wf(),
            ({
                let c = old(self)@.calls[id];
                &&& driven(
                    old(self)@,
                    final(self)@,
                    id,
                    accept_fault(c, by),
                    after_accept(c, by),
                    error_of(r),
                )
                &&& r matches Ok(events) ==> call_event_views(events@) == accept_events(c, by)
            }),
    {
        let ghost before = self.calls@;
        let r = match self.calls.get_mut(&id) {
            None => {
                return Err(CallServiceError::UnknownCall);
            },
            Some(call) => call.accept(by),
        };
        proof {
            self.lemma_one_changed(before, id);
        }
        match r {
            Err(e) => Err(CallServiceError::Call(e)),
            Ok(events) => Ok(events),
        }
    }

    pub fn decline(&mut self, id: CallId, by: IdentityId) -> (r: Result<Vec<CallEvent>, CallServiceError>)
        requires
            old(self).wf(),
        ensures
            final(self).wf(),
            ({
                let c = old(self)@.calls[id];
                &&& driven(
                    old(self)@,
                    final(self)@,
                    id,
                    decline_fault(c, by),
                    after_decline(c, by),
                    error_of(r),
                )
                &&& r matches Ok(events) ==> call_event_views(events@) == decline_events(c, by)
            }),
    {
        let ghost before = self.calls@;
        let r = match self.calls.get_mut(&id) {
            None => {
                return Err(CallServiceError::UnknownCall);
            },
            Some(call) => call.decline(by),
        };
        proof {
            self.lemma_one_changed(before, id);
        }
        match r {
            Err(e) => Err(CallServiceError::Call(e)),
            Ok(events) => Ok(events),
        }
    }

    pub fn mark_connected(&mut self, id: CallId) -> (r: Result<(), CallServiceError>)
        requires
            old(self).wf(),
        ensures
            final(self).wf(),
            ({
                let c = old(self)@.calls[id];
                &&& driven(
                    old(self)@,
                    final(self)@,
                    id,
                    connected_fault(c),
                    after_connected(c),
                    error_of(r),
                )
            }),
    {
        let ghost before = self.calls@;
        let r = match self.calls.get_mut(&id) {
            None => {
                return Err(CallServiceError::UnknownCall);
            },
            Some(call) => call.connected(),
        };
        proof {
            self.lemma_one_changed(before, id);
        }
        match r {
            Err(e) => Err(CallServiceError::Call(e)),
            Ok(_) => Ok(()),
        }
    }

    pub fn join(&mut self, id: CallId, who: IdentityId) -> (r: Result<Vec<CallEvent>, CallServiceError>)
        requires
            old(self).wf(),
        ensures
            final(self).wf(),
            ({
                let c = old(self)@.calls[id];
                &&& driven(
                    old(self)@,
                    final(self)@,
                    id,
                    join_fault(c, who),
                    after_join(c, who),
                    error_of(r),
                )
                &&& r matches Ok(events) ==> call_event_views(events@) == seq![
                    CallEventView::ParticipantJoined { call: id, who },
                ]
            }),
    {
        let ghost before = self.calls@;
        let r = match self.calls.get_mut(&id) {
            None => {
                return Err(CallServiceError::UnknownCall);
            },
            Some(call) => call.join(who),
        };
        proof {
            self.lemma_one_changed(before, id);
        }
        match r {
            Err(e) => Err(CallServiceError::Call(e)),
            Ok(event) => Ok(just(event)),
        }
    }

    pub fn leave(&mut self, id: CallId, who: IdentityId) -> (r: Result<Vec<CallEvent>, CallServiceError>)
        requires
            old(self).wf(),
        ensures
            final(self).wf(),
            ({
                let c = old(self)@.calls[id];
                &&& driven(
                    old(self)@,
                    final(self)@,
                    id,
                    leave_fault(c, who),
                    after_leave(c, who),
                    error_of(r),
                )
                &&& r matches Ok(events) ==> call_event_views(events@) == leave_events(c, who)
            }),
    {
        let ghost before = self.calls@;
        let r = match self.calls.get_mut(&id) {
            None => {
                return Err(CallServiceError::UnknownCall);
            },
            Some(call) => call.leave(who),
        };
        proof {
            self.lemma_one_changed(before, id);
        }
        match r {
            Err(e) => Err(CallServiceError::Call(e)),
            Ok(events) => Ok(events),
        }
    }

    pub fn hang_up(&mut self, id: CallId) -> (r: Result<Vec<CallEvent>, CallServiceError>)
        requires
            old(self).wf(),
        ensures
            final(self).wf(),
            ({
                let c = old(self)@.calls[id];
                &&& driven(
                    old(self)@,
                    final(self)@,
                    id,
                    hang_up_fault(c),
                    after_hang_up(c),
                    error_of(r),
                )
                &&& r matches Ok(events) ==> call_event_views(events@) == seq![hang_up_event(c)]
            }),
    {
        let ghost before = self.calls@;
        let r = match self.calls.get_mut(&id) {
            None => {
                return Err(CallServiceError::UnknownCall);
            },
            Some(call) => call.hang_up(),
        };
        proof {
            self.lemma_one_changed(before, id);
        }
        match r {
            Err(e) => Err(CallServiceError::Call(e)),
            Ok(event) => Ok(just(event)),
        }
    }

    pub fn set_screen_sharing(&mut self, id: CallId, who: IdentityId, sharing: bool) -> (r: Result<Vec<CallEvent>, CallServiceError>)
        requires
            old(self).wf(),
        ensures
            final(self).wf(),
            ({
                let c = old(self)@.calls[id];
                &&& driven(
                    old(self)@,
                    final(self)@,
                    id,
                    media_fault(c, who),
                    after_screen_sharing(c, who, sharing),
                    error_of(r),
                )
                &&& r matches Ok(events) ==> call_event_views(events@) == screen_sharing_events(c, who, sharing)
            }),
    {
        let ghost before = self.calls@;
        let r = match self.calls.get_mut(&id) {
            None => {
                return Err(CallServiceError::UnknownCall);
            },
            Some(call) => call.set_screen_sharing(who, sharing),
        };
        proof {
            self.lemma_one_changed(before, id);
        }
        match r {
            Err(e) => Err(CallServiceError::Call(e)),
            Ok(events) => Ok(events),
        }
    }

    /// The call as frontends see it.
    pub fn snapshot(&self, id: CallId) -> (r: Result<CallSnapshot, CallServiceError>)
        requires
            self.wf(),
        ensures
            match r {
                Ok(s) => {
                    let c = self@.calls[id];
                    &&& self@.calls.contains_key(id)
                    &&& s.id == id
                    &&& s.initiator == c.initiator
                    &&& s.phase@ == c.phase
                    &&& s.participants@.map_values(|e: (IdentityId, MediaState)| e.0) == in_order(
                        c.seats.dom(),
                    )
                    &&& forall|i: int|
                        0 <= i < s.participants@.len() ==> c.seats[(#[trigger] s.participants@[i]).0]
                            == s.participants@[i].1
                    &&& s.invited@ == in_order(c.invited)
                },
                Err(e) => !self@.calls.contains_key(id) && e@ == CallServiceErrorView::UnknownCall,
            },
    {
        match self.calls.get(&id) {
            None => Err(CallServiceError::UnknownCall),
            Some(call) => Ok(
                CallSnapshot {
                    id: call.id(),
                    initiator: call.initiator(),
                    phase: call.phase().clone(),
                    participants: call.roster().members(),
                    invited: call.invited(),
                },
            ),
        }
    }
}

/// Whatever a peer sends about a call, its media tap is dropped only when the
/// call is over or unknown: a single participant leaving does not silence it.
pub proof fn law_tap_lives_with_its_call(
    v: CallsView,
    profile: ProfileView,
    from: IdentityId,
    id: CallId,
    action: CallAction,
)
    requires
        incoming(v, profile, from, id, action).drop_tap,
    ensures
        ({
            let after = incoming(v, profile, from, id, action).calls.calls;
            !after.contains_key(id) || after[id].phase is Ended
        }),
{
}

/// A peer's action about one call touches no other call, and no other key.
pub proof fn law_other_calls_are_untouched(
    v: CallsView,
    profile: ProfileView,
    from: IdentityId,
    id: CallId,
    action: CallAction,
    other: CallId,
)
    requires
        other != id,
    ensures
        ({
            let after = incoming(v, profile, from, id, action).calls;
            &&& after.calls.contains_key(other) == v.calls.contains_key(other)
            &&& after.calls[other] == v.calls[other]
            &&& after.keys.contains_key(other) == v.keys.contains_key(other)
            &&& after.keys[other] == v.keys[other]
        }),
{
}

/// A ring of a running call is ignored: it neither restarts the call nor
/// replaces its key.
pub proof fn law_running_call_is_not_rung_anew(
    v: CallsView,
    profile: ProfileView,
    from: IdentityId,
    id: CallId,
    action: CallAction,
)
    requires
        action is Offer,
        v.calls.contains_key(id),
        !(v.calls[id].phase is Ended),
    ensures
        incoming(v, profile, from, id, action) == unmoved(v),
{
}

/// Nothing that a blocked peer sends about a call is heard: no call rings,
/// changes or ends, no key is kept, and nothing is told.
pub proof fn law_blocked_caller_is_not_heard(
    v: CallsView,
    profile: ProfileView,
    from: IdentityId,
    id: CallId,
    action: CallAction,
)
    requires
        profile.blocks(from),
    ensures
        incoming(v, profile, from, id, action) == unmoved(v),
{
}

/// A command about a call that we know does what it may, and is refused with the reason
/// that the call gives; about any other it is refused. Only the call concerned changes,
/// and no key.
pub proof fn law_commands_reach_their_call(
    before: CallsView,
    after: CallsView,
    id: CallId,
    fault: Option<CallErrorView>,
    next: CallView,
    error: Option<CallServiceErrorView>,
    other: CallId,
)
    requires
        driven(before, after, id, fault, next, error),
    ensures
        before.calls.contains_key(id) && fault is None ==> error is None && after.calls.contains_key(
            id,
        ) && after.calls[id] == next,
        before.calls.contains_key(id) && fault is Some ==> error == Some(
            CallServiceErrorView::Call(fault->0),
        ) && after == before,
        !before.calls.contains_key(id) ==> error == Some(CallServiceErrorView::UnknownCall) && after
            == before,
        after.keys == before.keys,
        other != id ==> (after.calls.contains_key(other) <==> before.calls.contains_key(other)),
        other != id && before.calls.contains_key(other) ==> after.calls[other]
            == before.calls[other],
{
}

/// A ring is heard. An offer from anyone we do not block, of a call that we do not know or
/// that is over, rings here: it is told, its key is kept, its caller waits in it, and we
/// can take it, after which it is active with both of us.
pub proof fn law_a_ring_is_heard_and_can_be_taken(
    v: CallsView,
    profile: ProfileView,
    from: IdentityId,
    id: CallId,
    participants: Vec<IdentityId>,
    media_key: [u8; 32],
)
    requires
        !profile.blocks(from),
        from != profile.id,
        !v.calls.contains_key(id) || v.calls[id].phase is Ended,
    ensures
        ({
            let me = profile.id;
            let r = incoming(v, profile, from, id, CallAction::Offer { participants, media_key });
            let c = r.calls.calls[id];
            let taken = after_connected(after_accept(c, me));
            &&& r.calls.calls.contains_key(id)
            &&& r.calls.keys.contains_key(id)
            &&& r.calls.keys[id] == media_key
            &&& r.events == seq![
                CallEventView::CallOffered { call: id, by: from, to: seq![me] },
            ]
            &&& !r.drop_tap
            &&& c.phase == (PhaseView::Ringing { offered_to: seq![me] })
            &&& c.initiator == from
            &&& c.invited.contains(me)
            &&& c.seats.contains_key(from)
            &&& accept_fault(c, me) is None
            &&& connected_fault(after_accept(c, me)) is None
            &&& taken.phase is Active
            &&& taken.seats.contains_key(me)
            &&& taken.seats.contains_key(from)
        }),
{
    let me = profile.id;
    let c = rung(id, from, seq![me]);
    assert(seq![me].to_set().contains(me)) by {
        assert(seq![me][0] == me);
    }
    assert(c.seats.dom() =~= Set::<IdentityId>::empty().insert(from));
}

/// Whom a call rings, and what it opens with: its caller sits in it, everyone named is
/// waited for, and with nobody to ring it is the caller's own stage, active at once.
pub proof fn law_a_call_rings_whom_it_names(
    id: CallId,
    initiator: IdentityId,
    to: Seq<IdentityId>,
    x: IdentityId,
)
    ensures
        ({
            let c = rung(id, initiator, to);
            &&& c.id == id
            &&& c.initiator == initiator
            &&& c.invited.contains(x) <==> to.contains(x)
            &&& c.seats.contains_key(x) <==> x == initiator
            &&& c.seats[initiator] == (MediaState {
                mic_muted: false,
                deafened: false,
                sharing_screen: false,
            })
            &&& c.solo_stage <==> to.len() == 0
            &&& to.len() == 0 ==> c.phase is Active
            &&& to.len() > 0 ==> c.phase == (PhaseView::Ringing { offered_to: to })
            &&& c.forwarders.dom().len() == 0
        }),
        to.len() == 0 ==> ring_event(id, initiator, to) == (CallEventView::CallOpened {
            call: id,
            by: initiator,
        }),
        to.len() > 0 ==> ring_event(id, initiator, to) == (CallEventView::CallOffered {
            call: id,
            by: initiator,
            to,
        }),
{
    assert(Map::<IdentityId, IdentityId>::empty().dom() =~= Set::<IdentityId>::empty());
}

/// An answer is heard: whoever is waited for and accepts sits in the call, and the first to
/// do so makes it active; whoever declines is waited for no longer.
pub proof fn law_answers_are_heard(
    v: CallsView,
    profile: ProfileView,
    from: IdentityId,
    id: CallId,
)
    requires
        !profile.blocks(from),
        v.calls.contains_key(id),
        v.calls[id].wf(),
        !(v.calls[id].phase is Ended),
        v.calls[id].invited.contains(from),
    ensures
        ({
            let c = v.calls[id];
            let r = incoming(v, profile, from, id, CallAction::Accept);
            let after = r.calls.calls[id];
            !c.seats.contains_key(from) && c.seats.dom().len() < 8 ==> {
                &&& after.seats.contains_key(from)
                &&& !after.invited.contains(from)
                &&& c.phase is Ringing || c.phase is Connecting ==> after.phase is Active
                &&& c.phase is Active ==> after.phase is Active
                &&& r.events.contains(CallEventView::ParticipantJoined { call: c.id, who: from })
                &&& !r.drop_tap
            }
        }),
        ({
            let c = v.calls[id];
            let r = incoming(v, profile, from, id, CallAction::Decline);
            let after = r.calls.calls[id];
            &&& !after.invited.contains(from)
            &&& after.seats == c.seats
            &&& r.events.len() > 0
            &&& r.events[0] == (CallEventView::CallDeclined { call: c.id, by: from })
            &&& !(c.phase is Ringing) ==> after.phase == c.phase
        }),
{
    let c = v.calls[id];
    let events = accept_events(c, from);
    assert(events[1] == (CallEventView::ParticipantJoined { call: c.id, who: from }));
}

/// A hang-up takes only who hangs up. With two or more others seated the call goes on as
/// it was, and so does its tap; somebody who was rung and never came only declines; and
/// one whom the call does not know of ends our copy.
pub proof fn law_a_hang_up_takes_one(
    v: CallsView,
    profile: ProfileView,
    from: IdentityId,
    id: CallId,
    other: IdentityId,
)
    requires
        !profile.blocks(from),
        v.calls.contains_key(id),
        v.calls[id].wf(),
        !(v.calls[id].phase is Ended),
    ensures
        ({
            let c = v.calls[id];
            let r = incoming(v, profile, from, id, CallAction::HangUp);
            let after = r.calls.calls[id];
            &&& r.drop_tap <==> after.phase is Ended
            &&& c.seats.contains_key(from) && c.seats.dom().len() >= 3 ==> {
                &&& after.phase == c.phase
                &&& !r.drop_tap
                &&& !after.seats.contains_key(from)
                &&& other != from ==> (after.seats.contains_key(other)
                    <==> c.seats.contains_key(other))
                &&& r.events[0] == (CallEventView::ParticipantLeft { call: c.id, who: from })
            }
            &&& !c.seats.contains_key(from) && c.invited.contains(from) ==> {
                &&& after.seats == c.seats
                &&& !after.invited.contains(from)
                &&& !(c.phase is Ringing) ==> after.phase == c.phase
            }
            &&& !c.seats.contains_key(from) && !c.invited.contains(from) ==> after.phase == (
            PhaseView::Ended { reason: crate::calls::EndReason::HungUp })
        }),
{
    let c = v.calls[id];
    if c.seats.contains_key(from) {
        crate::calls::law_seated_may_leave(c, from);
        crate::calls::law_a_departure_ends_only_the_last_talk(c, from);
        if c.seats.dom().len() >= 2 {
            crate::calls::law_only_the_leaver_goes(c, from, other);
        }
    }
}

/// What a seated peer does with their microphone and their screen is seen here, in an
/// active call: theirs alone, and as they did it.
pub proof fn law_media_changes_are_seen(
    v: CallsView,
    profile: ProfileView,
    from: IdentityId,
    id: CallId,
    on: bool,
    other: IdentityId,
)
    requires
        !profile.blocks(from),
        v.calls.contains_key(id),
        v.calls[id].phase is Active,
        v.calls[id].seats.contains_key(from),
    ensures
        ({
            let c = v.calls[id];
            let muted = incoming(v, profile, from, id, CallAction::Mute { active: on });
            let shared = incoming(v, profile, from, id, CallAction::ScreenShare { active: on });
            &&& muted.calls.calls[id].seats[from].mic_muted == on
            &&& shared.calls.calls[id].seats[from].sharing_screen == on
            &&& other != from ==> muted.calls.calls[id].seats[other] == c.seats[other]
                && shared.calls.calls[id].seats[other] == c.seats[other]
            &&& muted.calls.calls[id].phase is Active && shared.calls.calls[id].phase is Active
            &&& muted.events.len() == 1
            &&& shared.events.len() > 0
            &&& !muted.drop_tap && !shared.drop_tap
        }),
{
}

/// Media goes to everyone seated but ourselves, once each.
pub proof fn law_media_goes_to_everyone_else(c: CallView, me: IdentityId, peer: IdentityId)
    requires
        c.wf(),
    ensures
        peers_of(c, me).contains(peer) <==> c.seats.contains_key(peer) && peer != me,
{
    crate::sorted::law_in_order_lists_each_once(c.seats.dom(), peer);
    crate::calls::law_others_are_all_but_one(in_order(c.seats.dom()), me, peer);
}

} // verus!

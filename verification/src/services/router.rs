//! Hands what arrives from the network to the service it is for.

use vstd::prelude::*;

use crate::calls::{call_event_views, CallId};
use crate::events::{app_event_views, AppEvent, AppEventView, DomainEvent, DomainEventView};
use crate::messaging::{ChannelId, Verified};
use crate::ports::{CallAction, ChannelSignal, WireMessage};
use crate::presence::{presence_event, PresenceEvent, PresenceState};
use crate::shared::{Fingerprint, IdentityId};
use crate::transfer::{offer_event, offer_of, Direction, FileManifest, TransferEvent, TransferId};

use super::calls::{incoming, CallService, Incoming};
use super::chat::{no_reaction, signal_reaction, ChatService, Reaction, ReactionView};
use super::dm::{discarded, heard, key_between, told, DmService};
use super::identity::{after_sighting, sighting_event, IdentityService};
use super::presence::{previously, stands_for, text_of, PresenceService};
use super::transfer::TransferService;

verus! {

/// The services of one node.
pub struct InboundRouter {
    pub identity: IdentityService,
    pub chat: ChatService,
    pub dm: DmService,
    pub presence: PresenceService,
    pub transfer: TransferService,
    pub calls: CallService,
}

/// A presence event, as frontends see it.
pub open spec fn presence(e: PresenceEvent) -> AppEventView {
    AppEventView::Domain(DomainEventView::Presence(e))
}

/// What the chat service makes of a signal on channel `id`: nothing, if no
/// channel is joined under that id.
pub open spec fn heard_on(
    before: InboundRouter,
    id: ChannelId,
    signal: ChannelSignal,
    fingerprint: Fingerprint,
    now_ms: u64,
) -> ReactionView {
    match before.chat@.name_of(id) {
        Some(name) => signal_reaction(
            before.chat@,
            before.identity@,
            id,
            name,
            signal,
            fingerprint,
            now_ms,
        ),
        None => no_reaction(before.chat@, before.identity@),
    }
}

impl InboundRouter {
    pub open spec fn wf(&self) -> bool {
        &&& self.identity.wf()
        &&& self.chat.wf()
        &&& self.dm.wf()
        &&& self.presence.wf()
        &&& self.transfer.wf()
        &&& self.calls.wf()
    }

    pub fn new(identity: IdentityService) -> (r: InboundRouter)
        requires
            identity.wf(),
        ensures
            r.wf(),
            r.identity == identity,
            r.chat@.names.dom() == Set::<Seq<char>>::empty(),
            r.chat@.channels.dom() == Set::<ChannelId>::empty(),
            r.dm@.dom() == Set::<crate::messaging::DmKey>::empty(),
            r.presence@.dom() == Set::<IdentityId>::empty(),
            r.transfer@.dom() == Set::<TransferId>::empty(),
            r.calls@.calls.dom() == Set::<CallId>::empty(),
            r.calls@.keys.dom() == Set::<CallId>::empty(),
    {
        InboundRouter {
            identity,
            chat: ChatService::new(),
            dm: DmService::new(),
            presence: PresenceService::new(),
            transfer: TransferService::new(),
            calls: CallService::new(),
        }
    }

    /// A signal on a channel. What a blocked peer does is dropped. Presence goes
    /// to the presence roster, whether or not the channel is joined; everything
    /// else is the chat service's.
    pub fn on_channel_signal(
        &mut self,
        id: ChannelId,
        signal: ChannelSignal,
        verified: Verified,
        fingerprint: Fingerprint,
        now_ms: u64,
    ) -> (r: Reaction)
        requires
            old(self).wf(),
        ensures
            final(self).wf(),
            final(self).dm == old(self).dm,
            final(self).transfer == old(self).transfer,
            final(self).calls == old(self).calls,
            match signal {
                ChannelSignal::Presence { who, away } => {
                    &&& final(self).chat@ == old(self).chat@
                    &&& final(self).identity@ == old(self).identity@
                    &&& r.save is None
                    &&& if old(self).identity@.blocks(who) {
                        final(self).presence@ == old(self).presence@ && r.events@.len() == 0
                    } else {
                        exists|state: PresenceState|
                            {
                                &&& #[trigger] stands_for(state, text_of(away))
                                &&& final(self).presence@ == old(self).presence@.insert(who, state)
                                &&& app_event_views(r.events@) == match presence_event(
                                    who,
                                    previously(old(self).presence@, who),
                                    state,
                                ) {
                                    Some(e) => seq![presence(e)],
                                    None => seq![],
                                }
                            }
                    }
                },
                _ => {
                    &&& final(self).presence == old(self).presence
                    &&& r.is(
                        heard_on(*old(self), id, signal, fingerprint, now_ms),
                        final(self).chat@,
                        final(self).identity@,
                    )
                },
            },
    {
        match signal {
            ChannelSignal::Presence { who, away } => {
                let mut events: Vec<AppEvent> = Vec::new();
                assert(app_event_views(events@) =~= seq![]);
                if self.identity.is_blocked(&who) {
                    return Reaction { save: None, events };
                }
                match self.presence.observe(who, away) {
                    Some(e) => {
                        events.push(AppEvent::Domain(DomainEvent::Presence(e)));
                        assert(app_event_views(events@) =~= seq![presence(e)]);
                    },
                    None => {},
                }
                Reaction { save: None, events }
            },
            signal => self.chat.receive_signal(
                &mut self.identity,
                id,
                signal,
                verified,
                fingerprint,
                now_ms,
            ),
        }
    }

    /// A direct message: the DM service's.
    pub fn on_dm(
        &mut self,
        from: IdentityId,
        message: WireMessage,
        verified: Verified,
        fingerprint: Fingerprint,
        now_ms: u64,
    ) -> (events: Vec<AppEvent>)
        requires
            old(self).wf(),
        ensures
            final(self).wf(),
            final(self).chat == old(self).chat,
            final(self).presence == old(self).presence,
            final(self).transfer == old(self).transfer,
            final(self).calls == old(self).calls,
            if discarded(old(self).identity@, from, message@) {
                &&& final(self).dm@ == old(self).dm@
                &&& final(self).identity@ == old(self).identity@
                &&& events@.len() == 0
            } else {
                &&& final(self).identity@ == after_sighting(
                    old(self).identity@,
                    from,
                    fingerprint,
                    None,
                    now_ms,
                )
                &&& exists|key: crate::messaging::DmKey| #[trigger]
                    key_between(key, old(self).identity@.id, from) && final(self).dm@
                        == old(self).dm@.insert(
                        key,
                        crate::messaging::dag::learn(heard(old(self).dm@, key), message@),
                    )
                &&& app_event_views(events@) == super::chat::as_list(
                    sighting_event(old(self).identity@, from, fingerprint),
                ).push(told(message@, final(self).identity@.nick_of(from)))
            },
    {
        self.dm.receive_dm(&mut self.identity, from, message, verified, fingerprint, now_ms)
    }

    /// A file offer: the transfer service's, under an id of our own.
    pub fn on_file_offer(&mut self, id: TransferId, from: IdentityId, manifest: FileManifest) -> (event: Option<
        TransferEvent,
    >)
        requires
            old(self).wf(),
            manifest.wf(),
        ensures
            final(self).wf(),
            *final(self) == (InboundRouter { transfer: final(self).transfer, ..*old(self) }),
            if old(self).identity@.blocks(from) {
                event is None && final(self).transfer@ == old(self).transfer@
            } else {
                &&& final(self).transfer@ == old(self).transfer@.insert(
                    id,
                    offer_of(id, manifest@, Direction::Inbound { from }),
                )
                &&& event matches Some(e) && e@ == offer_event(id, manifest@)
            },
    {
        self.transfer.offered_to_us(&self.identity, id, from, manifest)
    }

    /// A media frame of a call: whether it goes to the call's tap. What a blocked
    /// peer sends does not.
    pub fn on_media_frame(&self, from: &IdentityId) -> (taken: bool)
        requires
            self.wf(),
        ensures
            taken == !self.identity@.blocks(*from),
    {
        !self.identity.is_blocked(from)
    }

    /// A call signal: the call service's.
    pub fn on_call_signal(&mut self, from: IdentityId, call: CallId, action: CallAction) -> (r: Incoming)
        requires
            old(self).wf(),
        ensures
            final(self).wf(),
            *final(self) == (InboundRouter { calls: final(self).calls, ..*old(self) }),
            ({
                let v = incoming(old(self).calls@, old(self).identity@, from, call, action);
                &&& final(self).calls@ == v.calls
                &&& call_event_views(r.events@) == v.events
                &&& r.drop_tap == v.drop_tap
            }),
    {
        self.calls.receive_signal(&self.identity, from, call, action)
    }
}

/// What arrives on a channel that we are on is heard under its name, and what arrives on any
/// other is not.
pub proof fn law_joined_channels_are_heard(
    before: InboundRouter,
    id: ChannelId,
    name: Seq<char>,
    signal: ChannelSignal,
    fingerprint: Fingerprint,
    now_ms: u64,
)
    ensures
        before.chat@.name_of(id) == Some(name) ==> heard_on(before, id, signal, fingerprint, now_ms)
            == signal_reaction(
            before.chat@,
            before.identity@,
            id,
            name,
            signal,
            fingerprint,
            now_ms,
        ),
        before.chat@.name_of(id) is None ==> {
            let r = heard_on(before, id, signal, fingerprint, now_ms);
            r.chat == before.chat@ && r.profile == before.identity@ && r.events.len() == 0
                && r.save is None
        },
{
}

} // verus!

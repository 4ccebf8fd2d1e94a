//! A fully wired node: every service over what the universe provides.

use vstd::prelude::*;

use crate::calls::CallId;
use crate::events::{AppEvent, AppEventView, DomainEvent, DomainEventView};
use crate::identity::IdentityEvent;
use crate::messaging::values::nickname_fault;
use crate::messaging::{ChannelId, DmKey, Nickname};
use crate::services::identity::{IdentityService, ProfileView};
use crate::services::router::InboundRouter;
use crate::shared::{Fingerprint, IdentityId};
use crate::sim::fakes::{
    fake_fingerprint, identity_bytes, identity_named, FakeKeyStore, InMemoryStore, TestClock,
    TestIdGen,
};
use crate::sim::network::{InMemoryNetwork, NetworkView};
use crate::transfer::TransferId;

verus! {

pub struct TestNode {
    pub id: IdentityId,
    pub services: InboundRouter,
    pub keys: FakeKeyStore,
    pub ids: TestIdGen,
    pub clock: TestClock,
    pub store: InMemoryStore,
    /// What happened since the node was made.
    pub collected: Vec<AppEvent>,
}

impl TestNode {
    pub open spec fn wf(&self) -> bool {
        &&& self.services.wf()
        &&& self.store.wf()
        &&& self.services.identity@.id == self.id
    }

    /// Takes note of events, in the order they came.
    pub fn collect(&mut self, events: Vec<AppEvent>)
        requires
            old(self).wf(),
        ensures
            final(self).wf(),
            *final(self) == (TestNode { collected: final(self).collected, ..*old(self) }),
            final(self).collected@ == old(self).collected@ + events@,
    {
        let mut events = events;
        self.collected.append(&mut events);
    }
}

/// The profile of a fresh node: its name is its nickname, where it can be one.
pub open spec fn fresh_profile(
    id: IdentityId,
    fingerprint: Fingerprint,
    name: Seq<char>,
) -> ProfileView {
    ProfileView {
        id,
        fingerprint,
        nickname: if nickname_fault(name) is None {
            Some(name)
        } else {
            None
        },
        contacts: Map::empty(),
        nicks: Map::empty(),
    }
}

/// Makes a node whose identity derives from its name, and puts it on the bus.
pub fn spawn_node(network: &mut InMemoryNetwork, seed_name: &str) -> (r: TestNode)
    requires
        old(network).wf(),
    ensures
        final(network).wf(),
        final(network)@ == (NetworkView {
            endpoints: old(network)@.endpoints.insert(r.id, Set::empty()),
            ..old(network)@
        }),
        r.wf(),
        r.id@ == identity_bytes(seed_name@),
        r.keys@ == r.id,
        r.services.identity@ == fresh_profile(
            r.id,
            r.services.identity@.fingerprint,
            seed_name@,
        ),
        r.services.identity@.fingerprint@ == fake_fingerprint(r.id@),
        r.services.chat@.names.dom() == Set::<Seq<char>>::empty(),
        r.services.chat@.channels.dom() == Set::<ChannelId>::empty(),
        r.services.dm@.dom() == Set::<DmKey>::empty(),
        r.services.presence@.dom() == Set::<IdentityId>::empty(),
        r.services.transfer@.dom() == Set::<TransferId>::empty(),
        r.services.calls@.calls.dom() == Set::<CallId>::empty(),
        r.services.calls@.keys.dom() == Set::<CallId>::empty(),
        r.ids@ == 0,
        r.clock@ == 0,
        r.store@.dom() == Set::<ChannelId>::empty(),
        if nickname_fault(seed_name@) is None {
            &&& r.collected@.len() == 1
            &&& r.collected@[0]@ matches AppEventView::Domain(
                DomainEventView::Identity(IdentityEvent::NicknameChanged { nickname }),
            ) && nickname@ == seed_name@
        } else {
            r.collected@.len() == 0
        },
{
    let id: IdentityId = identity_named(seed_name);
    let keys = FakeKeyStore::new(id);
    let mut identity = IdentityService::new(id, FakeKeyStore::derive_fingerprint(&id));
    let mut collected: Vec<AppEvent> = Vec::new();
    if let Ok(nick) = Nickname::parse(seed_name) {
        let event: IdentityEvent = identity.set_nickname(nick);
        collected.push(AppEvent::Domain(DomainEvent::Identity(event)));
    }
    network.register(id);
    TestNode {
        id,
        services: InboundRouter::new(identity),
        keys,
        ids: TestIdGen::default(),
        clock: TestClock::default(),
        store: InMemoryStore::new(),
        collected,
    }
}

} // verus!

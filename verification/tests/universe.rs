//! Scenarios of several nodes on one bus.

use mikall::calls::{CallError, CallPhase, EndReason, RosterError};
use mikall::events::{AppEvent, DomainEvent};
use mikall::identity::{IdentityEvent, TrustLevel};
use mikall::messaging::{ChannelName, MessageBodyError, MessagingEvent, Verified};
use mikall::ports::{CallAction, ChannelSignal, TransportError};
use mikall::presence::PresenceState;
use mikall::services::calls::CallServiceError;
use mikall::services::chat::{open_channel, ChatError};
use mikall::shared::{Fingerprint, IdentityId};
use mikall::sim::directory::InMemoryDirectory;
use mikall::sim::fakes::{spread, FakeKeyStore, InMemoryStore, TestClock, TestIdGen};
use mikall::sim::network::{Held, InMemoryNetwork};
use mikall::sim::node::{spawn_node, TestNode};
use mikall::transfer::{BlobHash, FileManifest, FileName, TransferId};

struct Universe {
    network: InMemoryNetwork,
    directory: InMemoryDirectory,
    nodes: Vec<TestNode>,
}

fn stage() -> ChannelName {
    ChannelName::parse("#stage").unwrap()
}

/// Whose word a signal is.
fn actor(signal: &ChannelSignal) -> IdentityId {
    match signal {
        ChannelSignal::Message(m) => m.author,
        ChannelSignal::Joined { who, .. }
        | ChannelSignal::Left { who }
        | ChannelSignal::Presence { who, .. } => *who,
        ChannelSignal::TopicChanged { by, .. } | ChannelSignal::RoleChanged { by, .. } => *by,
    }
}

impl Universe {
    fn new(names: &[&str]) -> Universe {
        let mut network = InMemoryNetwork::new();
        let nodes = names
            .iter()
            .map(|name| spawn_node(&mut network, name))
            .collect();
        Universe {
            network,
            directory: InMemoryDirectory::new(),
            nodes,
        }
    }

    fn deliver(&mut self, items: Vec<Held>) {
        for item in items {
            let to = item.addressee();
            let node = self.nodes.iter_mut().find(|n| n.id == to).unwrap();
            let now = node.clock.now_ms();
            let verified = Verified::attest_signature_checked();
            match item {
                Held::Channel {
                    channel, signal, ..
                } => {
                    let fingerprint = FakeKeyStore::derive_fingerprint(&actor(&signal));
                    let reaction = node.services.on_channel_signal(
                        channel,
                        signal,
                        verified,
                        fingerprint,
                        now,
                    );
                    if let Some(message) = &reaction.save {
                        node.store.save_channel_message(channel, message);
                    }
                    node.collect(reaction.events);
                }
                Held::Dm { from, message, .. } => {
                    let fingerprint = FakeKeyStore::derive_fingerprint(&from);
                    let events = node
                        .services
                        .on_dm(from, message, verified, fingerprint, now);
                    node.collect(events);
                }
            }
        }
    }

    fn publish(&mut self, from: usize, signal: ChannelSignal) {
        let id = self.nodes[from].services.chat.joined(&stage()).unwrap();
        let items = self
            .network
            .publish_from(self.nodes[from].id, id, &signal);
        self.deliver(items);
    }

    fn join(&mut self, n: usize) {
        let name = stage();
        let node = &mut self.nodes[n];
        let record = self.directory.lookup_channel(&name);
        let fresh = node.ids.channel_id(&name);
        let opening = open_channel(record, &name, node.id, fresh);
        if let Some(record) = opening.announce.clone() {
            self.directory.announce_channel(record);
        }
        let stored = node.store.load_channel_messages(opening.id);
        let arrival =
            node.services
                .chat
                .join_channel(&node.services.identity, name, opening, stored);
        self.network.subscribe_channel(&node.id, arrival.id);
        self.publish(n, arrival.signal);
    }

    fn post(&mut self, n: usize, body: &str) -> Result<(), ChatError> {
        let node = &mut self.nodes[n];
        let draft = node.services.chat.draft(&stage(), body)?;
        let id = node
            .ids
            .message_id(&node.id, draft.lamport, &draft.parents, body);
        let now = node.clock.now_ms();
        let (wire, events) =
            node.services
                .chat
                .post_message(&node.services.identity, &stage(), &draft, id, now)?;
        node.collect(events);
        self.publish(n, ChannelSignal::Message(wire));
        Ok(())
    }

    fn history(&self, n: usize) -> Vec<String> {
        let services = &self.nodes[n].services;
        services
            .chat
            .history(&stage(), &services.identity)
            .unwrap()
            .iter()
            .map(|m| m.body.as_str().to_owned())
            .collect()
    }

    fn dm(&mut self, from: usize, to: usize, body: &str) {
        let to_id = self.nodes[to].id;
        let node = &mut self.nodes[from];
        let draft = node
            .services
            .dm
            .draft(&node.services.identity, to_id, body)
            .unwrap();
        let id = node
            .ids
            .message_id(&node.id, draft.lamport, &draft.parents, body);
        let now = node.clock.now_ms();
        let (wire, event) = node
            .services
            .dm
            .send_dm(&node.services.identity, &draft, id, now);
        node.collect(vec![event]);
        let item = self
            .network
            .dm_from(self.nodes[from].id, to_id, wire)
            .unwrap();
        self.deliver(item.into_iter().collect());
    }

    fn dms(&self, n: usize, with: usize) -> Vec<String> {
        let services = &self.nodes[n].services;
        services
            .dm
            .history(&services.identity, self.nodes[with].id)
            .unwrap()
            .iter()
            .map(|m| m.body.as_str().to_owned())
            .collect()
    }

    fn saw_gap(&self, n: usize) -> bool {
        self.nodes[n].collected.iter().any(|e| {
            matches!(
                e,
                AppEvent::Domain(DomainEvent::Messaging(
                    MessagingEvent::HistoryGapDetected { .. }
                ))
            )
        })
    }
}

#[test]
fn a_fresh_node_has_its_name_and_a_fingerprint() {
    let u = Universe::new(&["miku"]);
    let node = &u.nodes[0];
    assert_eq!(
        node.services.identity.nickname().unwrap().as_str(),
        "miku"
    );
    let groups = node.services.identity.fingerprint().display_groups();
    assert_eq!(groups.split('-').count(), 8);
    assert_eq!(node.collected.len(), 1);
    assert_eq!(
        node.keys.local_identity(),
        (node.id, node.services.identity.fingerprint())
    );
    // The same name gives the same identity, another name another.
    let v = Universe::new(&["miku", "rin"]);
    assert_eq!(v.nodes[0].id, node.id);
    assert_ne!(v.nodes[1].id, node.id);
}

#[test]
fn messages_reach_every_member() {
    let mut u = Universe::new(&["miku", "rin", "luka"]);
    for n in 0..3 {
        u.join(n);
    }
    u.post(0, "hello").unwrap();
    u.post(1, "hi").unwrap();
    for n in 0..3 {
        assert_eq!(u.history(n), vec!["hello", "hi"]);
    }
    // The founder is the first who joined.
    let founder = u.directory.lookup_channel(&stage()).unwrap().founder;
    assert_eq!(founder, u.nodes[0].id);
    // Whoever rejoins finds their history again.
    let id = u.nodes[1].services.chat.joined(&stage()).unwrap();
    assert_eq!(u.nodes[1].store.load_channel_messages(id).len(), 1);
}

#[test]
fn all_peers_display_the_same_history_whatever_the_order() {
    let mut u = Universe::new(&["miku", "rin", "luka"]);
    for n in 0..3 {
        u.join(n);
    }
    let (a, b) = (u.nodes[0].id, u.nodes[1].id);
    u.network.delay_link(a, b);
    u.post(0, "from miku").unwrap();
    u.post(1, "from rin").unwrap();
    assert_eq!(u.history(0).len(), 1);
    assert_eq!(u.history(1).len(), 1);
    u.network.restore_link(a, b);
    assert!(!u.network.is_delayed(a, b));
    let held = u.network.flush_held();
    assert_eq!(held.len(), 2);
    u.deliver(held);
    assert_eq!(u.history(0).len(), 2);
    assert_eq!(u.history(0), u.history(1));
    assert_eq!(u.history(0), u.history(2));
    assert!(u.network.flush_held().is_empty());
}

#[test]
fn a_gap_is_reported_and_filled() {
    let mut u = Universe::new(&["miku", "rin"]);
    u.join(0);
    u.join(1);
    let (a, b) = (u.nodes[0].id, u.nodes[1].id);
    u.network.delay_link(a, b);
    u.post(0, "one").unwrap();
    u.network.restore_link(a, b);
    u.post(0, "two").unwrap();
    // The second message links the first, which is still held.
    assert!(u.saw_gap(1));
    assert!(u.history(1).is_empty());
    let held = u.network.flush_held();
    u.deliver(held);
    assert_eq!(u.history(1), vec!["one", "two"]);
}

#[test]
fn an_injection_payload_is_rejected() {
    let mut u = Universe::new(&["miku"]);
    u.join(0);
    assert_eq!(
        u.post(0, "hi\r\nJOIN #evil"),
        Err(ChatError::Body(MessageBodyError::ControlCharacter))
    );
    assert!(u.history(0).is_empty());
    assert_eq!(
        u.nodes[0]
            .services
            .chat
            .draft(&ChannelName::parse("#other").unwrap(), "hi")
            .err(),
        Some(ChatError::NotJoined("#other".to_owned()))
    );
}

#[test]
fn a_blocked_peer_leaves_no_trace() {
    let mut u = Universe::new(&["miku", "rin"]);
    u.join(0);
    u.join(1);
    u.dm(1, 0, "before");
    assert_eq!(u.dms(0, 1), vec!["before"]);
    let rin = u.nodes[1].id;
    u.nodes[0].services.identity.block(rin, 5);
    u.dm(1, 0, "after");
    u.post(1, "anyone?").unwrap();
    assert_eq!(u.dms(0, 1), vec!["before"]);
    assert!(u.history(0).is_empty());
    assert_eq!(u.dms(1, 0), vec!["before", "after"]);
}

#[test]
fn all_traffic_of_a_blocked_peer_is_dropped() {
    let mut u = Universe::new(&["miku", "rin"]);
    u.join(0);
    u.join(1);
    let rin = u.nodes[1].id;
    let channel = u.nodes[0].services.chat.channel_id_of(&stage()).unwrap();
    let node = &mut u.nodes[0];
    node.services.identity.block(rin, 5);
    let members = node.services.chat.members(&stage(), &node.services.identity).unwrap().len();
    for signal in [
        ChannelSignal::Left { who: rin },
        ChannelSignal::Joined {
            who: rin,
            nickname: Some("rin".to_owned()),
        },
        ChannelSignal::TopicChanged {
            by: rin,
            topic: "mine".to_owned(),
        },
        ChannelSignal::Presence {
            who: rin,
            away: Some("out".to_owned()),
        },
    ] {
        let reaction = node.services.on_channel_signal(
            channel,
            signal,
            Verified::attest_signature_checked(),
            Fingerprint::from_bytes([1; 32]),
            6,
        );
        assert!(reaction.events.is_empty());
        assert!(reaction.save.is_none());
    }
    assert_eq!(
        node.services.chat.members(&stage(), &node.services.identity).unwrap().len(),
        members
    );
    assert_eq!(
        node.services.presence.state_of(&rin),
        PresenceState::Offline { last_seen_ms: 0 }
    );

    let manifest = FileManifest::new(
        FileName::parse("mix.flac").unwrap(),
        1,
        BlobHash::from_bytes([1; 32]),
        vec![BlobHash::from_bytes([1; 32])],
    )
    .unwrap();
    let id = TransferId::from_bytes([3; 16]);
    assert!(node.services.on_file_offer(id, rin, manifest).is_none());
    assert!(node.services.transfer.progress(id).is_err());
    assert!(!node.services.on_media_frame(&rin));
    assert!(node.services.on_media_frame(&IdentityId::from_bytes([77; 32])));
}

#[test]
fn a_direct_message_to_nobody_is_refused() {
    let mut u = Universe::new(&["miku"]);
    let node = &u.nodes[0];
    let nobody = IdentityId::from_bytes([9; 32]);
    let draft = node
        .services
        .dm
        .draft(&node.services.identity, nobody, "hi")
        .unwrap();
    let id = node
        .ids
        .message_id(&node.id, draft.lamport, &draft.parents, "hi");
    let node = &mut u.nodes[0];
    let (wire, _) = node
        .services
        .dm
        .send_dm(&node.services.identity, &draft, id, 1);
    assert_eq!(
        u.network.dm_from(u.nodes[0].id, nobody, wire).err(),
        Some(TransportError::Unreachable)
    );
}

#[test]
fn a_changed_key_raises_the_alarm() {
    let mut u = Universe::new(&["miku", "rin"]);
    u.join(0);
    u.join(1);
    let rin = u.nodes[1].id;
    let identity = &mut u.nodes[0].services.identity;
    assert!(matches!(
        identity.trust_of(&rin),
        Some(TrustLevel::TofuPinned { .. })
    ));
    identity.verify_contact(&rin, 7).unwrap();
    assert_eq!(
        identity.trust_of(&rin),
        Some(TrustLevel::Verified { verified_at_ms: 7 })
    );
    let other = Fingerprint::from_bytes([8; 32]);
    let event = identity.observe_peer(rin, other, None, 9);
    assert!(matches!(
        event,
        Some(IdentityEvent::ContactKeyChanged { id, .. }) if id == rin
    ));
    assert_eq!(identity.trust_of(&rin), Some(TrustLevel::Unverified));
}

#[test]
fn presence_travels_and_clears() {
    let mut u = Universe::new(&["miku", "rin"]);
    u.join(0);
    u.join(1);
    let miku = u.nodes[0].id;
    let services = &mut u.nodes[0].services;
    let beacon = services
        .presence
        .set_away(&services.chat, miku, Some("brb, rehearsal"))
        .unwrap();
    assert_eq!(beacon.to.len(), 1);
    u.publish(
        0,
        ChannelSignal::Presence {
            who: miku,
            away: beacon.away,
        },
    );
    match u.nodes[1].services.presence.state_of(&miku) {
        PresenceState::Away { message } => {
            assert_eq!(message.unwrap().as_str(), "brb, rehearsal")
        }
        other => panic!("expected away, got {other:?}"),
    }
    u.publish(
        0,
        ChannelSignal::Presence {
            who: miku,
            away: None,
        },
    );
    assert_eq!(
        u.nodes[1].services.presence.state_of(&miku),
        PresenceState::Online
    );
}

#[test]
fn a_call_rings_is_answered_and_ends() {
    let mut u = Universe::new(&["miku", "rin"]);
    let (miku, rin) = (u.nodes[0].id, u.nodes[1].id);
    let call = u.nodes[0].ids.call_id();
    let ring = u.nodes[0]
        .services
        .calls
        .start_call(miku, call, [7; 32], vec![rin]);
    assert_eq!(ring.to, vec![rin]);
    let heard = u.nodes[1].services.on_call_signal(miku, call, ring.action);
    assert_eq!(heard.events.len(), 1);
    assert_eq!(
        u.nodes[1].services.calls.media_key(&call),
        Some([7; 32]),
        "the key travels with the offer"
    );
    let answer = u.nodes[1]
        .services
        .calls
        .accept_incoming(rin, call)
        .unwrap();
    assert_eq!(answer.to, vec![miku]);
    u.nodes[0].services.on_call_signal(rin, call, answer.action);
    let snapshot = u.nodes[0].services.calls.snapshot(call).unwrap();
    assert_eq!(snapshot.participants.len(), 2);
    assert_eq!(snapshot.phase, CallPhase::Active);

    let bye = u.nodes[0].services.calls.hang_up_all(miku, call).unwrap();
    assert_eq!(bye.to, vec![rin]);
    let heard = u.nodes[1].services.on_call_signal(miku, call, bye.action);
    assert!(heard.drop_tap);
    assert!(matches!(
        u.nodes[1].services.calls.snapshot(call).unwrap().phase,
        CallPhase::Ended { .. }
    ));
}

#[test]
fn a_declined_call_is_over() {
    let mut u = Universe::new(&["miku", "rin"]);
    let (miku, rin) = (u.nodes[0].id, u.nodes[1].id);
    let call = u.nodes[0].ids.call_id();
    u.nodes[0]
        .services
        .calls
        .start_call(miku, call, [7; 32], vec![rin]);
    u.nodes[0]
        .services
        .on_call_signal(rin, call, CallAction::Decline);
    assert_eq!(
        u.nodes[0].services.calls.snapshot(call).unwrap().phase,
        CallPhase::Ended {
            reason: EndReason::Declined
        }
    );
    assert!(u.nodes[0].services.calls.accept(call, rin).is_err());
}

#[test]
fn a_ninth_participant_is_refused() {
    let mut u = Universe::new(&["miku"]);
    let miku = u.nodes[0].id;
    let call = u.nodes[0].ids.call_id();
    let calls = &mut u.nodes[0].services.calls;
    calls.start_call(miku, call, [7; 32], vec![]);
    for n in 2..=8u8 {
        calls.join(call, IdentityId::from_bytes([n; 32])).unwrap();
    }
    assert_eq!(
        calls.join(call, IdentityId::from_bytes([9; 32])).err(),
        Some(CallServiceError::Call(CallError::Roster(RosterError::Full)))
    );
}

#[test]
fn the_first_announcer_keeps_the_name() {
    let mut ids = TestIdGen::default();
    let mut directory = InMemoryDirectory::new();
    for name in ["#b", "#a", "#c"] {
        let name = ChannelName::parse(name).unwrap();
        let record = open_channel(
            None,
            &name,
            IdentityId::from_bytes([1; 32]),
            ids.channel_id(&name),
        )
        .announce
        .unwrap();
        directory.announce_channel(record);
    }
    let taken = ChannelName::parse("#a").unwrap();
    let usurper = open_channel(
        None,
        &taken,
        IdentityId::from_bytes([2; 32]),
        ids.channel_id(&taken),
    )
    .announce
    .unwrap();
    directory.announce_channel(usurper);
    let listed: Vec<(String, u8)> = directory
        .list_channels()
        .iter()
        .map(|r| (r.name.as_str().to_owned(), r.founder.as_bytes()[0]))
        .collect();
    assert_eq!(
        listed,
        vec![
            ("#a".to_owned(), 1),
            ("#b".to_owned(), 1),
            ("#c".to_owned(), 1)
        ]
    );
    assert_ne!(ids.call_id(), ids.call_id());
}

#[test]
fn fakes_depend_on_nothing_but_their_input() {
    // One step of the generator from a seed of one.
    let bytes = spread(1);
    let s: u64 = 1;
    let a = s ^ (s << 13);
    let b = a ^ (a >> 7);
    let c = b ^ (b << 17);
    assert_eq!(bytes[..8], c.to_le_bytes());
    assert_eq!(spread(0), spread(1));
    assert_ne!(spread(2), spread(1));

    let mut clock = TestClock::default();
    assert_eq!(clock.now_ms(), 1_700_000_000_000);
    assert_eq!(clock.now_ms(), 1_700_000_000_001);

    let mut ids = TestIdGen::default();
    let call = ids.call_id();
    let transfer = ids.transfer_id();
    assert_eq!(call.as_bytes()[0], 0);
    assert_eq!(transfer.as_bytes()[..9], [1, 0, 0, 0, 0, 0, 0, 0, 0x54]);
    let parts_apart = ids.message_id(&IdentityId::from_bytes([1; 32]), 1, &vec![], "ab");
    let parts_together = ids.message_id(&IdentityId::from_bytes([1; 32]), 1, &vec![], "a");
    assert_ne!(parts_apart, parts_together);
    let store = InMemoryStore::new();
    assert!(store
        .load_channel_messages(ids.channel_id(&stage()))
        .is_empty());
}

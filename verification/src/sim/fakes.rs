//! Ids, clocks, keys and stores that depend on nothing but what they are given.

use std::collections::hash_map::DefaultHasher;
use std::hash::Hasher;

use vstd::prelude::*;
use vstd::std_specs::hash::DefaultHasherAdditionalSpecFns;
use vstd::utf8::encode_utf8;

use crate::bytes::{lemma_lens, little_endian, push_little_endian};
use crate::calls::CallId;
use crate::messaging::{ChannelId, ChannelName, MessageId};
use crate::ports::{WireMessage};
use crate::shared::{Fingerprint, IdentityId};
use crate::sorted::SortedMap;
use crate::transfer::TransferId;

verus! {

/// What is written to a hasher for some parts: each behind its length, so that
/// no two lists of parts look alike.
pub open spec fn framed(parts: Seq<Seq<u8>>) -> Seq<Seq<u8>>
    decreases parts.len(),
{
    if parts.len() == 0 {
        seq![]
    } else {
        framed(parts.drop_last()).push(little_endian(parts.last().len(), 8)).push(parts.last())
    }
}

/// The hash of some parts.
pub open spec fn hash_of(parts: Seq<Seq<u8>>) -> u64 {
    DefaultHasher::spec_finish(framed(parts))
}

pub open spec fn part_views(parts: Seq<Vec<u8>>) -> Seq<Seq<u8>> {
    parts.map_values(|p: Vec<u8>| p@)
}

fn hash64(parts: &Vec<Vec<u8>>) -> (r: u64)
    ensures
        r == hash_of(part_views(parts@)),
{
    let ghost views = part_views(parts@);
    let mut hasher = DefaultHasher::new();
    let mut i: usize = 0;
    assert(views.take(0) =~= Seq::<Seq<u8>>::empty());
    while i < parts.len()
        invariant
            i <= parts@.len(),
            views == part_views(parts@),
            hasher@ == framed(views.take(i as int)),
        decreases parts@.len() - i,
    {
        let mut len: Vec<u8> = Vec::new();
        push_little_endian(&mut len, parts[i].len() as u64, 8);
        proof {
            assert(len@ =~= little_endian(views[i as int].len(), 8));
            assert(views.take(i + 1).drop_last() =~= views.take(i as int));
            assert(views.take(i + 1).last() == parts@[i as int]@);
        }
        hasher.write(&len);
        hasher.write(&parts[i]);
        i = i + 1;
    }
    assert(views.take(i as int) =~= views);
    hasher.finish()
}

/// The step of a 64-bit xorshift generator.
pub open spec fn shifted(s: u64) -> u64 {
    let a = s ^ (s << 13u64);
    let b = a ^ (a >> 7u64);
    b ^ (b << 17u64)
}

/// The state of the generator after `n` steps.
pub open spec fn shifted_by(seed: u64, n: nat) -> u64
    decreases n,
{
    if n == 0 {
        seed | 1
    } else {
        shifted(shifted_by(seed, (n - 1) as nat))
    }
}

/// Thirty-two bytes that a seed spreads over.
pub open spec fn spread_bytes(seed: u64) -> Seq<u8> {
    little_endian(shifted_by(seed, 1) as nat, 8) + little_endian(shifted_by(seed, 2) as nat, 8)
        + little_endian(shifted_by(seed, 3) as nat, 8) + little_endian(
        shifted_by(seed, 4) as nat,
        8,
    )
}

fn next_state(s: u64) -> (r: u64)
    ensures
        r == shifted(s),
{
    let a: u64 = s ^ (s << 13u64);
    let b: u64 = a ^ (a >> 7u64);
    b ^ (b << 17u64)
}

pub fn spread(seed: u64) -> (r: [u8; 32])
    ensures
        r@ == spread_bytes(seed),
{
    proof {
        reveal_with_fuel(shifted_by, 5);
        lemma_lens(shifted_by(seed, 1) as nat, 8);
        lemma_lens(shifted_by(seed, 2) as nat, 8);
        lemma_lens(shifted_by(seed, 3) as nat, 8);
        lemma_lens(shifted_by(seed, 4) as nat, 8);
    }
    let mut out: Vec<u8> = Vec::new();
    let s1: u64 = next_state(seed | 1);
    push_little_endian(&mut out, s1, 8);
    let s2: u64 = next_state(s1);
    push_little_endian(&mut out, s2, 8);
    let s3: u64 = next_state(s2);
    push_little_endian(&mut out, s3, 8);
    let s4: u64 = next_state(s3);
    push_little_endian(&mut out, s4, 8);
    assert(out@ =~= spread_bytes(seed));
    let mut bytes: [u8; 32] = [0;32];
    let mut i: usize = 0;
    while i < 32
        invariant
            i <= 32,
            out@.len() == 32,
            forall|j: int| 0 <= j < i ==> #[trigger] bytes@[j] == out@[j],
        decreases 32 - i,
    {
        bytes[i] = out[i];
        i = i + 1;
    }
    assert(bytes@ =~= out@);
    bytes
}

/// Thirty-two bytes derived from some parts.
fn derived(parts: &Vec<Vec<u8>>) -> (r: [u8; 32])
    ensures
        r@ == spread_bytes(hash_of(part_views(parts@))),
{
    spread(hash64(parts))
}

fn push_part(parts: &mut Vec<Vec<u8>>, bytes: &[u8])
    ensures
        part_views(final(parts)@) == part_views(old(parts)@).push(bytes@),
{
    parts.push(crate::bytes::copy_bytes(bytes));
    assert(part_views(parts@) =~= part_views(old(parts)@).push(bytes@));
}

fn no_parts() -> (r: Vec<Vec<u8>>)
    ensures
        part_views(r@) == Seq::<Seq<u8>>::empty(),
{
    let r: Vec<Vec<u8>> = Vec::new();
    assert(part_views(r@) =~= Seq::<Seq<u8>>::empty());
    r
}

/// The identity that belongs to a name.
pub open spec fn identity_bytes(seed_name: Seq<char>) -> Seq<u8> {
    spread_bytes(hash_of(seq![encode_utf8("id"@), encode_utf8(seed_name)]))
}

pub fn identity_named(seed_name: &str) -> (r: IdentityId)
    ensures
        r@ == identity_bytes(seed_name@),
{
    let mut parts: Vec<Vec<u8>> = no_parts();
    push_part(&mut parts, "id".as_bytes());
    push_part(&mut parts, seed_name.as_bytes());
    assert(part_views(parts@) =~= seq![encode_utf8("id"@), encode_utf8(seed_name@)]);
    IdentityId::from_bytes(derived(&parts))
}

/// Ids that come in the same order every time.
#[derive(Debug)]
pub struct TestIdGen {
    counter: u64,
}

impl View for TestIdGen {
    type V = u64;

    closed spec fn view(&self) -> u64 {
        self.counter
    }
}

impl Default for TestIdGen {
    fn default() -> (r: Self)
        ensures
            r@ == 0,
    {
        TestIdGen { counter: 0 }
    }
}

pub open spec fn parent_parts(parents: Seq<MessageId>) -> Seq<Seq<u8>> {
    parents.map_values(|p: MessageId| p@)
}

/// The number in eight bytes, a tag, and nothing else.
pub open spec fn numbered(n: u64, tag: u8) -> Seq<u8> {
    little_endian(n as nat, 8) + seq![tag, 0, 0, 0, 0, 0, 0, 0]
}

/// Marks transfer ids apart from call ids.
pub const TRANSFER_TAG: u8 = 0x54;

fn numbered_array(n: u64, tag: u8) -> (r: [u8; 16])
    ensures
        r@ == numbered(n, tag),
{
    let mut out: Vec<u8> = Vec::new();
    push_little_endian(&mut out, n, 8);
    proof {
        lemma_lens(n as nat, 8);
        assert(out@ =~= little_endian(n as nat, 8));
    }
    let mut bytes: [u8; 16] = [0;16];
    let mut i: usize = 0;
    while i < 8
        invariant
            i <= 8,
            out@.len() == 8,
            forall|j: int| 0 <= j < i ==> #[trigger] bytes@[j] == out@[j],
            forall|j: int| i <= j < 16 ==> #[trigger] bytes@[j] == 0,
        decreases 8 - i,
    {
        bytes[i] = out[i];
        i = i + 1;
    }
    bytes[8] = tag;
    assert(bytes@ =~= numbered(n, tag));
    bytes
}

impl TestIdGen {
    pub fn message_id(
        &self,
        author: &IdentityId,
        lamport: u64,
        parents: &Vec<MessageId>,
        body: &str,
    ) -> (r: MessageId)
        ensures
            r@ == spread_bytes(
                hash_of(
                    seq![author@, encode_utf8(body@), little_endian(lamport as nat, 8)]
                        + parent_parts(parents@),
                ),
            ),
    {
        let mut clock: Vec<u8> = Vec::new();
        push_little_endian(&mut clock, lamport, 8);
        let mut parts: Vec<Vec<u8>> = no_parts();
        push_part(&mut parts, author.as_bytes());
        push_part(&mut parts, body.as_bytes());
        push_part(&mut parts, &clock);
        let ghost head = seq![author@, encode_utf8(body@), little_endian(lamport as nat, 8)];
        let ghost all = parent_parts(parents@);
        let mut i: usize = 0;
        proof {
            assert(clock@ =~= little_endian(lamport as nat, 8));
            assert(part_views(parts@) =~= head + all.take(0));
        }
        while i < parents.len()
            invariant
                i <= parents@.len(),
                all == parent_parts(parents@),
                part_views(parts@) == head + all.take(i as int),
            decreases parents@.len() - i,
        {
            push_part(&mut parts, parents[i].as_bytes());
            assert(part_views(parts@) =~= head + all.take(i + 1));
            i = i + 1;
        }
        assert(all.take(i as int) =~= all);
        MessageId::from_bytes(derived(&parts))
    }

    pub fn channel_id(&self, name: &ChannelName) -> (r: ChannelId)
        ensures
            r@ == spread_bytes(hash_of(seq![encode_utf8("chan"@), encode_utf8(name@)])),
    {
        let mut parts: Vec<Vec<u8>> = no_parts();
        push_part(&mut parts, "chan".as_bytes());
        push_part(&mut parts, name.as_str().as_bytes());
        assert(part_views(parts@) =~= seq![encode_utf8("chan"@), encode_utf8(name@)]);
        ChannelId::from_bytes(derived(&parts))
    }

    pub fn call_id(&mut self) -> (r: CallId)
        ensures
            r@ == numbered(old(self)@, 0),
            final(self)@ == old(self)@.wrapping_add(1),
    {
        let n: u64 = self.counter;
        self.counter = n.wrapping_add(1);
        CallId::from_bytes(numbered_array(n, 0))
    }

    pub fn transfer_id(&mut self) -> (r: TransferId)
        ensures
            r@ == numbered(old(self)@, TRANSFER_TAG),
            final(self)@ == old(self)@.wrapping_add(1),
    {
        let n: u64 = self.counter;
        self.counter = n.wrapping_add(1);
        TransferId::from_bytes(numbered_array(n, TRANSFER_TAG))
    }
}

/// Where the fake clock starts.
pub const CLOCK_START_MS: u64 = 1_700_000_000_000;

/// A clock that ticks once per reading.
#[derive(Debug)]
pub struct TestClock {
    now: u64,
}

impl View for TestClock {
    type V = u64;

    closed spec fn view(&self) -> u64 {
        self.now
    }
}

impl Default for TestClock {
    fn default() -> (r: Self)
        ensures
            r@ == 0,
    {
        TestClock { now: 0 }
    }
}

impl TestClock {
    pub fn now_ms(&mut self) -> (r: u64)
        requires
            old(self)@ <= u64::MAX - CLOCK_START_MS,
        ensures
            r == old(self)@ + CLOCK_START_MS,
            final(self)@ == old(self)@ + 1,
    {
        let n: u64 = self.now;
        self.now = n + 1;
        n + CLOCK_START_MS
    }
}

/// The fingerprint that the fake keys give an identity.
pub open spec fn fake_fingerprint(id: Seq<u8>) -> Seq<u8> {
    spread_bytes(hash_of(seq![encode_utf8("fp"@), id]))
}

/// Keys without cryptography: fingerprints are derived from the identity.
#[derive(Debug)]
pub struct FakeKeyStore {
    id: IdentityId,
}

impl View for FakeKeyStore {
    type V = IdentityId;

    closed spec fn view(&self) -> IdentityId {
        self.id
    }
}

impl FakeKeyStore {
    pub fn new(id: IdentityId) -> (r: Self)
        ensures
            r@ == id,
    {
        FakeKeyStore { id }
    }

    pub fn derive_fingerprint(id: &IdentityId) -> (r: Fingerprint)
        ensures
            r@ == fake_fingerprint(id@),
    {
        let mut parts: Vec<Vec<u8>> = no_parts();
        push_part(&mut parts, "fp".as_bytes());
        push_part(&mut parts, id.as_bytes());
        assert(part_views(parts@) =~= seq![encode_utf8("fp"@), id@]);
        Fingerprint::from_bytes(derived(&parts))
    }

    pub fn local_identity(&self) -> (r: (IdentityId, Fingerprint))
        ensures
            r.0 == self@,
            r.1@ == fake_fingerprint(self@@),
    {
        (self.id, Self::derive_fingerprint(&self.id))
    }
}

/// The messages of one node, by channel, in the order they were saved.
#[derive(Debug)]
pub struct InMemoryStore {
    messages: SortedMap<ChannelId, Vec<WireMessage>>,
}

pub open spec fn wire_views(s: Seq<WireMessage>) -> Seq<crate::messaging::message::MessageView> {
    s.map_values(|m: WireMessage| m@)
}

/// What is stored for a channel.
pub open spec fn stored_for(
    v: Map<ChannelId, Seq<crate::messaging::message::MessageView>>,
    channel: ChannelId,
) -> Seq<crate::messaging::message::MessageView> {
    if v.contains_key(channel) {
        v[channel]
    } else {
        seq![]
    }
}

impl View for InMemoryStore {
    type V = Map<ChannelId, Seq<crate::messaging::message::MessageView>>;

    closed spec fn view(&self) -> Map<ChannelId, Seq<crate::messaging::message::MessageView>> {
        self.messages@.map_values(|s: Vec<WireMessage>| wire_views(s@))
    }
}

impl InMemoryStore {
    pub closed spec fn wf(&self) -> bool {
        self.messages.wf()
    }

    pub fn new() -> (r: Self)
        ensures
            r.wf(),
            r@ == Map::<ChannelId, Seq<crate::messaging::message::MessageView>>::empty(),
    {
        let r = InMemoryStore { messages: SortedMap::new() };
        assert(r@ =~= Map::<ChannelId, Seq<crate::messaging::message::MessageView>>::empty());
        r
    }

    pub fn save_channel_message(&mut self, channel: ChannelId, message: &WireMessage)
        requires
            old(self).wf(),
        ensures
            final(self).wf(),
            final(self)@ == old(self)@.insert(
                channel,
                stored_for(old(self)@, channel).push(message@),
            ),
    {
        let ghost before = self.messages@;
        let mut list: Vec<WireMessage> = match self.messages.remove(&channel) {
            Some(l) => l,
            None => Vec::new(),
        };
        let ghost was = list@;
        list.push(message.copied());
        self.messages.insert(channel, list);
        proof {
            assert(wire_views(list@) =~= wire_views(was).push(message@));
            assert(wire_views(Seq::<WireMessage>::empty()) =~= seq![]);
            assert(wire_views(was) =~= stored_for(old(self)@, channel));
            assert(self@ =~= old(self)@.insert(
                channel,
                stored_for(old(self)@, channel).push(message@),
            ));
        }
    }

    pub fn load_channel_messages(&self, channel: ChannelId) -> (r: Vec<WireMessage>)
        requires
            self.wf(),
        ensures
            wire_views(r@) == stored_for(self@, channel),
    {
        let mut r: Vec<WireMessage> = Vec::new();
        if let Some(list) = self.messages.get(&channel) {
            let mut i: usize = 0;
            while i < list.len()
                invariant
                    i <= list@.len(),
                    r@.len() == i,
                    forall|j: int| 0 <= j < i ==> (#[trigger] r@[j])@ == list@[j]@,
                decreases list@.len() - i,
            {
                r.push(list[i].copied());
                i = i + 1;
            }
            assert(wire_views(r@) =~= wire_views(list@));
        } else {
            assert(wire_views(r@) =~= seq![]);
        }
        r
    }
}

/// What is stored for a channel is what was put there last, and no other channel's.
pub proof fn law_channels_are_stored_apart(
    v: Map<ChannelId, Seq<crate::messaging::message::MessageView>>,
    channel: ChannelId,
    other: ChannelId,
    history: Seq<crate::messaging::message::MessageView>,
)
    requires
        channel != other,
    ensures
        stored_for(v.insert(channel, history), channel) == history,
        stored_for(v.insert(channel, history), other) == stored_for(v, other),
        !v.contains_key(channel) ==> stored_for(v, channel).len() == 0,
{
}

/// Ids that are handed out one after another are all different, and those of calls are no
/// ids of transfers.
pub proof fn law_numbered_ids_are_distinct(m: u64, n: u64, tag: u8, other: u8)
    requires
        (m, tag) != (n, other),
    ensures
        numbered(m, tag) != numbered(n, other),
{
    crate::bytes::lemma_lens(m as nat, 8);
    crate::bytes::lemma_lens(n as nat, 8);
    crate::bytes::lemma_pow256_values();
    if numbered(m, tag) == numbered(n, other) {
        assert(numbered(m, tag)[8] == tag);
        assert(numbered(n, other)[8] == other);
        assert(numbered(m, tag).subrange(0, 8) =~= little_endian(m as nat, 8));
        assert(numbered(n, other).subrange(0, 8) =~= little_endian(n as nat, 8));
        crate::bytes::lemma_little_endian_injective(m as nat, n as nat, 8);
    }
}

} // verus!

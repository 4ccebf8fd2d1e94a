//! What the network loop decides about what it is asked for and what arrives.

use vstd::prelude::*;

use crate::bytes::array_of;
use crate::calls::CallId;
use crate::crypto::is_public_key;
use crate::messaging::ChannelId;
use crate::net::names::{identity_in, identity_of_peer, peer_id_of, peer_of, topic_of};
use crate::ports::TransportError;
use crate::shared::IdentityId;
use crate::sorted::SortedSet;
use crate::text::{hex_digit, hex_text, same_text};
use crate::transfer::BlobHash;

verus! {

/// The gossip topic of a channel.
pub open spec fn topic_text(channel: Seq<u8>) -> Seq<char> {
    "mikall/1/chan/"@ + hex_text(channel)
}

/// Different channels have different topics.
pub proof fn law_topics_are_distinct(a: ChannelId, b: ChannelId)
    requires
        topic_text(a@) == topic_text(b@),
    ensures
        a == b,
{
    let t = "mikall/1/chan/"@.len() as int;
    ChannelId::lemma_view_injective(a, b);
    ChannelId::lemma_view_injective(b, a);
    assert(hex_text(a@) =~= topic_text(a@).skip(t));
    assert(hex_text(b@) =~= topic_text(b@).skip(t));
    reveal_strlit("0123456789abcdef");
    assert forall|i: int| 0 <= i < 32 implies a@[i] == b@[i] by {
        assert(hex_text(a@)[2 * i] == hex_digit(a@[i] as int / 16));
        assert(hex_text(b@)[2 * i] == hex_digit(b@[i] as int / 16));
        assert(hex_text(a@)[2 * i + 1] == hex_digit(a@[i] as int % 16));
        assert(hex_text(b@)[2 * i + 1] == hex_digit(b@[i] as int % 16));
    }
    assert(a@ =~= b@);
}

/// The channels whose topics are subscribed to.
#[derive(Debug)]
pub struct Topics {
    channels: SortedSet<ChannelId>,
}

impl View for Topics {
    type V = Set<ChannelId>;

    closed spec fn view(&self) -> Set<ChannelId> {
        self.channels@
    }
}

impl Topics {
    pub closed spec fn wf(&self) -> bool {
        self.channels.wf()
    }

    pub fn new() -> (r: Self)
        ensures
            r.wf(),
            r@ == Set::<ChannelId>::empty(),
    {
        Topics { channels: SortedSet::new() }
    }

    pub fn subscribe(&mut self, channel: ChannelId)
        requires
            old(self).wf(),
        ensures
            final(self).wf(),
            final(self)@ == old(self)@.insert(channel),
    {
        self.channels.insert(channel);
    }

    pub fn unsubscribe(&mut self, channel: &ChannelId)
        requires
            old(self).wf(),
        ensures
            final(self).wf(),
            final(self)@ == old(self)@.remove(*channel),
    {
        let _ = self.channels.remove(channel);
    }

    /// The channel that a topic belongs to. A topic that is not subscribed to is
    /// nobody's.
    pub fn channel_of(&self, topic: &str) -> (r: Option<ChannelId>)
        requires
            self.wf(),
        ensures
            match r {
                Some(c) => self@.contains(c) && topic_text(c@) == topic@,
                None => forall|c: ChannelId| #[trigger]
                    self@.contains(c) ==> topic_text(c@) != topic@,
            },
    {
        let n: usize = self.channels.len();
        let mut i: usize = 0;
        proof {
            self.channels.lemma_walk();
        }
        while i < n
            invariant
                i <= n == self.channels.walk().len(),
                self.wf(),
                forall|c: ChannelId| self.channels.walk().contains(c) <==> self@.contains(c),
                forall|j: int|
                    0 <= j < i ==> topic_text((#[trigger] self.channels.walk()[j])@) != topic@,
            decreases n - i,
        {
            let c: ChannelId = self.channels.at(i);
            let text: String = topic_of(&c);
            if same_text(text.as_str(), topic) {
                assert(self.channels.walk().contains(c));
                return Some(c);
            }
            i = i + 1;
        }
        proof {
            assert forall|c: ChannelId| #[trigger] self@.contains(c) implies topic_text(c@)
                != topic@ by {
                assert(self.channels.walk().contains(c));
                let j = choose|j: int|
                    0 <= j < self.channels.walk().len() && self.channels.walk()[j] == c;
            }
        }
        None
    }
}

/// Where a message for an identity goes, or why it cannot: only a valid key is a
/// peer.
pub fn recipient(to: &IdentityId) -> (r: Result<Vec<u8>, TransportError>)
    ensures
        match r {
            Ok(peer) => is_public_key(to@) && peer@ == peer_of(to@),
            Err(e) => !is_public_key(to@) && (e matches TransportError::Other(why) && why@
                == "recipient identity is not a valid key"@),
        },
{
    match peer_id_of(to) {
        Some(peer) => Ok(peer),
        None => Err(TransportError::Other("recipient identity is not a valid key".to_owned())),
    }
}

/// Where a chunk is fetched from, or why it cannot be.
pub fn chunk_source(from: &IdentityId) -> (r: Result<Vec<u8>, TransportError>)
    ensures
        match r {
            Ok(peer) => is_public_key(from@) && peer@ == peer_of(from@),
            Err(e) => !is_public_key(from@) && (e matches TransportError::Other(why) && why@
                == "peer identity is not a valid key"@),
        },
{
    match peer_id_of(from) {
        Some(peer) => Ok(peer),
        None => Err(TransportError::Other("peer identity is not a valid key".to_owned())),
    }
}

/// Whose frame a media packet is, and of which call: the sender is told by the
/// key that their peer id is made of.
pub fn media_origin(peer: &[u8], call: &[u8]) -> (r: Option<(IdentityId, CallId)>)
    ensures
        match r {
            Some((from, id)) => {
                &&& call@.len() == 16
                &&& id@ == call@
                &&& identity_in(peer@) == Some(from@)
            },
            None => call@.len() != 16 || identity_in(peer@) is None,
        },
{
    match array_of::<16>(call) {
        Some(bytes) => match identity_of_peer(peer) {
            Some(from) => Some((from, CallId::from_bytes(bytes))),
            None => None,
        },
        None => None,
    }
}

/// The file that a chunk is asked of, if the request names one.
pub fn requested_root(root: &[u8]) -> (r: Option<BlobHash>)
    ensures
        match r {
            Some(hash) => root@.len() == 32 && hash@ == root@,
            None => root@.len() != 32,
        },
{
    match array_of::<32>(root) {
        Some(bytes) => Some(BlobHash::from_bytes(bytes)),
        None => None,
    }
}

/// What a peer's answer to a chunk request comes to.
pub fn chunk_answer(chunk: Option<Vec<u8>>) -> (r: Result<Vec<u8>, TransportError>)
    ensures
        match chunk {
            Some(bytes) => r == Ok::<Vec<u8>, TransportError>(bytes),
            None => r matches Err(TransportError::Other(why)) && why@
                == "peer does not have that chunk"@,
        },
{
    match chunk {
        Some(bytes) => Ok(bytes),
        None => Err(TransportError::Other("peer does not have that chunk".to_owned())),
    }
}

/// A channel's topic is its id, in hexadecimal, behind the name of the protocol.
pub proof fn law_topics_name_their_channel(channel: Seq<u8>)
    ensures
        topic_text(channel) == "mikall/1/chan/"@ + hex_text(channel),
        topic_text(channel).len() == 14 + 2 * channel.len(),
{
    reveal_strlit("mikall/1/chan/");
}

} // verus!

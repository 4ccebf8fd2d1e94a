//! The names under which channels and peers are found on the network.
//!
//! The transport keypair is derived from the *same* Ed25519 secret as the
//! identity, so a peer's id is a pure function of its identity: direct
//! messages route without any lookup table.

use vstd::prelude::*;

use crate::crypto::is_public_key;
use crate::messaging::values::channel_name_fault;
use crate::messaging::{ChannelId, ChannelName};
use crate::ports::ChannelRecord;
use crate::shared::IdentityId;
use crate::text::{hex_of, hex_text, lower_all};
use crate::wording::worded;

use crate::bytes::{array_of, copy_bytes};

verus! {

/// The hash code and the digest of a peer id, if the bytes are one.
pub uninterp spec fn peer_parts_of(peer: Seq<u8>) -> Option<(u64, Seq<u8>)>;

/// The Ed25519 key inside a protobuf-encoded public key, if it is one.
pub uninterp spec fn ed25519_key_in(encoded: Seq<u8>) -> Option<Seq<u8>>;

/// The protobuf encoding of an Ed25519 public key.
pub open spec fn encoded_key(key: Seq<u8>) -> Seq<u8> {
    seq![8u8, 1, 18, 32] + key
}

/// The id of the peer with an Ed25519 key: the key itself, under the code that
/// marks a digest as the data itself.
pub open spec fn peer_of(key: Seq<u8>) -> Seq<u8> {
    seq![0u8, 36] + encoded_key(key)
}

/// `libp2p::PeerId::from_public_key`, of an Ed25519 public key: the peer id's
/// bytes, if the key's bytes are a public key. Such a peer id comes apart again
/// into its code, which is zero, and the encoded key, and that encoded key holds
/// the key.
#[verifier::external_body]
fn libp2p_peer(key: &[u8; 32]) -> (r: Option<Vec<u8>>)
    ensures
        match r {
            Some(p) => {
                &&& is_public_key(key@)
                &&& p@ == peer_of(key@)
                &&& peer_parts_of(p@) == Some((0u64, encoded_key(key@)))
                &&& ed25519_key_in(p@.skip(2)) == Some(key@)
            },
            None => !is_public_key(key@),
        },
{
    match libp2p::identity::ed25519::PublicKey::try_from_bytes(key) {
        Ok(k) => Some(
            libp2p::PeerId::from_public_key(&libp2p::identity::PublicKey::from(k)).to_bytes(),
        ),
        Err(_) => None,
    }
}

/// `libp2p::PeerId::from_bytes`: the code and the digest of the multihash that
/// a peer id is, if the bytes are one.
#[verifier::external_body]
fn libp2p_peer_parts(peer: &[u8]) -> (r: Option<(u64, Vec<u8>)>)
    ensures
        match r {
            Some((code, digest)) => peer_parts_of(peer@) == Some((code, digest@)),
            None => peer_parts_of(peer@) is None,
        },
{
    match libp2p::PeerId::from_bytes(peer) {
        Ok(p) => Some((p.as_ref().code(), p.as_ref().digest().to_vec())),
        Err(_) => None,
    }
}

/// `libp2p::identity::PublicKey::try_decode_protobuf`, then
/// `try_into_ed25519`: the bytes of the Ed25519 key, if it is one.
#[verifier::external_body]
fn libp2p_ed25519(encoded: &[u8]) -> (r: Option<[u8; 32]>)
    ensures
        match r {
            Some(key) => ed25519_key_in(encoded@) == Some(key@),
            None => ed25519_key_in(encoded@) is None,
        },
{
    match libp2p::identity::PublicKey::try_decode_protobuf(encoded) {
        Ok(public) => match public.try_into_ed25519() {
            Ok(key) => Some(key.to_bytes()),
            Err(_) => None,
        },
        Err(_) => None,
    }
}

/// The identity behind a peer id: the Ed25519 key that it is made of.
pub open spec fn identity_in(peer: Seq<u8>) -> Option<Seq<u8>> {
    match peer_parts_of(peer) {
        Some((code, digest)) => if code == 0 {
            ed25519_key_in(digest)
        } else {
            None
        },
        None => None,
    }
}

/// The peer id of an identity, if the identity is a valid key: a pure function
/// of the identity, from which the identity can be told again.
pub fn peer_id_of(id: &IdentityId) -> (r: Option<Vec<u8>>)
    ensures
        match r {
            Some(p) => is_public_key(id@) && p@ == peer_of(id@) && identity_in(p@) == Some(id@),
            None => !is_public_key(id@),
        },
{
    let r = libp2p_peer(id.as_bytes());
    proof {
        if r is Some {
            assert(peer_of(id@).skip(2) =~= encoded_key(id@));
        }
    }
    r
}

/// Inverse mapping: recover the identity from an Ed25519 peer id (inline public
/// key). Returns `None` for any other peer.
pub fn identity_of_peer(peer: &[u8]) -> (r: Option<IdentityId>)
    ensures
        match r {
            Some(id) => identity_in(peer@) == Some(id@),
            None => identity_in(peer@) is None,
        },
{
    match libp2p_peer_parts(peer) {
        Some((code, digest)) => {
            if code != 0 {
                return None;
            }
            match libp2p_ed25519(digest.as_slice()) {
                Some(key) => Some(IdentityId::from_bytes(key)),
                None => None,
            }
        },
        None => None,
    }
}

/// The gossip topic of a channel.
pub fn topic_of(channel: &ChannelId) -> (r: String)
    ensures
        r@ == "mikall/1/chan/"@ + hex_text(channel@),
{
    let hex: String = hex_of(channel.as_bytes());
    worded("mikall/1/chan/", hex.as_str())
}

/// The key under which a channel's record is found in the directory.
pub fn channel_record_key(name: &ChannelName) -> (r: String)
    ensures
        r@ == "mikall:chan:v1:"@ + name@,
{
    worded("mikall:chan:v1:", name.as_str())
}

/// A channel record as it is stored in the directory.
#[derive(Debug)]
pub struct ChannelRecordDto {
    pub id: Vec<u8>,
    pub name: String,
    pub founder: Vec<u8>,
}

/// A record that the directory may hold: ids of the right size, and a channel
/// name.
pub open spec fn readable(dto: ChannelRecordDto) -> bool {
    dto.id@.len() == 32 && channel_name_fault(dto.name@) is None && dto.founder@.len() == 32
}

pub fn encode_record(record: &ChannelRecord) -> (r: ChannelRecordDto)
    ensures
        r.id@ == record.id@,
        r.name@ == record.name@,
        r.founder@ == record.founder@,
{
    ChannelRecordDto {
        id: copy_bytes(record.id.as_bytes()),
        name: record.name.as_str().to_owned(),
        founder: copy_bytes(record.founder.as_bytes()),
    }
}

pub fn decode_record(dto: ChannelRecordDto) -> (r: Option<ChannelRecord>)
    ensures
        match r {
            Some(record) => {
                &&& readable(dto)
                &&& record.id@ == dto.id@
                &&& record.name@ == lower_all(dto.name@)
                &&& record.name.wf()
                &&& record.founder@ == dto.founder@
            },
            None => !readable(dto),
        },
{
    let id: ChannelId = match array_of::<32>(dto.id.as_slice()) {
        Some(bytes) => ChannelId::from_bytes(bytes),
        None => {
            return None;
        },
    };
    let name: ChannelName = match ChannelName::parse(dto.name.as_str()) {
        Ok(name) => name,
        Err(_) => {
            return None;
        },
    };
    let founder: IdentityId = match array_of::<32>(dto.founder.as_slice()) {
        Some(bytes) => IdentityId::from_bytes(bytes),
        None => {
            return None;
        },
    };
    Some(ChannelRecord { id, name, founder })
}

/// A channel's record comes back from the directory as it was put there.
pub proof fn law_record_survives_the_directory(
    record: ChannelRecord,
    dto: ChannelRecordDto,
    read: ChannelRecord,
)
    requires
        record.name.wf(),
        dto.id@ == record.id@,
        dto.name@ == record.name@,
        dto.founder@ == record.founder@,
        read.id@ == dto.id@,
        read.name@ == lower_all(dto.name@),
        read.founder@ == dto.founder@,
    ensures
        readable(dto),
        read.id == record.id,
        read.name@ == record.name@,
        read.founder == record.founder,
{
    ChannelId::lemma_view_injective(read.id, record.id);
    IdentityId::lemma_view_injective(read.founder, record.founder);
}

/// An identity is found behind the peer id that it is made of, if the peer id comes apart
/// into the key again; and none is found behind any other kind of id.
pub proof fn law_identities_are_found_behind_peers(peer: Seq<u8>, code: u64, digest: Seq<u8>)
    ensures
        peer_parts_of(peer) == Some((code, digest)) && code == 0 ==> identity_in(peer)
            == ed25519_key_in(digest),
        peer_parts_of(peer) == Some((code, digest)) && code != 0 ==> identity_in(peer) is None,
        peer_parts_of(peer) is None ==> identity_in(peer) is None,
{
}

} // verus!

//! What envelopes carry, and the rules by which they are believed.
//!
//! Nothing in here reaches the services unverified: bytes become values only
//! after [`check_signature`], and then only through [`open_envelope`] and
//! [`open_dm`], which check the author-consistency and content-derived-id
//! rules.

use vstd::prelude::*;

use crate::bytes::{array_of, copy_bytes};
use crate::calls::CallId;
use crate::crypto::{
    blake3_of, derive_message_id, message_preimage, public_key_of, signature_fault,
    signature_of, verify_signature, LocalKeys,
};
use crate::messaging::message::MessageView;
use crate::messaging::{MessageId, Verified};
use crate::order::Key;
use crate::ports::{acting, CallAction, ChannelSignal, WireMessage};
use crate::shared::IdentityId;
use crate::transfer::{
    file_name_fault, manifest_fault, BlobHash, FileManifest, FileName, ManifestView,
};
use crate::wording::{file_name_error_text, manifest_error_text};

verus! {

#[derive(Debug, Clone, PartialEq, Eq)]
pub enum WireError {
    Malformed(String),
    BadSignature,
    AuthorMismatch,
    IdMismatch,
}

/// What a wire error says.
pub enum WireErrorView {
    Malformed(Seq<char>),
    BadSignature,
    AuthorMismatch,
    IdMismatch,
}

impl View for WireError {
    type V = WireErrorView;

    open spec fn view(&self) -> WireErrorView {
        match *self {
            WireError::Malformed(why) => WireErrorView::Malformed(why@),
            WireError::BadSignature => WireErrorView::BadSignature,
            WireError::AuthorMismatch => WireErrorView::AuthorMismatch,
            WireError::IdMismatch => WireErrorView::IdMismatch,
        }
    }
}

/// Bytes that should be an id and are not.
pub open spec fn not_an_id() -> WireErrorView {
    WireErrorView::Malformed("expected 32 bytes"@)
}

/// Ceiling for any envelope we will parse.
pub const MAX_ENVELOPE_BYTES: usize = 65536;

#[derive(Debug)]
pub struct MsgDto {
    pub id: Vec<u8>,
    pub author: Vec<u8>,
    pub lamport: u64,
    pub parents: Vec<Vec<u8>>,
    pub body: String,
    pub ts_hint_ms: u64,
}

#[derive(Debug)]
pub enum SignalDto {
    Msg(MsgDto),
    Joined { who: Vec<u8>, nickname: Option<String> },
    Left { who: Vec<u8> },
    Topic { by: Vec<u8>, topic: String },
    Role { by: Vec<u8>, target: Vec<u8>, op: bool },
    Presence { who: Vec<u8>, away: Option<String> },
}

#[derive(Debug)]
pub struct ManifestDto {
    pub name: String,
    pub size: u64,
    pub root: Vec<u8>,
    pub chunk_hashes: Vec<Vec<u8>>,
}

#[derive(Debug)]
pub enum CallActionDto {
    Offer { participants: Vec<Vec<u8>>, media_key: Vec<u8> },
    Accept,
    Decline,
    HangUp,
    ScreenShare { active: bool },
    Mute { active: bool },
}

/// Payload of the direct protocol: chat, a file offer or call signaling.
#[derive(Debug)]
pub enum DmPayloadDto {
    Chat(MsgDto),
    Offer(ManifestDto),
    Call { call: Vec<u8>, action: CallActionDto },
}

/// Decoded, verified direct payload.
#[derive(Debug)]
pub enum DmPayload {
    Chat(WireMessage),
    Offer(FileManifest),
    Call(CallId, CallAction),
}

/// A signed envelope as carried on gossip topics and the direct protocol.
#[derive(Debug)]
pub struct SignedEnvelope {
    /// The signature covers exactly these bytes: sign the bytes, never
    /// re-serialize-then-verify.
    pub payload: Vec<u8>,
    /// Ed25519 public key of the author (32 bytes).
    pub author: Vec<u8>,
    /// Ed25519 signature over `payload` (64 bytes).
    pub sig: Vec<u8>,
}

/// The bytes of a list of byte strings.
pub open spec fn byte_views(s: Seq<Vec<u8>>) -> Seq<Seq<u8>> {
    Seq::new(s.len(), |i: int| s[i]@)
}

/// Every one has 32 bytes.
pub open spec fn all_ids(s: Seq<Vec<u8>>) -> bool {
    forall|i: int| 0 <= i < s.len() ==> (#[trigger] s[i])@.len() == 32
}

/// The bytes of a list of message ids.
pub open spec fn message_id_views(s: Seq<MessageId>) -> Seq<Seq<u8>> {
    Seq::new(s.len(), |i: int| s[i]@)
}

/// What a message becomes on the wire.
pub open spec fn carries(dto: MsgDto, m: MessageView) -> bool {
    &&& dto.id@ == m.id@
    &&& dto.author@ == m.author@
    &&& dto.lamport == m.lamport
    &&& byte_views(dto.parents@) == message_id_views(m.parents)
    &&& dto.body@ == m.body
    &&& dto.ts_hint_ms == m.ts_hint_ms
}

fn to_array32(bytes: &[u8]) -> (r: Result<[u8; 32], WireError>)
    ensures
        match r {
            Ok(a) => bytes@.len() == 32 && a@ == bytes@,
            Err(e) => bytes@.len() != 32 && e@ == not_an_id(),
        },
{
    match array_of::<32>(bytes) {
        Some(a) => Ok(a),
        None => Err(WireError::Malformed("expected 32 bytes".to_owned())),
    }
}

/// The bytes of each id.
fn ids_out(ids: &Vec<MessageId>) -> (r: Vec<Vec<u8>>)
    ensures
        byte_views(r@) == message_id_views(ids@),
{
    let mut r: Vec<Vec<u8>> = Vec::new();
    let mut i: usize = 0;
    while i < ids.len()
        invariant
            i <= ids@.len(),
            r@.len() == i,
            forall|j: int| 0 <= j < i ==> (#[trigger] r@[j])@ == ids@[j]@,
        decreases ids@.len() - i,
    {
        r.push(copy_bytes(ids[i].as_bytes()));
        i = i + 1;
    }
    assert(byte_views(r@) =~= message_id_views(ids@));
    r
}

/// The id of each byte string, if they all are ids.
fn ids_in(bytes: &Vec<Vec<u8>>) -> (r: Result<Vec<MessageId>, WireError>)
    ensures
        match r {
            Ok(ids) => all_ids(bytes@) && message_id_views(ids@) == byte_views(bytes@),
            Err(e) => !all_ids(bytes@) && e@ == not_an_id(),
        },
{
    let mut r: Vec<MessageId> = Vec::new();
    let mut i: usize = 0;
    while i < bytes.len()
        invariant
            i <= bytes@.len(),
            r@.len() == i,
            forall|j: int| 0 <= j < i ==> (#[trigger] bytes@[j])@.len() == 32,
            forall|j: int| 0 <= j < i ==> (#[trigger] r@[j])@ == bytes@[j]@,
        decreases bytes@.len() - i,
    {
        match to_array32(bytes[i].as_slice()) {
            Ok(a) => {
                r.push(MessageId::from_bytes(a));
            },
            Err(e) => {
                assert(bytes@[i as int]@.len() != 32);
                return Err(e);
            },
        }
        i = i + 1;
    }
    assert(message_id_views(r@) =~= byte_views(bytes@));
    Ok(r)
}

pub fn msg_dto(message: &WireMessage) -> (r: MsgDto)
    ensures
        carries(r, message@),
{
    MsgDto {
        id: copy_bytes(message.id.as_bytes()),
        author: copy_bytes(message.author.as_bytes()),
        lamport: message.lamport,
        parents: ids_out(&message.parents),
        body: message.body.clone(),
        ts_hint_ms: message.ts_hint_ms,
    }
}

/// Why a message is not believed, if so. Its id is derived from its content:
/// any other is a forgery.
pub open spec fn msg_fault(dto: MsgDto) -> Option<WireErrorView> {
    if dto.author@.len() != 32 || dto.id@.len() != 32 || !all_ids(dto.parents@) {
        Some(not_an_id())
    } else if !honest_id(dto) {
        Some(WireErrorView::IdMismatch)
    } else {
        None
    }
}

/// The id is the one that the content has.
pub open spec fn honest_id(dto: MsgDto) -> bool {
    exists|m: MessageView| #[trigger]
        carries(dto, m) && m.id@ == blake3_of(
            message_preimage(m.author, m.lamport, m.parents, m.body),
        )
}

/// One message is carried by what carries it.
proof fn lemma_carries_one(dto: MsgDto, a: MessageView, b: MessageView)
    requires
        carries(dto, a),
        carries(dto, b),
    ensures
        a == b,
{
    MessageId::lemma_view_injective(a.id, b.id);
    IdentityId::lemma_view_injective(a.author, b.author);
    assert(message_id_views(a.parents).len() == message_id_views(b.parents).len());
    assert forall|i: int| 0 <= i < a.parents.len() implies a.parents[i] == b.parents[i] by {
        assert(message_id_views(a.parents)[i] == message_id_views(b.parents)[i]);
        MessageId::lemma_view_injective(a.parents[i], b.parents[i]);
    }
    assert(a.parents =~= b.parents);
}

/// Reads a message back, refusing forged ids.
pub fn parse_msg(dto: MsgDto) -> (r: Result<WireMessage, WireError>)
    ensures
        match r {
            Ok(m) => msg_fault(dto) is None && carries(dto, m@),
            Err(e) => msg_fault(dto) == Some(e@),
        },
{
    let author: IdentityId = match to_array32(dto.author.as_slice()) {
        Ok(a) => IdentityId::from_bytes(a),
        Err(e) => {
            return Err(e);
        },
    };
    let id: MessageId = match to_array32(dto.id.as_slice()) {
        Ok(a) => MessageId::from_bytes(a),
        Err(e) => {
            return Err(e);
        },
    };
    let parents: Vec<MessageId> = match ids_in(&dto.parents) {
        Ok(p) => p,
        Err(e) => {
            return Err(e);
        },
    };
    let expected: MessageId = derive_message_id(
        &author,
        dto.lamport,
        parents.as_slice(),
        dto.body.as_str(),
    );
    let ghost m = MessageView {
        id,
        author,
        lamport: dto.lamport,
        parents: parents@,
        body: dto.body@,
        ts_hint_ms: dto.ts_hint_ms,
    };
    assert(carries(dto, m));
    if !expected.same(&id) {
        proof {
            MessageId::lemma_view_injective(expected, id);
            if honest_id(dto) {
                let o = choose|o: MessageView| #[trigger]
                    carries(dto, o) && o.id@ == blake3_of(
                        message_preimage(o.author, o.lamport, o.parents, o.body),
                    );
                lemma_carries_one(dto, m, o);
            }
        }
        return Err(WireError::IdMismatch);
    }
    assert(honest_id(dto));
    Ok(
        WireMessage {
            id,
            author,
            lamport: dto.lamport,
            parents,
            body: dto.body,
            ts_hint_ms: dto.ts_hint_ms,
        },
    )
}

/// What a manifest becomes on the wire.
pub open spec fn carries_manifest(dto: ManifestDto, m: ManifestView) -> bool {
    &&& dto.name@ == m.name
    &&& dto.size == m.size
    &&& dto.root@ == m.root@
    &&& byte_views(dto.chunk_hashes@) == hash_views(m.chunk_hashes)
}

/// The bytes of a list of hashes.
pub open spec fn hash_views(s: Seq<BlobHash>) -> Seq<Seq<u8>> {
    Seq::new(s.len(), |i: int| s[i]@)
}

/// The hash of each byte string, if they all are of the right size.
fn hashes_in(bytes: &Vec<Vec<u8>>) -> (r: Result<Vec<BlobHash>, WireError>)
    ensures
        match r {
            Ok(ids) => all_ids(bytes@) && hash_views(ids@) == byte_views(bytes@),
            Err(e) => !all_ids(bytes@) && e@ == not_an_id(),
        },
{
    let mut r: Vec<BlobHash> = Vec::new();
    let mut i: usize = 0;
    while i < bytes.len()
        invariant
            i <= bytes@.len(),
            r@.len() == i,
            forall|j: int| 0 <= j < i ==> (#[trigger] bytes@[j])@.len() == 32,
            forall|j: int| 0 <= j < i ==> (#[trigger] r@[j])@ == bytes@[j]@,
        decreases bytes@.len() - i,
    {
        match to_array32(bytes[i].as_slice()) {
            Ok(a) => {
                r.push(BlobHash::from_bytes(a));
            },
            Err(e) => {
                assert(bytes@[i as int]@.len() != 32);
                return Err(e);
            },
        }
        i = i + 1;
    }
    assert(hash_views(r@) =~= byte_views(bytes@));
    Ok(r)
}

pub fn manifest_dto(manifest: &FileManifest) -> (r: ManifestDto)
    requires
        manifest.wf(),
    ensures
        carries_manifest(r, manifest@),
{
    let n: u32 = manifest.chunk_count();
    let mut chunk_hashes: Vec<Vec<u8>> = Vec::new();
    let mut i: u32 = 0;
    while i < n
        invariant
            manifest.wf(),
            i <= n,
            n == manifest@.chunk_hashes.len(),
            chunk_hashes@.len() == i,
            forall|j: int|
                0 <= j < i ==> (#[trigger] chunk_hashes@[j])@ == manifest@.chunk_hashes[j]@,
        decreases n - i,
    {
        match manifest.chunk_hash(i) {
            Some(hash) => {
                chunk_hashes.push(copy_bytes(hash.as_bytes()));
            },
            None => {},
        }
        i = i + 1;
    }
    assert(byte_views(chunk_hashes@) =~= hash_views(manifest@.chunk_hashes));
    ManifestDto {
        name: manifest.name().as_str().to_owned(),
        size: manifest.size(),
        root: copy_bytes(manifest.root().as_bytes()),
        chunk_hashes,
    }
}

/// Why a manifest is not believed, if so: a name that cannot be, hashes of the
/// wrong size, or not as many as the size asks for.
pub open spec fn manifest_dto_fault(dto: ManifestDto) -> Option<WireErrorView> {
    let name_fault = file_name_fault(dto.name@);
    let fault = manifest_fault(dto.size, dto.chunk_hashes@.len());
    if name_fault is Some {
        Some(WireErrorView::Malformed(file_name_error_text(name_fault->0)))
    } else if dto.root@.len() != 32 || !all_ids(dto.chunk_hashes@) {
        Some(not_an_id())
    } else if fault is Some {
        Some(WireErrorView::Malformed(manifest_error_text(fault->0)))
    } else {
        None
    }
}

pub fn parse_manifest(dto: ManifestDto) -> (r: Result<FileManifest, WireError>)
    ensures
        match r {
            Ok(m) => manifest_dto_fault(dto) is None && m.wf() && carries_manifest(dto, m@),
            Err(e) => manifest_dto_fault(dto) == Some(e@),
        },
{
    let name: FileName = match FileName::parse(dto.name.as_str()) {
        Ok(name) => name,
        Err(e) => {
            return Err(WireError::Malformed(e.text().to_owned()));
        },
    };
    let root: BlobHash = match to_array32(dto.root.as_slice()) {
        Ok(a) => BlobHash::from_bytes(a),
        Err(e) => {
            return Err(e);
        },
    };
    let hashes: Vec<BlobHash> = match hashes_in(&dto.chunk_hashes) {
        Ok(hashes) => hashes,
        Err(e) => {
            return Err(e);
        },
    };
    assert(hash_views(hashes@).len() == byte_views(dto.chunk_hashes@).len());
    match FileManifest::new(name, dto.size, root, hashes) {
        Ok(m) => Ok(m),
        Err(e) => Err(WireError::Malformed(e.text())),
    }
}

/// The bytes of a list of identities.
pub open spec fn identity_views(s: Seq<IdentityId>) -> Seq<Seq<u8>> {
    Seq::new(s.len(), |i: int| s[i]@)
}

/// What a call action becomes on the wire.
pub open spec fn carries_action(dto: CallActionDto, action: CallAction) -> bool {
    match (dto, action) {
        (
            CallActionDto::Offer { participants, media_key },
            CallAction::Offer { participants: who, media_key: key },
        ) => byte_views(participants@) == identity_views(who@) && media_key@ == key@,
        (CallActionDto::Accept, CallAction::Accept) => true,
        (CallActionDto::Decline, CallAction::Decline) => true,
        (CallActionDto::HangUp, CallAction::HangUp) => true,
        (CallActionDto::ScreenShare { active: a }, CallAction::ScreenShare { active: b }) => a == b,
        (CallActionDto::Mute { active: a }, CallAction::Mute { active: b }) => a == b,
        _ => false,
    }
}

/// Every id in it has the right size.
pub open spec fn action_ok(dto: CallActionDto) -> bool {
    match dto {
        CallActionDto::Offer { participants, media_key } => all_ids(participants@)
            && media_key@.len() == 32,
        _ => true,
    }
}

pub fn action_dto(action: &CallAction) -> (r: CallActionDto)
    ensures
        carries_action(r, *action),
{
    match action {
        CallAction::Offer { participants, media_key } => {
            let mut out: Vec<Vec<u8>> = Vec::new();
            let mut i: usize = 0;
            while i < participants.len()
                invariant
                    i <= participants@.len(),
                    out@.len() == i,
                    forall|j: int| 0 <= j < i ==> (#[trigger] out@[j])@ == participants@[j]@,
                decreases participants@.len() - i,
            {
                out.push(copy_bytes(participants[i].as_bytes()));
                i = i + 1;
            }
            assert(byte_views(out@) =~= identity_views(participants@));
            CallActionDto::Offer { participants: out, media_key: copy_bytes(media_key) }
        },
        CallAction::Accept => CallActionDto::Accept,
        CallAction::Decline => CallActionDto::Decline,
        CallAction::HangUp => CallActionDto::HangUp,
        CallAction::ScreenShare { active } => CallActionDto::ScreenShare { active: *active },
        CallAction::Mute { active } => CallActionDto::Mute { active: *active },
    }
}

/// The identity of each byte string, if they all are of the right size.
fn identities_in(bytes: &Vec<Vec<u8>>) -> (r: Result<Vec<IdentityId>, WireError>)
    ensures
        match r {
            Ok(ids) => all_ids(bytes@) && identity_views(ids@) == byte_views(bytes@),
            Err(e) => !all_ids(bytes@) && e@ == not_an_id(),
        },
{
    let mut r: Vec<IdentityId> = Vec::new();
    let mut i: usize = 0;
    while i < bytes.len()
        invariant
            i <= bytes@.len(),
            r@.len() == i,
            forall|j: int| 0 <= j < i ==> (#[trigger] bytes@[j])@.len() == 32,
            forall|j: int| 0 <= j < i ==> (#[trigger] r@[j])@ == bytes@[j]@,
        decreases bytes@.len() - i,
    {
        match to_array32(bytes[i].as_slice()) {
            Ok(a) => {
                r.push(IdentityId::from_bytes(a));
            },
            Err(e) => {
                assert(bytes@[i as int]@.len() != 32);
                return Err(e);
            },
        }
        i = i + 1;
    }
    assert(identity_views(r@) =~= byte_views(bytes@));
    Ok(r)
}

pub fn parse_action(dto: CallActionDto) -> (r: Result<CallAction, WireError>)
    ensures
        match r {
            Ok(action) => action_ok(dto) && carries_action(dto, action),
            Err(e) => !action_ok(dto) && e@ == not_an_id(),
        },
{
    match dto {
        CallActionDto::Offer { participants, media_key } => {
            let who: Vec<IdentityId> = match identities_in(&participants) {
                Ok(who) => who,
                Err(e) => {
                    return Err(e);
                },
            };
            match to_array32(media_key.as_slice()) {
                Ok(key) => Ok(CallAction::Offer { participants: who, media_key: key }),
                Err(e) => Err(e),
            }
        },
        CallActionDto::Accept => Ok(CallAction::Accept),
        CallActionDto::Decline => Ok(CallAction::Decline),
        CallActionDto::HangUp => Ok(CallAction::HangUp),
        CallActionDto::ScreenShare { active } => Ok(CallAction::ScreenShare { active }),
        CallActionDto::Mute { active } => Ok(CallAction::Mute { active }),
    }
}

/// What a signal becomes on the wire.
pub open spec fn carries_signal(dto: SignalDto, signal: ChannelSignal) -> bool {
    match (dto, signal) {
        (SignalDto::Msg(d), ChannelSignal::Message(m)) => carries(d, m@),
        (
            SignalDto::Joined { who: d, nickname: a },
            ChannelSignal::Joined { who, nickname: b },
        ) => d@ == who@ && a == b,
        (SignalDto::Left { who: d }, ChannelSignal::Left { who }) => d@ == who@,
        (SignalDto::Topic { by: d, topic: a }, ChannelSignal::TopicChanged { by, topic: b }) => d@
            == by@ && a == b,
        (
            SignalDto::Role { by: d, target: t, op: a },
            ChannelSignal::RoleChanged { by, target, op: b },
        ) => d@ == by@ && t@ == target@ && a == b,
        (SignalDto::Presence { who: d, away: a }, ChannelSignal::Presence { who, away: b }) => d@
            == who@ && a == b,
        _ => false,
    }
}

/// Who acts in a signal.
pub open spec fn actor(dto: SignalDto) -> Seq<u8> {
    match dto {
        SignalDto::Msg(m) => m.author@,
        SignalDto::Joined { who, .. } => who@,
        SignalDto::Left { who } => who@,
        SignalDto::Topic { by, .. } => by@,
        SignalDto::Role { by, .. } => by@,
        SignalDto::Presence { who, .. } => who@,
    }
}

/// Why a signal in an envelope signed by `author` is not believed, if so. An
/// operation must be self-signed: who acts in it must be who signed it.
pub open spec fn signal_fault(author: IdentityId, dto: SignalDto) -> Option<WireErrorView> {
    let broken = match dto {
        SignalDto::Msg(m) => msg_fault(m),
        _ => if actor(dto).len() != 32 {
            Some(not_an_id())
        } else {
            None
        },
    };
    if broken is Some {
        broken
    } else if actor(dto) != author@ {
        Some(WireErrorView::AuthorMismatch)
    } else {
        match dto {
            SignalDto::Role { target, .. } => if target@.len() != 32 {
                Some(not_an_id())
            } else {
                None
            },
            _ => None,
        }
    }
}

fn copy_text(s: &Option<String>) -> (r: Option<String>)
    ensures
        r == *s,
{
    match s {
        Some(s) => Some(s.clone()),
        None => None,
    }
}

pub fn signal_dto(signal: &ChannelSignal) -> (r: SignalDto)
    ensures
        carries_signal(r, *signal),
{
    match signal {
        ChannelSignal::Message(m) => SignalDto::Msg(msg_dto(m)),
        ChannelSignal::Joined { who, nickname } => SignalDto::Joined {
            who: copy_bytes(who.as_bytes()),
            nickname: copy_text(nickname),
        },
        ChannelSignal::Left { who } => SignalDto::Left { who: copy_bytes(who.as_bytes()) },
        ChannelSignal::TopicChanged { by, topic } => SignalDto::Topic {
            by: copy_bytes(by.as_bytes()),
            topic: topic.clone(),
        },
        ChannelSignal::RoleChanged { by, target, op } => SignalDto::Role {
            by: copy_bytes(by.as_bytes()),
            target: copy_bytes(target.as_bytes()),
            op: *op,
        },
        ChannelSignal::Presence { who, away } => SignalDto::Presence {
            who: copy_bytes(who.as_bytes()),
            away: copy_text(away),
        },
    }
}

/// The one who acts, if that is who signed.
fn self_signed(author: &IdentityId, who: &[u8]) -> (r: Result<IdentityId, WireError>)
    ensures
        match r {
            Ok(id) => who@ == author@ && id@ == who@,
            Err(e) => if who@.len() != 32 {
                e@ == not_an_id()
            } else {
                who@ != author@ && e@ == WireErrorView::AuthorMismatch
            },
        },
{
    match to_array32(who) {
        Ok(a) => {
            let id = IdentityId::from_bytes(a);
            proof {
                IdentityId::lemma_view_injective(id, *author);
            }
            if id.same(author) {
                Ok(id)
            } else {
                Err(WireError::AuthorMismatch)
            }
        },
        Err(e) => Err(e),
    }
}

/// Reads the signal in an envelope that `author` signed. Membership, topic and
/// presence operations must be self-signed: the actor inside the payload must
/// be the envelope's author.
pub fn open_envelope(author: &IdentityId, dto: SignalDto) -> (r: Result<ChannelSignal, WireError>)
    ensures
        match r {
            Ok(signal) => signal_fault(*author, dto) is None && carries_signal(dto, signal),
            Err(e) => signal_fault(*author, dto) == Some(e@),
        },
{
    proof {
        IdentityId::lemma_view_injective(*author, *author);
    }
    match dto {
        SignalDto::Msg(m) => {
            let message: WireMessage = match parse_msg(m) {
                Ok(message) => message,
                Err(e) => {
                    return Err(e);
                },
            };
            proof {
                IdentityId::lemma_view_injective(message.author, *author);
            }
            if !message.author.same(author) {
                return Err(WireError::AuthorMismatch);
            }
            Ok(ChannelSignal::Message(message))
        },
        SignalDto::Joined { who, nickname } => match self_signed(author, who.as_slice()) {
            Ok(who) => Ok(ChannelSignal::Joined { who, nickname }),
            Err(e) => Err(e),
        },
        SignalDto::Left { who } => match self_signed(author, who.as_slice()) {
            Ok(who) => Ok(ChannelSignal::Left { who }),
            Err(e) => Err(e),
        },
        SignalDto::Topic { by, topic } => match self_signed(author, by.as_slice()) {
            Ok(by) => Ok(ChannelSignal::TopicChanged { by, topic }),
            Err(e) => Err(e),
        },
        SignalDto::Role { by, target, op } => match self_signed(author, by.as_slice()) {
            Ok(by) => match to_array32(target.as_slice()) {
                Ok(a) => Ok(
                    ChannelSignal::RoleChanged { by, target: IdentityId::from_bytes(a), op },
                ),
                Err(e) => Err(e),
            },
            Err(e) => Err(e),
        },
        SignalDto::Presence { who, away } => match self_signed(author, who.as_slice()) {
            Ok(who) => Ok(ChannelSignal::Presence { who, away }),
            Err(e) => Err(e),
        },
    }
}

/// What a direct payload becomes on the wire.
pub open spec fn carries_dm(dto: DmPayloadDto, payload: DmPayload) -> bool {
    match (dto, payload) {
        (DmPayloadDto::Chat(d), DmPayload::Chat(m)) => carries(d, m@),
        (DmPayloadDto::Offer(d), DmPayload::Offer(m)) => carries_manifest(d, m@) && m.wf(),
        (DmPayloadDto::Call { call: d, action: a }, DmPayload::Call(call, action)) => d@ == call@
            && carries_action(a, action),
        _ => false,
    }
}

/// Why a direct payload in an envelope signed by `author` is not believed, if
/// so.
pub open spec fn dm_fault(author: IdentityId, dto: DmPayloadDto) -> Option<WireErrorView> {
    match dto {
        DmPayloadDto::Chat(m) => if msg_fault(m) is Some {
            msg_fault(m)
        } else if m.author@ != author@ {
            Some(WireErrorView::AuthorMismatch)
        } else {
            None
        },
        DmPayloadDto::Offer(m) => manifest_dto_fault(m),
        DmPayloadDto::Call { call, action } => if call@.len() != 16 {
            Some(WireErrorView::Malformed("expected 16 bytes"@))
        } else if !action_ok(action) {
            Some(not_an_id())
        } else {
            None
        },
    }
}

/// Reads the direct payload (chat, file offer or call signal) in an envelope
/// that `author` signed.
pub fn open_dm(author: &IdentityId, dto: DmPayloadDto) -> (r: Result<DmPayload, WireError>)
    ensures
        match r {
            Ok(payload) => dm_fault(*author, dto) is None && carries_dm(dto, payload),
            Err(e) => dm_fault(*author, dto) == Some(e@),
        },
{
    match dto {
        DmPayloadDto::Chat(m) => {
            let message: WireMessage = match parse_msg(m) {
                Ok(message) => message,
                Err(e) => {
                    return Err(e);
                },
            };
            proof {
                IdentityId::lemma_view_injective(message.author, *author);
            }
            if !message.author.same(author) {
                return Err(WireError::AuthorMismatch);
            }
            Ok(DmPayload::Chat(message))
        },
        DmPayloadDto::Offer(m) => match parse_manifest(m) {
            Ok(manifest) => Ok(DmPayload::Offer(manifest)),
            Err(e) => Err(e),
        },
        DmPayloadDto::Call { call, action } => match array_of::<16>(call.as_slice()) {
            Some(bytes) => match parse_action(action) {
                Ok(action) => Ok(DmPayload::Call(CallId::from_bytes(bytes), action)),
                Err(e) => Err(e),
            },
            None => Err(WireError::Malformed("expected 16 bytes".to_owned())),
        },
    }
}

/// Why an envelope is not believed, if so.
pub open spec fn envelope_fault(envelope: SignedEnvelope) -> Option<WireErrorView> {
    if envelope.payload@.len() > MAX_ENVELOPE_BYTES {
        Some(WireErrorView::Malformed("envelope too large"@))
    } else if envelope.author@.len() != 32 {
        Some(not_an_id())
    } else if envelope.sig@.len() != 64 {
        Some(WireErrorView::Malformed("expected 64 signature bytes"@))
    } else if signature_fault(envelope.author@, envelope.payload@, envelope.sig@) is Some {
        Some(WireErrorView::BadSignature)
    } else {
        None
    }
}

/// Who signed an envelope, and the attestation that they did.
pub fn check_signature(envelope: &SignedEnvelope) -> (r: Result<(IdentityId, Verified), WireError>)
    ensures
        match r {
            Ok((author, _)) => envelope_fault(*envelope) is None && author@ == envelope.author@,
            Err(e) => envelope_fault(*envelope) == Some(e@),
        },
{
    if envelope.payload.len() > MAX_ENVELOPE_BYTES {
        return Err(WireError::Malformed("envelope too large".to_owned()));
    }
    let author: IdentityId = match to_array32(envelope.author.as_slice()) {
        Ok(a) => IdentityId::from_bytes(a),
        Err(e) => {
            return Err(e);
        },
    };
    let sig: [u8; 64] = match array_of::<64>(envelope.sig.as_slice()) {
        Some(sig) => sig,
        None => {
            return Err(WireError::Malformed("expected 64 signature bytes".to_owned()));
        },
    };
    match verify_signature(&author, envelope.payload.as_slice(), &sig) {
        Ok(verified) => Ok((author, verified)),
        Err(_) => Err(WireError::BadSignature),
    }
}

/// Signs a payload into an envelope. Unless it is too large to be parsed, it is
/// one that [`check_signature`] believes.
pub fn seal_payload(keys: &LocalKeys, payload: Vec<u8>) -> (r: SignedEnvelope)
    ensures
        r.payload@ == payload@,
        r.author@ == public_key_of(keys.secret()),
        r.sig@ == signature_of(keys.secret(), payload@),
        payload@.len() <= MAX_ENVELOPE_BYTES ==> envelope_fault(r) is None,
{
    let sig: [u8; 64] = keys.sign(payload.as_slice());
    let id: IdentityId = keys.identity_id();
    proof {
        IdentityId::lemma_view_injective(id, id);
    }
    SignedEnvelope { author: copy_bytes(id.as_bytes()), sig: copy_bytes(&sig), payload }
}

/// Whatever a signal on the wire is read as, it comes back as what was sent:
/// one signal is carried by what carries it.
pub proof fn law_signal_survives_the_wire(dto: SignalDto, sent: ChannelSignal, read: ChannelSignal)
    requires
        carries_signal(dto, sent),
        carries_signal(dto, read),
    ensures
        match (sent, read) {
            (ChannelSignal::Message(a), ChannelSignal::Message(b)) => a@ == b@,
            _ => sent == read,
        },
{
    match (dto, sent, read) {
        (SignalDto::Msg(d), ChannelSignal::Message(a), ChannelSignal::Message(b)) => {
            lemma_carries_one(d, a@, b@);
        },
        (_, ChannelSignal::Joined { who: a, .. }, ChannelSignal::Joined { who: b, .. }) => {
            IdentityId::lemma_view_injective(a, b);
        },
        (_, ChannelSignal::Left { who: a }, ChannelSignal::Left { who: b }) => {
            IdentityId::lemma_view_injective(a, b);
        },
        (_, ChannelSignal::TopicChanged { by: a, .. }, ChannelSignal::TopicChanged { by: b, .. }) => {
            IdentityId::lemma_view_injective(a, b);
        },
        (
            _,
            ChannelSignal::RoleChanged { by: a, target: s, .. },
            ChannelSignal::RoleChanged { by: b, target: t, .. },
        ) => {
            IdentityId::lemma_view_injective(a, b);
            IdentityId::lemma_view_injective(s, t);
        },
        (_, ChannelSignal::Presence { who: a, .. }, ChannelSignal::Presence { who: b, .. }) => {
            IdentityId::lemma_view_injective(a, b);
        },
        _ => {},
    }
}

/// Nobody speaks for another: a believed signal was signed by who acts in it.
pub proof fn law_signals_are_self_signed(author: IdentityId, dto: SignalDto)
    requires
        signal_fault(author, dto) is None,
    ensures
        actor(dto) == author@,
{
}

/// Nobody forges a message id: a believed message has the id that its content
/// has.
pub proof fn law_ids_are_content_derived(author: IdentityId, dto: MsgDto, m: MessageView)
    requires
        signal_fault(author, SignalDto::Msg(dto)) is None,
        carries(dto, m),
    ensures
        m.id@ == blake3_of(message_preimage(m.author, m.lamport, m.parents, m.body)),
{
    let o = choose|o: MessageView| #[trigger]
        carries(dto, o) && o.id@ == blake3_of(
            message_preimage(o.author, o.lamport, o.parents, o.body),
        );
    lemma_carries_one(dto, m, o);
}

/// A message under the id that its content has.
pub open spec fn rightly_named(m: MessageView) -> bool {
    m.id@ == blake3_of(message_preimage(m.author, m.lamport, m.parents, m.body))
}

/// Byte strings that are ids have the size of one.
proof fn lemma_ids_have_their_size(bytes: Seq<Vec<u8>>, ids: Seq<Seq<u8>>)
    requires
        byte_views(bytes) == ids,
        forall|i: int| 0 <= i < ids.len() ==> (#[trigger] ids[i]).len() == 32,
    ensures
        all_ids(bytes),
{
    assert forall|i: int| 0 <= i < bytes.len() implies (#[trigger] bytes[i])@.len() == 32 by {
        assert(byte_views(bytes)[i] == bytes[i]@);
    }
}

/// A message that goes out under its own id is read.
proof fn lemma_honest_message(dto: MsgDto, m: MessageView)
    requires
        carries(dto, m),
        rightly_named(m),
    ensures
        msg_fault(dto) is None,
{
    MessageId::lemma_view_injective(m.id, m.id);
    IdentityId::lemma_view_injective(m.author, m.author);
    let ids = message_id_views(m.parents);
    assert forall|i: int| 0 <= i < ids.len() implies (#[trigger] ids[i]).len() == 32 by {
        MessageId::lemma_view_injective(m.parents[i], m.parents[i]);
    }
    lemma_ids_have_their_size(dto.parents@, ids);
}

/// What one honestly sends is believed: a signal that its actor signed, with
/// the id that its content has where it is a message, is never refused.
pub proof fn law_honest_signal_is_believed(author: IdentityId, sent: ChannelSignal, dto: SignalDto)
    requires
        carries_signal(dto, sent),
        acting(sent) == author,
        sent matches ChannelSignal::Message(m) ==> rightly_named(m@),
    ensures
        signal_fault(author, dto) is None,
{
    IdentityId::lemma_view_injective(author, author);
    match (dto, sent) {
        (SignalDto::Msg(d), ChannelSignal::Message(m)) => {
            lemma_honest_message(d, m@);
        },
        (_, ChannelSignal::RoleChanged { target, .. }) => {
            IdentityId::lemma_view_injective(target, target);
        },
        _ => {},
    }
}

/// What one honestly sends directly is believed: file offers and call signals
/// always, chat where the author signed it under the id that its content has.
pub proof fn law_honest_payload_is_believed(author: IdentityId, sent: DmPayload, dto: DmPayloadDto)
    requires
        carries_dm(dto, sent),
        sent matches DmPayload::Chat(m) ==> m.author == author && rightly_named(m@),
    ensures
        dm_fault(author, dto) is None,
{
    match (dto, sent) {
        (DmPayloadDto::Chat(d), DmPayload::Chat(m)) => {
            lemma_honest_message(d, m@);
        },
        (DmPayloadDto::Offer(d), DmPayload::Offer(m)) => {
            BlobHash::lemma_view_injective(m@.root, m@.root);
            let hashes = m@.chunk_hashes;
            let ids = hash_views(hashes);
            assert forall|i: int| 0 <= i < ids.len() implies (#[trigger] ids[i]).len() == 32 by {
                BlobHash::lemma_view_injective(hashes[i], hashes[i]);
            }
            lemma_ids_have_their_size(d.chunk_hashes@, ids);
            assert(byte_views(d.chunk_hashes@).len() == ids.len());
        },
        (DmPayloadDto::Call { action, .. }, DmPayload::Call(call, act)) => {
            CallId::lemma_view_injective(call, call);
            match (action, act) {
                (
                    CallActionDto::Offer { participants, .. },
                    CallAction::Offer { participants: who, .. },
                ) => {
                    let ids = identity_views(who@);
                    assert forall|i: int| 0 <= i < ids.len() implies (#[trigger] ids[i]).len()
                        == 32 by {
                        IdentityId::lemma_view_injective(who@[i], who@[i]);
                    }
                    lemma_ids_have_their_size(participants@, ids);
                },
                _ => {},
            }
        },
        _ => {},
    }
}

/// Two call actions say the same.
pub open spec fn same_action(a: CallAction, b: CallAction) -> bool {
    match (a, b) {
        (
            CallAction::Offer { participants: p, media_key: k },
            CallAction::Offer { participants: q, media_key: l },
        ) => p@ == q@ && k@ == l@,
        _ => a == b,
    }
}

/// Whatever a direct payload on the wire is read as, it comes back as what was
/// sent.
pub proof fn law_payload_survives_the_wire(dto: DmPayloadDto, sent: DmPayload, read: DmPayload)
    requires
        carries_dm(dto, sent),
        carries_dm(dto, read),
    ensures
        match (sent, read) {
            (DmPayload::Chat(a), DmPayload::Chat(b)) => a@ == b@,
            (DmPayload::Offer(a), DmPayload::Offer(b)) => a@ == b@,
            (DmPayload::Call(c, a), DmPayload::Call(d, b)) => c == d && same_action(a, b),
            _ => false,
        },
{
    match (dto, sent, read) {
        (DmPayloadDto::Chat(d), DmPayload::Chat(a), DmPayload::Chat(b)) => {
            lemma_carries_one(d, a@, b@);
        },
        (DmPayloadDto::Offer(_), DmPayload::Offer(a), DmPayload::Offer(b)) => {
            BlobHash::lemma_view_injective(a@.root, b@.root);
            let (s, t) = (a@.chunk_hashes, b@.chunk_hashes);
            assert(hash_views(s).len() == hash_views(t).len());
            assert forall|i: int| 0 <= i < s.len() implies s[i] == t[i] by {
                assert(hash_views(s)[i] == hash_views(t)[i]);
                BlobHash::lemma_view_injective(s[i], t[i]);
            }
            assert(s =~= t);
        },
        (DmPayloadDto::Call { .. }, DmPayload::Call(c, a), DmPayload::Call(d, b)) => {
            CallId::lemma_view_injective(c, d);
            match (a, b) {
                (
                    CallAction::Offer { participants: p, .. },
                    CallAction::Offer { participants: q, .. },
                ) => {
                    assert(identity_views(p@).len() == identity_views(q@).len());
                    assert forall|i: int| 0 <= i < p@.len() implies p@[i] == q@[i] by {
                        assert(identity_views(p@)[i] == identity_views(q@)[i]);
                        IdentityId::lemma_view_injective(p@[i], q@[i]);
                    }
                    assert(p@ =~= q@);
                },
                _ => {},
            }
        },
        _ => {},
    }
}

/// An envelope is believed if it is of a size that there is, names an author and carries a
/// signature of theirs; each failing is told apart.
pub proof fn law_sound_envelopes_are_believed(envelope: SignedEnvelope)
    ensures
        envelope_fault(envelope) is None <==> {
            &&& envelope.payload@.len() <= MAX_ENVELOPE_BYTES
            &&& envelope.author@.len() == 32
            &&& envelope.sig@.len() == 64
            &&& signature_fault(envelope.author@, envelope.payload@, envelope.sig@) is None
        },
        envelope.payload@.len() <= MAX_ENVELOPE_BYTES && envelope.author@.len() == 32
            && envelope.sig@.len() == 64 && signature_fault(
            envelope.author@,
            envelope.payload@,
            envelope.sig@,
        ) is Some ==> envelope_fault(envelope) == Some(WireErrorView::BadSignature),
{
}

/// Whoever speaks in another's name is refused, whatever they say.
pub proof fn law_impostors_are_refused(author: IdentityId, dto: SignalDto, chat: MsgDto)
    ensures
        actor(dto) != author@ ==> signal_fault(author, dto) is Some,
        chat.author@ != author@ ==> dm_fault(author, DmPayloadDto::Chat(chat)) is Some,
{
}

/// A file offer is believed if its name can be written to disk, its hashes are hashes, and
/// there are as many as its size asks for; and only then.
pub proof fn law_sound_offers_are_believed(author: IdentityId, dto: ManifestDto)
    ensures
        dm_fault(author, DmPayloadDto::Offer(dto)) is None <==> {
            &&& file_name_fault(dto.name@) is None
            &&& dto.root@.len() == 32
            &&& forall|i: int|
                0 <= i < dto.chunk_hashes@.len() ==> (#[trigger] dto.chunk_hashes@[i])@.len() == 32
            &&& manifest_fault(dto.size, dto.chunk_hashes@.len()) is None
        },
{
}

/// On the wire every field says what it says in the signal, and stands for who it stands for.
pub proof fn law_fields_keep_their_meaning(dto: SignalDto, signal: ChannelSignal)
    requires
        carries_signal(dto, signal),
    ensures
        actor(dto) == acting(signal)@,
        dto matches SignalDto::Msg(d) ==> (signal matches ChannelSignal::Message(m) && d.id@ == m@.id@
            && d.lamport == m@.lamport && d.body@ == m@.body && d.ts_hint_ms == m@.ts_hint_ms
            && d.parents@.len() == m@.parents.len() && forall|i: int|
            0 <= i < d.parents@.len() ==> (#[trigger] d.parents@[i])@ == m@.parents[i]@),
        dto matches SignalDto::Joined { nickname, .. } ==> (
        signal matches ChannelSignal::Joined { nickname: n, .. } && n == nickname),
        dto matches SignalDto::Topic { topic, .. } ==> (
        signal matches ChannelSignal::TopicChanged { topic: t, .. } && t == topic),
        dto matches SignalDto::Role { target, op, .. } ==> (
        signal matches ChannelSignal::RoleChanged { target: t, op: o, .. } && t@ == target@ && o == op),
        dto matches SignalDto::Presence { away, .. } ==> (
        signal matches ChannelSignal::Presence { away: a, .. } && a == away),
        dto is Left <==> signal is Left,
{
    if let SignalDto::Msg(d) = dto {
        if let ChannelSignal::Message(m) = signal {
            assert(byte_views(d.parents@) == message_id_views(m@.parents));
            assert(byte_views(d.parents@).len() == message_id_views(m@.parents).len());
            assert forall|i: int| 0 <= i < d.parents@.len() implies (#[trigger] d.parents@[i])@
                == m@.parents[i]@ by {
                assert(byte_views(d.parents@)[i] == message_id_views(m@.parents)[i]);
            }
        }
    }
}

} // verus!

//! Ed25519 identities, signatures and their verification, and BLAKE3
//! content-derived ids.
//!
//! [`verify_signature`] is the only place that mints a [`Verified`]
//! attestation next to an actual signature check.

use vstd::prelude::*;
use vstd::utf8::encode_utf8;

use ed25519_dalek::{Signer, Verifier};
use rand::RngCore;

use crate::bytes::{
    append_bytes, array_of, lemma_lens, lemma_little_endian_injective, lemma_pow256_values,
    little_endian, push_little_endian,
};
use crate::calls::CallId;
use crate::messaging::{ChannelId, ChannelName, MessageId, Verified};
use crate::shared::{Fingerprint, IdentityId};
use crate::transfer::{BlobHash, TransferId};

verus! {

/// The BLAKE3 digest of some bytes.
pub uninterp spec fn blake3_of(input: Seq<u8>) -> Seq<u8>;

/// The Ed25519 public key of a secret.
pub uninterp spec fn public_key_of(secret: Seq<u8>) -> Seq<u8>;

/// The Ed25519 signature of a message under a secret.
pub uninterp spec fn signature_of(secret: Seq<u8>, message: Seq<u8>) -> Seq<u8>;

/// Whether the bytes are an Ed25519 public key, that is a point of the curve.
pub uninterp spec fn is_public_key(bytes: Seq<u8>) -> bool;

/// Whether a signature over a message holds under a public key.
pub uninterp spec fn signature_holds(key: Seq<u8>, message: Seq<u8>, sig: Seq<u8>) -> bool;

/// `blake3::hash`: a digest of 32 bytes that depends on the input alone.
#[verifier::external_body]
pub(crate) fn blake3_hash(input: &[u8]) -> (r: [u8; 32])
    ensures
        r@ == blake3_of(input@),
{
    *blake3::hash(input).as_bytes()
}

/// `ed25519_dalek::SigningKey::verifying_key`: the public key that belongs to a
/// secret. It is a valid public key.
#[verifier::external_body]
fn derive_public_key(secret: &[u8; 32]) -> (r: [u8; 32])
    ensures
        r@ == public_key_of(secret@),
        is_public_key(r@),
{
    ed25519_dalek::SigningKey::from_bytes(secret).verifying_key().to_bytes()
}

/// `ed25519_dalek::SigningKey::sign`: signing draws on no randomness, and what
/// was signed with a secret holds under its public key.
#[verifier::external_body]
fn ed25519_sign(secret: &[u8; 32], message: &[u8]) -> (r: [u8; 64])
    ensures
        r@ == signature_of(secret@, message@),
        signature_holds(public_key_of(secret@), message@, r@),
{
    ed25519_dalek::SigningKey::from_bytes(secret).sign(message).to_bytes()
}

/// `ed25519_dalek::VerifyingKey::from_bytes`: whether it takes the bytes for a
/// public key.
#[verifier::external_body]
fn ed25519_key_parses(bytes: &[u8; 32]) -> (r: bool)
    ensures
        r == is_public_key(bytes@),
{
    ed25519_dalek::VerifyingKey::from_bytes(bytes).is_ok()
}

/// `ed25519_dalek::VerifyingKey::verify`: whether the signature over the
/// message holds under the key.
#[verifier::external_body]
fn ed25519_verify(key: &[u8; 32], message: &[u8], sig: &[u8; 64]) -> (r: bool)
    requires
        is_public_key(key@),
    ensures
        r == signature_holds(key@, message@, sig@),
{
    match ed25519_dalek::VerifyingKey::from_bytes(key) {
        Ok(k) => k.verify(message, &ed25519_dalek::Signature::from_bytes(sig)).is_ok(),
        Err(_) => false,
    }
}

/// `ed25519_dalek::SigningKey::generate`: a secret drawn from the operating
/// system's randomness. Nothing is said of its bytes.
#[verifier::external_body]
fn fresh_secret() -> (r: [u8; 32]) {
    ed25519_dalek::SigningKey::generate(&mut rand::rngs::OsRng).to_bytes()
}

/// `rand::rngs::OsRng::fill_bytes`: 32 bytes of the operating system's
/// randomness. Nothing is said of them.
#[verifier::external_body]
fn fresh_key() -> (r: [u8; 32]) {
    let mut key: [u8; 32] = [0;32];
    rand::rngs::OsRng.fill_bytes(&mut key);
    key
}

/// The marks of a version 7 UUID: its version, and its variant.
pub open spec fn is_uuid_v7(bytes: Seq<u8>) -> bool {
    bytes.len() == 16 && 0x70 <= bytes[6] < 0x80 && 0x80 <= bytes[8] < 0xc0
}

/// `uuid::Uuid::now_v7`: an id made of the present time and randomness, of which
/// nothing is said but that it bears the marks of its version.
#[verifier::external_body]
fn fresh_uuid() -> (r: [u8; 16])
    ensures
        is_uuid_v7(r@),
{
    *uuid::Uuid::now_v7().as_bytes()
}

#[derive(Debug, Clone, Copy, PartialEq, Eq, Structural)]
pub enum CryptoError {
    CorruptKeyFile,
    BadPublicKey,
    BadSignature,
}

/// Fingerprint = BLAKE3 of the public key: one rule, everywhere.
pub fn fingerprint_of(id: &IdentityId) -> (r: Fingerprint)
    ensures
        r@ == blake3_of(id@),
{
    Fingerprint::from_bytes(blake3_hash(id.as_bytes()))
}

/// The hash under which a chunk of a file is known.
pub fn hash_chunk(bytes: &[u8]) -> (r: BlobHash)
    ensures
        r@ == blake3_of(bytes@),
{
    BlobHash::from_bytes(blake3_hash(bytes))
}

/// The local identity: an Ed25519 keypair, held as its 32 secret bytes.
pub struct LocalKeys {
    secret: [u8; 32],
}

impl LocalKeys {
    /// The secret bytes.
    pub closed spec fn secret(&self) -> Seq<u8> {
        self.secret@
    }

    /// The identity that a key file holds.
    pub fn from_key_file(bytes: &[u8]) -> (r: Result<LocalKeys, CryptoError>)
        ensures
            match r {
                Ok(keys) => bytes@.len() == 32 && keys.secret() == bytes@,
                Err(e) => bytes@.len() != 32 && e == CryptoError::CorruptKeyFile,
            },
    {
        match array_of::<32>(bytes) {
            Some(secret) => Ok(LocalKeys { secret }),
            None => Err(CryptoError::CorruptKeyFile),
        }
    }

    /// A fresh identity, held in memory only.
    pub fn ephemeral() -> (r: LocalKeys)
        ensures
            r.secret().len() == 32,
    {
        LocalKeys { secret: fresh_secret() }
    }

    pub fn identity_id(&self) -> (r: IdentityId)
        ensures
            r@ == public_key_of(self.secret()),
            is_public_key(r@),
    {
        IdentityId::from_bytes(derive_public_key(&self.secret))
    }

    pub fn fingerprint(&self) -> (r: Fingerprint)
        ensures
            r@ == blake3_of(public_key_of(self.secret())),
    {
        fingerprint_of(&self.identity_id())
    }

    /// The raw secret, for deriving the transport keypair from the same
    /// identity, and for the key file.
    pub fn secret_bytes(&self) -> (r: [u8; 32])
        ensures
            r@ == self.secret(),
    {
        self.secret
    }

    /// Signs a message. The signature holds under our own identity.
    pub fn sign(&self, message: &[u8]) -> (r: [u8; 64])
        ensures
            r@ == signature_of(self.secret(), message@),
            signature_holds(public_key_of(self.secret()), message@, r@),
    {
        ed25519_sign(&self.secret, message)
    }
}

/// Why a signature is not accepted, if so.
pub open spec fn signature_fault(author: Seq<u8>, message: Seq<u8>, sig: Seq<u8>) -> Option<
    CryptoError,
> {
    if !is_public_key(author) {
        Some(CryptoError::BadPublicKey)
    } else if !signature_holds(author, message, sig) {
        Some(CryptoError::BadSignature)
    } else {
        None
    }
}

/// Verify `sig` by `author` over `message`; on success mint the verification
/// attestation. This is the trust boundary.
pub fn verify_signature(author: &IdentityId, message: &[u8], sig: &[u8; 64]) -> (r: Result<
    Verified,
    CryptoError,
>)
    ensures
        match r {
            Ok(_) => signature_fault(author@, message@, sig@) is None,
            Err(e) => signature_fault(author@, message@, sig@) == Some(e),
        },
{
    if !ed25519_key_parses(author.as_bytes()) {
        return Err(CryptoError::BadPublicKey);
    }
    if !ed25519_verify(author.as_bytes(), message, sig) {
        return Err(CryptoError::BadSignature);
    }
    Ok(Verified::attest_signature_checked())
}

/// The bytes of a list of message ids, one after the other.
pub open spec fn id_bytes(ids: Seq<MessageId>) -> Seq<u8>
    decreases ids.len(),
{
    if ids.len() == 0 {
        seq![]
    } else {
        id_bytes(ids.drop_last()) + ids.last()@
    }
}

/// What is hashed to name a message.
pub open spec fn message_preimage(
    author: IdentityId,
    lamport: u64,
    parents: Seq<MessageId>,
    body: Seq<char>,
) -> Seq<u8> {
    encode_utf8("mikall:msg:v1"@) + author@ + little_endian(lamport as nat, 8) + little_endian(
        parents.len(),
        8,
    ) + id_bytes(parents) + encode_utf8(body)
}

/// What is hashed to name a channel.
pub open spec fn channel_preimage(name: Seq<char>) -> Seq<u8> {
    encode_utf8("mikall:chan:v1"@) + encode_utf8(name)
}

/// The canonical content-derived message id. Sender and every receiver compute
/// the same value; a mismatch is a forgery and the envelope is dropped at the
/// network boundary.
pub fn derive_message_id(author: &IdentityId, lamport: u64, parents: &[MessageId], body: &str) -> (r: MessageId)
    ensures
        r@ == blake3_of(message_preimage(*author, lamport, parents@, body@)),
{
    let mut input: Vec<u8> = Vec::new();
    append_bytes(&mut input, "mikall:msg:v1".as_bytes());
    append_bytes(&mut input, author.as_bytes());
    push_little_endian(&mut input, lamport, 8);
    push_little_endian(&mut input, parents.len() as u64, 8);
    let ghost head = input@;
    assert(head =~= encode_utf8("mikall:msg:v1"@) + author@ + little_endian(lamport as nat, 8)
        + little_endian(parents@.len(), 8));
    let mut i: usize = 0;
    assert(parents@.take(0) =~= Seq::<MessageId>::empty());
    assert(head + Seq::<u8>::empty() =~= head);
    while i < parents.len()
        invariant
            i <= parents@.len(),
            input@ == head + id_bytes(parents@.take(i as int)),
        decreases parents@.len() - i,
    {
        append_bytes(&mut input, parents[i].as_bytes());
        proof {
            assert(parents@.take(i + 1).drop_last() =~= parents@.take(i as int));
            assert(parents@.take(i + 1).last() == parents@[i as int]);
            assert(input@ =~= head + id_bytes(parents@.take(i + 1)));
        }
        i = i + 1;
    }
    assert(parents@.take(i as int) =~= parents@);
    append_bytes(&mut input, body.as_bytes());
    MessageId::from_bytes(blake3_hash(input.as_slice()))
}

/// Deterministic public-channel id: `JOIN #stage` converges everywhere.
pub fn derive_channel_id(name: &ChannelName) -> (r: ChannelId)
    ensures
        r@ == blake3_of(channel_preimage(name@)),
{
    let mut input: Vec<u8> = Vec::new();
    append_bytes(&mut input, "mikall:chan:v1".as_bytes());
    append_bytes(&mut input, name.as_str().as_bytes());
    assert(input@ =~= channel_preimage(name@));
    ChannelId::from_bytes(blake3_hash(input.as_slice()))
}

/// Production ids: BLAKE3 for content-derived ids, UUIDv7 for entity ids.
#[derive(Debug)]
pub struct CryptoIdGen;

impl CryptoIdGen {
    pub fn message_id(&self, author: &IdentityId, lamport: u64, parents: &[MessageId], body: &str) -> (r: MessageId)
        ensures
            r@ == blake3_of(message_preimage(*author, lamport, parents@, body@)),
    {
        derive_message_id(author, lamport, parents, body)
    }

    pub fn channel_id(&self, name: &ChannelName) -> (r: ChannelId)
        ensures
            r@ == blake3_of(channel_preimage(name@)),
    {
        derive_channel_id(name)
    }

    /// An id for a new call: a fresh UUID, which may be any.
    pub fn call_id(&self) -> (r: CallId)
        ensures
            is_uuid_v7(r@),
    {
        CallId::from_bytes(fresh_uuid())
    }

    /// An id for a new transfer: a fresh UUID, which may be any.
    pub fn transfer_id(&self) -> (r: TransferId)
        ensures
            is_uuid_v7(r@),
    {
        TransferId::from_bytes(fresh_uuid())
    }

    /// A fresh key for the media of a call; it may be any.
    pub fn call_key(&self) -> (r: [u8; 32])
        ensures
            r@.len() == 32,
    {
        fresh_key()
    }
}

/// Lists of ids that are laid end to end alike are alike.
proof fn lemma_id_bytes_injective(a: Seq<MessageId>, b: Seq<MessageId>)
    requires
        a.len() == b.len(),
        id_bytes(a) == id_bytes(b),
    ensures
        a == b,
    decreases a.len(),
{
    if a.len() > 0 {
        let (x, y) = (id_bytes(a.drop_last()), id_bytes(b.drop_last()));
        lemma_id_bytes_len(a.drop_last());
        lemma_id_bytes_len(b.drop_last());
        MessageId::lemma_view_injective(a.last(), b.last());
        MessageId::lemma_view_injective(b.last(), a.last());
        assert(x =~= id_bytes(a).take(x.len() as int));
        assert(y =~= id_bytes(b).take(y.len() as int));
        assert(a.last()@ =~= id_bytes(a).skip(x.len() as int));
        assert(b.last()@ =~= id_bytes(b).skip(y.len() as int));
        lemma_id_bytes_injective(a.drop_last(), b.drop_last());
        assert(a =~= a.drop_last().push(a.last()));
        assert(b =~= b.drop_last().push(b.last()));
    } else {
        assert(a =~= b);
    }
}

proof fn lemma_id_bytes_len(a: Seq<MessageId>)
    ensures
        id_bytes(a).len() == 32 * a.len(),
    decreases a.len(),
{
    if a.len() > 0 {
        lemma_id_bytes_len(a.drop_last());
        MessageId::lemma_view_injective(a.last(), a.last());
    }
}

/// A message id names its content: what is hashed differs as soon as the
/// author, the clock, the parents or the body do.
pub proof fn law_message_preimage_is_faithful(
    author: IdentityId,
    lamport: u64,
    parents: Seq<MessageId>,
    body: Seq<char>,
    author2: IdentityId,
    lamport2: u64,
    parents2: Seq<MessageId>,
    body2: Seq<char>,
)
    requires
        parents.len() <= u64::MAX,
        parents2.len() <= u64::MAX,
        message_preimage(author, lamport, parents, body) == message_preimage(
            author2,
            lamport2,
            parents2,
            body2,
        ),
    ensures
        author == author2,
        lamport == lamport2,
        parents == parents2,
        body == body2,
{
    let p = message_preimage(author, lamport, parents, body);
    let q = message_preimage(author2, lamport2, parents2, body2);
    let tag = encode_utf8("mikall:msg:v1"@);
    let t = tag.len() as int;
    IdentityId::lemma_view_injective(author, author2);
    IdentityId::lemma_view_injective(author2, author);
    lemma_lens(lamport as nat, 8);
    lemma_lens(lamport2 as nat, 8);
    lemma_lens(parents.len(), 8);
    lemma_lens(parents2.len(), 8);
    lemma_pow256_values();
    assert(author@ =~= p.subrange(t, t + 32));
    assert(author2@ =~= q.subrange(t, t + 32));
    assert(little_endian(lamport as nat, 8) =~= p.subrange(t + 32, t + 40));
    assert(little_endian(lamport2 as nat, 8) =~= q.subrange(t + 32, t + 40));
    lemma_little_endian_injective(lamport as nat, lamport2 as nat, 8);
    assert(little_endian(parents.len(), 8) =~= p.subrange(t + 40, t + 48));
    assert(little_endian(parents2.len(), 8) =~= q.subrange(t + 40, t + 48));
    lemma_little_endian_injective(parents.len(), parents2.len(), 8);
    lemma_id_bytes_len(parents);
    lemma_id_bytes_len(parents2);
    let n = 32 * parents.len();
    assert(id_bytes(parents) =~= p.subrange(t + 48, t + 48 + n));
    assert(id_bytes(parents2) =~= q.subrange(t + 48, t + 48 + n));
    lemma_id_bytes_injective(parents, parents2);
    assert(encode_utf8(body) =~= p.skip(t + 48 + n));
    assert(encode_utf8(body2) =~= q.skip(t + 48 + n));
    vstd::utf8::encode_utf8_decode_utf8(body);
    vstd::utf8::encode_utf8_decode_utf8(body2);
}

/// Different channel names are hashed from different bytes.
pub proof fn law_channel_preimage_is_faithful(a: Seq<char>, b: Seq<char>)
    requires
        channel_preimage(a) == channel_preimage(b),
    ensures
        a == b,
{
    let t = encode_utf8("mikall:chan:v1"@).len() as int;
    assert(encode_utf8(a) =~= channel_preimage(a).skip(t));
    assert(encode_utf8(b) =~= channel_preimage(b).skip(t));
    vstd::utf8::encode_utf8_decode_utf8(a);
    vstd::utf8::encode_utf8_decode_utf8(b);
}

/// A signature is accepted if it is by a key that there is, and holds; and only then.
pub proof fn law_signatures_that_hold_are_accepted(author: Seq<u8>, message: Seq<u8>, sig: Seq<u8>)
    ensures
        signature_fault(author, message, sig) is None <==> is_public_key(author) && signature_holds(
            author,
            message,
            sig,
        ),
        !is_public_key(author) ==> signature_fault(author, message, sig) == Some(
            CryptoError::BadPublicKey,
        ),
{
}

/// What is hashed to name a message or a channel opens with what it is for, so that neither
/// is ever taken for the other.
pub proof fn law_preimages_are_told_apart(
    author: IdentityId,
    lamport: u64,
    parents: Seq<MessageId>,
    body: Seq<char>,
    name: Seq<char>,
)
    ensures
        encode_utf8("mikall:msg:v1"@).is_prefix_of(message_preimage(author, lamport, parents, body)),
        encode_utf8("mikall:chan:v1"@).is_prefix_of(channel_preimage(name)),
        channel_preimage(name).len() == encode_utf8("mikall:chan:v1"@).len() + encode_utf8(name).len(),
{
    let tag = encode_utf8("mikall:msg:v1"@);
    let m = message_preimage(author, lamport, parents, body);
    assert(tag =~= m.subrange(0, tag.len() as int));
    let chan = encode_utf8("mikall:chan:v1"@);
    let c = channel_preimage(name);
    assert(chan =~= c.subrange(0, chan.len() as int));
}

} // verus!

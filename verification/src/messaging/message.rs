//! Messages and the verification boundary.

use vstd::prelude::*;

use crate::order::{
    bytes_before, bytes_equal, lemma_lex_irreflexive, lemma_lex_total, lemma_lex_transitive,
    lex_before, Key,
};
use crate::shared::{IdentityId, LamportStamp};
use crate::sorted::copy_keys;
use crate::text::{hex_of, hex_text};

use super::values::MessageBody;

verus! {

/// Content-derived message identity: BLAKE3 of the canonical signed envelope
/// bytes, computed at the adapter boundary. Two different envelopes do not
/// share an id, and an id commits to author + content.
#[derive(Clone, Copy, PartialEq, Eq, PartialOrd, Ord, Hash, Debug)]
pub struct MessageId([u8; 32]);

impl View for MessageId {
    type V = Seq<u8>;

    closed spec fn view(&self) -> Seq<u8> {
        self.0@
    }
}

impl MessageId {
    /// The bytes are all there is: equal bytes, equal values.
    pub proof fn lemma_view_injective(a: MessageId, b: MessageId)
        ensures
            a@.len() == 32,
            (a@ == b@) == (a == b),
    {
        if a@ == b@ {
            assert(a.0 =~= b.0);
        }
    }

    pub fn from_bytes(bytes: [u8; 32]) -> (r: MessageId)
        ensures
            r@ == bytes@,
    {
        MessageId(bytes)
    }

    pub fn as_bytes(&self) -> (r: &[u8; 32])
        ensures
            r@ == self@,
    {
        &self.0
    }

    /// Short hex prefix: enough to disambiguate in logs, not for security
    /// decisions.
    pub fn short_hex(&self) -> (r: String)
        ensures
            r@ == hex_text(self@.take(6)),
    {
        let head: [u8; 6] = [self.0[0], self.0[1], self.0[2], self.0[3], self.0[4], self.0[5]];
        assert(head@ =~= self@.take(6));
        hex_of(&head)
    }
}

impl Key for MessageId {
    open spec fn before(self, other: Self) -> bool {
        lex_before(self@, other@)
    }

    proof fn lemma_irreflexive(a: Self) {
        lemma_lex_irreflexive(a@);
    }

    proof fn lemma_transitive(a: Self, b: Self, c: Self) {
        lemma_lex_transitive(a@, b@, c@);
    }

    proof fn lemma_total(a: Self, b: Self) {
        lemma_lex_total(a@, b@);
        MessageId::lemma_view_injective(a, b);
    }

    fn is_before(&self, other: &Self) -> (r: bool) {
        bytes_before(&self.0, &other.0)
    }

    fn same(&self, other: &Self) -> (r: bool) {
        proof {
            MessageId::lemma_view_injective(*self, *other);
        }
        bytes_equal(&self.0, &other.0)
    }
}

/// Attestation that an inbound envelope's signature has been checked against
/// its author's public key.
///
/// This is the negative-space trust boundary: [`Message::received`] demands a
/// `Verified` value, and the **only** constructor is
/// [`Verified::attest_signature_checked`], so every call site where remote
/// bytes become a domain `Message` is greppable and must sit next to a real
/// signature verification.
#[derive(Debug)]
#[must_use]
pub struct Verified(());

impl Verified {
    /// Caller vouches: the envelope this message was decoded from carried a
    /// valid signature by `author` over its canonical bytes.
    pub fn attest_signature_checked() -> Self {
        Verified(())
    }
}

/// What a message says.
pub struct MessageView {
    pub id: MessageId,
    pub author: IdentityId,
    pub lamport: u64,
    pub parents: Seq<MessageId>,
    pub body: Seq<char>,
    pub ts_hint_ms: u64,
}

/// A chat message. Exists only in two ways: authored locally, or received
/// from the network *after* signature verification.
#[derive(Debug, PartialEq, Eq)]
pub struct Message {
    id: MessageId,
    author: IdentityId,
    lamport: u64,
    parents: Vec<MessageId>,
    body: MessageBody,
    /// Advisory wall clock (unix ms). Never used for ordering.
    ts_hint_ms: u64,
}

impl View for Message {
    type V = MessageView;

    closed spec fn view(&self) -> MessageView {
        MessageView {
            id: self.id,
            author: self.author,
            lamport: self.lamport,
            parents: self.parents@,
            body: self.body@,
            ts_hint_ms: self.ts_hint_ms,
        }
    }
}

impl Message {
    /// The body obeys the rules of [`MessageBody`].
    pub closed spec fn wf(&self) -> bool {
        self.body.wf()
    }

    /// A message this node is authoring right now.
    pub fn authored(
        id: MessageId,
        author: IdentityId,
        lamport: u64,
        parents: Vec<MessageId>,
        body: MessageBody,
        ts_hint_ms: u64,
    ) -> (r: Message)
        ensures
            r@ == (MessageView {
                id,
                author,
                lamport,
                parents: parents@,
                body: body@,
                ts_hint_ms,
            }),
            r.wf() == body.wf(),
    {
        Message { id, author, lamport, parents, body, ts_hint_ms }
    }

    /// A message received from a peer. `_verified` proves the signature check
    /// happened at the boundary.
    pub fn received(
        _verified: Verified,
        id: MessageId,
        author: IdentityId,
        lamport: u64,
        parents: Vec<MessageId>,
        body: MessageBody,
        ts_hint_ms: u64,
    ) -> (r: Message)
        ensures
            r@ == (MessageView {
                id,
                author,
                lamport,
                parents: parents@,
                body: body@,
                ts_hint_ms,
            }),
            r.wf() == body.wf(),
    {
        Message { id, author, lamport, parents, body, ts_hint_ms }
    }

    pub fn id(&self) -> (r: MessageId)
        ensures
            r == self@.id,
    {
        self.id
    }

    pub fn author(&self) -> (r: IdentityId)
        ensures
            r == self@.author,
    {
        self.author
    }

    pub fn lamport(&self) -> (r: u64)
        ensures
            r == self@.lamport,
    {
        self.lamport
    }

    pub fn stamp(&self) -> (r: LamportStamp)
        ensures
            r.spec_counter() == self@.lamport,
            r.spec_author() == self@.author,
    {
        LamportStamp::new(self.lamport, self.author)
    }

    pub fn parents(&self) -> (r: &[MessageId])
        ensures
            r@ == self@.parents,
    {
        self.parents.as_slice()
    }

    pub fn body(&self) -> (r: &MessageBody)
        ensures
            r@ == self@.body,
            r.wf() == self.wf(),
    {
        &self.body
    }

    pub fn ts_hint_ms(&self) -> (r: u64)
        ensures
            r == self@.ts_hint_ms,
    {
        self.ts_hint_ms
    }

    /// Deterministic display-order key: `(lamport, author, id)`.
    pub fn order_key(&self) -> (r: (u64, IdentityId, MessageId))
        ensures
            r == order_key_of(self@),
    {
        (self.lamport, self.author, self.id)
    }
}

impl Clone for Message {
    fn clone(&self) -> (r: Self)
        ensures
            r@ == self@,
            r.wf() == self.wf(),
    {
        let parents: Vec<MessageId> = copy_keys(&self.parents);
        Message {
            id: self.id,
            author: self.author,
            lamport: self.lamport,
            parents,
            body: self.body.clone(),
            ts_hint_ms: self.ts_hint_ms,
        }
    }
}

/// Deterministic display-order key: `(lamport, author, id)`.
pub open spec fn order_key_of(m: MessageView) -> (u64, IdentityId, MessageId) {
    (m.lamport, m.author, m.id)
}

/// A display-order key as a sort key: by Lamport counter, then author, then
/// id.
#[derive(Clone, Copy)]
pub struct DisplayKey(pub u64, pub IdentityId, pub MessageId);

/// Where a message stands in the display order.
pub open spec fn display_key(m: MessageView) -> DisplayKey {
    DisplayKey(m.lamport, m.author, m.id)
}

impl Key for DisplayKey {
    open spec fn before(self, other: Self) -> bool {
        ||| self.0 < other.0
        ||| (self.0 == other.0 && self.1.before(other.1))
        ||| (self.0 == other.0 && self.1 == other.1 && self.2.before(other.2))
    }

    proof fn lemma_irreflexive(a: Self) {
        IdentityId::lemma_irreflexive(a.1);
        MessageId::lemma_irreflexive(a.2);
    }

    proof fn lemma_transitive(a: Self, b: Self, c: Self) {
        if a.0 == b.0 && b.0 == c.0 {
            if a.1.before(b.1) && b.1.before(c.1) {
                IdentityId::lemma_transitive(a.1, b.1, c.1);
            }
            if a.1 == b.1 && b.1 == c.1 {
                MessageId::lemma_transitive(a.2, b.2, c.2);
            }
        }
    }

    proof fn lemma_total(a: Self, b: Self) {
        IdentityId::lemma_total(a.1, b.1);
        MessageId::lemma_total(a.2, b.2);
    }

    fn is_before(&self, other: &Self) -> (r: bool) {
        self.0 < other.0 || (self.0 == other.0 && self.1.is_before(&other.1)) || (self.0 == other.0
            && self.1.same(&other.1) && self.2.is_before(&other.2))
    }

    fn same(&self, other: &Self) -> (r: bool) {
        self.0 == other.0 && self.1.same(&other.1) && self.2.same(&other.2)
    }
}

} // verus!

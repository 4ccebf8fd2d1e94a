//! Identity bounded context: contacts, trust, petnames.
//!
//! There is no registration authority in a serverless network: an identity is
//! a keypair and nothing more. Names are local labels ([`Petname`]), never
//! global truths. Trust is earned per contact via TOFU pinning or explicit
//! out-of-band fingerprint verification.

use vstd::prelude::*;

use crate::messaging::Nickname;
use crate::shared::{Fingerprint, IdentityId};
use crate::text::{any_control, byte_len, byte_length, has_control};

verus! {

/// A locally chosen label for a contact. 1..=64 bytes, no control characters.
#[derive(Debug, PartialEq, Eq, PartialOrd, Ord, Hash)]
pub struct Petname(String);

#[derive(Debug, Clone, Copy, PartialEq, Eq, Structural)]
pub enum PetnameError {
    Empty,
    TooLong,
    ControlCharacter,
}

/// What is wrong with `raw` as a petname, if anything. The first complaint
/// wins.
pub open spec fn petname_fault(raw: Seq<char>) -> Option<PetnameError> {
    if raw.len() == 0 {
        Some(PetnameError::Empty)
    } else if byte_len(raw) > 64 {
        Some(PetnameError::TooLong)
    } else if has_control(raw) {
        Some(PetnameError::ControlCharacter)
    } else {
        None
    }
}

impl View for Petname {
    type V = Seq<char>;

    closed spec fn view(&self) -> Seq<char> {
        self.0@
    }
}

impl Petname {
    pub open spec fn wf(&self) -> bool {
        petname_fault(self@) is None
    }

    pub fn parse(raw: &str) -> (r: Result<Petname, PetnameError>)
        ensures
            match r {
                Ok(p) => petname_fault(raw@) is None && p@ == raw@ && p.wf(),
                Err(e) => petname_fault(raw@) == Some(e),
            },
    {
        if raw.is_empty() {
            return Err(PetnameError::Empty);
        }
        if byte_length(raw) > 64 {
            return Err(PetnameError::TooLong);
        }
        if any_control(raw) {
            return Err(PetnameError::ControlCharacter);
        }
        Ok(Petname(raw.to_owned()))
    }

    pub fn as_str(&self) -> (r: &str)
        ensures
            r@ == self@,
    {
        self.0.as_str()
    }
}

impl Clone for Petname {
    fn clone(&self) -> (r: Self)
        ensures
            r == *self,
    {
        Petname(self.0.clone())
    }
}

/// How much we trust that a contact's current key really belongs to the
/// person we think it does. Exhaustive by design: every UI and gateway must
/// handle all four states.
#[derive(Debug, Clone, Copy, PartialEq, Eq, Structural)]
pub enum TrustLevel {
    /// Seen, never pinned.
    Unverified,
    /// Trust-on-first-use: the key seen at `first_seen_ms` is pinned; any
    /// future change raises [`IdentityEvent::ContactKeyChanged`].
    TofuPinned { first_seen_ms: u64 },
    /// Fingerprint verified out of band.
    Verified { verified_at_ms: u64 },
    /// All traffic dropped locally.
    Blocked,
}

/// What is known of a contact.
pub struct ContactView {
    pub id: IdentityId,
    pub fingerprint: Fingerprint,
    pub trust: TrustLevel,
    pub petname: Option<Seq<char>>,
}

/// A known remote identity (aggregate root).
#[derive(Debug, Clone, PartialEq, Eq)]
pub struct Contact {
    id: IdentityId,
    fingerprint: Fingerprint,
    trust: TrustLevel,
    petname: Option<Petname>,
}

#[derive(Debug, Clone, Copy, PartialEq, Eq, Structural)]
pub enum ContactError {
    Blocked,
}

impl View for Contact {
    type V = ContactView;

    closed spec fn view(&self) -> ContactView {
        ContactView {
            id: self.id,
            fingerprint: self.fingerprint,
            trust: self.trust,
            petname: match self.petname {
                Some(p) => Some(p@),
                None => None,
            },
        }
    }
}

impl Contact {
    /// First sighting of an identity: TOFU-pin its key immediately.
    pub fn first_seen(id: IdentityId, fingerprint: Fingerprint, now_ms: u64) -> (r: (Contact, IdentityEvent))
        ensures
            r.0@ == (ContactView {
                id,
                fingerprint,
                trust: TrustLevel::TofuPinned { first_seen_ms: now_ms },
                petname: None,
            }),
            r.1 == (IdentityEvent::ContactAdded { id }),
    {
        let contact = Contact {
            id,
            fingerprint,
            trust: TrustLevel::TofuPinned { first_seen_ms: now_ms },
            petname: None,
        };
        (contact, IdentityEvent::ContactAdded { id })
    }

    pub fn id(&self) -> (r: IdentityId)
        ensures
            r == self@.id,
    {
        self.id
    }

    pub fn fingerprint(&self) -> (r: Fingerprint)
        ensures
            r == self@.fingerprint,
    {
        self.fingerprint
    }

    pub fn trust(&self) -> (r: TrustLevel)
        ensures
            r == self@.trust,
    {
        self.trust
    }

    pub fn petname(&self) -> (r: Option<&Petname>)
        ensures
            match r {
                Some(p) => self@.petname == Some(p@),
                None => self@.petname is None,
            },
    {
        match &self.petname {
            Some(p) => Some(p),
            None => None,
        }
    }

    pub fn set_petname(&mut self, petname: Petname)
        ensures
            final(self)@ == (ContactView { petname: Some(petname@), ..old(self)@ }),
    {
        self.petname = Some(petname);
    }

    pub fn is_blocked(&self) -> (r: bool)
        ensures
            r == (self@.trust == TrustLevel::Blocked),
    {
        match self.trust {
            TrustLevel::Blocked => true,
            _ => false,
        }
    }

    /// Mark the fingerprint as verified out of band.
    pub fn verify(&mut self, now_ms: u64) -> (r: Result<IdentityEvent, ContactError>)
        ensures
            match r {
                Ok(event) => {
                    &&& old(self)@.trust != TrustLevel::Blocked
                    &&& final(self)@ == (ContactView {
                        trust: TrustLevel::Verified { verified_at_ms: now_ms },
                        ..old(self)@
                    })
                    &&& event == (IdentityEvent::ContactVerified { id: old(self)@.id })
                },
                Err(e) => {
                    &&& old(self)@.trust == TrustLevel::Blocked
                    &&& e == ContactError::Blocked
                    &&& *final(self) == *old(self)
                },
            },
    {
        match self.trust {
            TrustLevel::Blocked => Err(ContactError::Blocked),
            TrustLevel::Unverified | TrustLevel::TofuPinned { .. } | TrustLevel::Verified { .. } => {
                self.trust = TrustLevel::Verified { verified_at_ms: now_ms };
                Ok(IdentityEvent::ContactVerified { id: self.id })
            },
        }
    }

    pub fn block(&mut self) -> (r: IdentityEvent)
        ensures
            final(self)@ == (ContactView { trust: TrustLevel::Blocked, ..old(self)@ }),
            r == (IdentityEvent::ContactBlocked { id: old(self)@.id }),
    {
        self.trust = TrustLevel::Blocked;
        IdentityEvent::ContactBlocked { id: self.id }
    }

    /// The TOFU alarm: the identity presented a different key than the one we
    /// pinned. Trust collapses to `Unverified`; the frontend must warn loudly.
    pub fn key_changed(&mut self, new_fingerprint: Fingerprint) -> (r: IdentityEvent)
        ensures
            final(self)@ == (ContactView {
                fingerprint: new_fingerprint,
                trust: if old(self)@.trust == TrustLevel::Blocked {
                    TrustLevel::Blocked
                } else {
                    TrustLevel::Unverified
                },
                ..old(self)@
            }),
            r == (IdentityEvent::ContactKeyChanged {
                id: old(self)@.id,
                old_fingerprint: old(self)@.fingerprint,
                new_fingerprint,
            }),
    {
        let before: Fingerprint = self.fingerprint;
        self.fingerprint = new_fingerprint;
        match self.trust {
            TrustLevel::Blocked => {},
            TrustLevel::Unverified | TrustLevel::TofuPinned { .. } | TrustLevel::Verified { .. } => {
                self.trust = TrustLevel::Unverified;
            },
        }
        IdentityEvent::ContactKeyChanged { id: self.id, old_fingerprint: before, new_fingerprint }
    }
}

#[derive(Debug, Clone, PartialEq, Eq)]
pub enum IdentityEvent {
    /// The local profile's announced nickname changed (from any frontend).
    NicknameChanged { nickname: Nickname },
    ContactAdded { id: IdentityId },
    ContactVerified { id: IdentityId },
    ContactBlocked { id: IdentityId },
    ContactKeyChanged { id: IdentityId, old_fingerprint: Fingerprint, new_fingerprint: Fingerprint },
}

/// A petname says something, in at most 64 bytes, without control characters; and any such
/// text can be one.
pub proof fn law_what_can_be_a_petname(raw: Seq<char>)
    ensures
        petname_fault(raw) is None <==> raw.len() > 0 && byte_len(raw) <= 64 && !has_control(raw),
{
}

} // verus!

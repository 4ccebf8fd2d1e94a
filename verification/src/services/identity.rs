//! Identity use cases: the local identity, contacts, trust.

use vstd::prelude::*;

use crate::events::nick_text;
use crate::identity::{Contact, ContactError, ContactView, IdentityEvent, TrustLevel};
use crate::messaging::Nickname;
use crate::order::Key;
use crate::ports::{IrcGatewayConfig, ProfileRecord};
use crate::shared::{Fingerprint, IdentityId};
use crate::sorted::{ascending, in_order, lemma_in_order, lists, SortedMap};
use crate::text::{lower_all, same_ignoring_case};

verus! {

#[derive(Debug, Clone, Copy, PartialEq, Eq, Structural)]
pub enum IdentityServiceError {
    UnknownContact,
    Contact(ContactError),
}

/// What stored contacts say.
pub open spec fn contact_views(m: Map<IdentityId, Contact>) -> Map<IdentityId, ContactView> {
    Map::new(|id: IdentityId| m.contains_key(id), |id: IdentityId| m[id]@)
}

/// What stored nicknames say.
pub open spec fn nick_views(m: Map<IdentityId, Nickname>) -> Map<IdentityId, Seq<char>> {
    Map::new(|id: IdentityId| m.contains_key(id), |id: IdentityId| m[id]@)
}

/// What a profile holds.
pub struct ProfileView {
    pub id: IdentityId,
    pub fingerprint: Fingerprint,
    pub nickname: Option<Seq<char>>,
    pub contacts: Map<IdentityId, ContactView>,
    pub nicks: Map<IdentityId, Seq<char>>,
}

impl ProfileView {
    pub open spec fn blocks(self, id: IdentityId) -> bool {
        self.contacts.contains_key(id) && self.contacts[id].trust == TrustLevel::Blocked
    }

    /// The label to display for an identity: their announced nickname.
    pub open spec fn nick_of(self, id: IdentityId) -> Option<Seq<char>> {
        if id == self.id {
            self.nickname
        } else if self.nicks.contains_key(id) {
            Some(self.nicks[id])
        } else {
            None
        }
    }

    /// A peer announced `nick`, whatever the case.
    pub open spec fn goes_by(self, id: IdentityId, nick: Seq<char>) -> bool {
        self.nicks.contains_key(id) && lower_all(self.nicks[id]) == lower_all(nick)
    }
}

impl ProfileView {
    /// Of those who go by `nick`, the first in id order.
    pub open spec fn first_by(self, id: IdentityId, nick: Seq<char>) -> bool {
        self.goes_by(id, nick) && forall|x: IdentityId| #[trigger]
            self.goes_by(x, nick) ==> !x.before(id)
    }

    /// Who goes by `nick`, the first in id order if there are several.
    pub open spec fn by_nickname(self, nick: Seq<char>) -> Option<IdentityId> {
        if exists|x: IdentityId| #[trigger] self.goes_by(x, nick) {
            Some(choose|id: IdentityId| self.first_by(id, nick))
        } else {
            None
        }
    }

    proof fn lemma_first_by(self, id: IdentityId, nick: Seq<char>)
        requires
            self.first_by(id, nick),
        ensures
            self.by_nickname(nick) == Some(id),
    {
        let other = choose|x: IdentityId| self.first_by(x, nick);
        IdentityId::lemma_total(id, other);
    }
}

/// A contact seen for the first time.
pub open spec fn newly_met(id: IdentityId, fingerprint: Fingerprint, now_ms: u64) -> ContactView {
    ContactView {
        id,
        fingerprint,
        trust: TrustLevel::TofuPinned { first_seen_ms: now_ms },
        petname: None,
    }
}

/// The profile once `id` was seen with `fingerprint`, announcing `nickname`.
pub open spec fn after_sighting(
    p: ProfileView,
    id: IdentityId,
    fingerprint: Fingerprint,
    nickname: Option<Seq<char>>,
    now_ms: u64,
) -> ProfileView {
    if id == p.id {
        p
    } else {
        ProfileView {
            nicks: match nickname {
                Some(n) => p.nicks.insert(id, n),
                None => p.nicks,
            },
            contacts: if !p.contacts.contains_key(id) {
                p.contacts.insert(id, newly_met(id, fingerprint, now_ms))
            } else if p.contacts[id].fingerprint != fingerprint {
                p.contacts.insert(
                    id,
                    ContactView {
                        fingerprint,
                        trust: if p.contacts[id].trust == TrustLevel::Blocked {
                            TrustLevel::Blocked
                        } else {
                            TrustLevel::Unverified
                        },
                        ..p.contacts[id]
                    },
                )
            } else {
                p.contacts
            },
            ..p
        }
    }
}

/// What a sighting raises: a first contact, or the alarm that a pinned key has
/// changed.
pub open spec fn sighting_event(
    p: ProfileView,
    id: IdentityId,
    fingerprint: Fingerprint,
) -> Option<IdentityEvent> {
    if id == p.id {
        None
    } else if !p.contacts.contains_key(id) {
        Some(IdentityEvent::ContactAdded { id })
    } else if p.contacts[id].fingerprint != fingerprint {
        Some(
            IdentityEvent::ContactKeyChanged {
                id,
                old_fingerprint: p.contacts[id].fingerprint,
                new_fingerprint: fingerprint,
            },
        )
    } else {
        None
    }
}

/// The contacts once `id` is blocked. A stranger is met under `blank` first.
pub open spec fn contacts_blocking(
    contacts: Map<IdentityId, ContactView>,
    id: IdentityId,
    blank: Fingerprint,
    now_ms: u64,
) -> Map<IdentityId, ContactView> {
    let known = if contacts.contains_key(id) {
        contacts[id]
    } else {
        newly_met(id, blank, now_ms)
    };
    contacts.insert(id, ContactView { trust: TrustLevel::Blocked, ..known })
}

/// The contacts once each of `ids` is blocked.
pub open spec fn contacts_blocking_all(
    contacts: Map<IdentityId, ContactView>,
    ids: Seq<IdentityId>,
    blank: Fingerprint,
    now_ms: u64,
) -> Map<IdentityId, ContactView>
    decreases ids.len(),
{
    if ids.len() == 0 {
        contacts
    } else {
        contacts_blocking(
            contacts_blocking_all(contacts, ids.drop_last(), blank, now_ms),
            ids.last(),
            blank,
            now_ms,
        )
    }
}

/// The all-zero fingerprint, under which an identity is blocked that was never
/// seen.
pub open spec fn is_blank(f: Fingerprint) -> bool {
    f@ == Seq::new(32, |i: int| 0u8)
}

/// Local profile: who we are and what we know about others.
#[derive(Debug)]
pub struct IdentityService {
    id: IdentityId,
    fingerprint: Fingerprint,
    nickname: Option<Nickname>,
    contacts: SortedMap<IdentityId, Contact>,
    /// Nicknames peers have announced for themselves (labels, never truths).
    nicks: SortedMap<IdentityId, Nickname>,
}

impl View for IdentityService {
    type V = ProfileView;

    closed spec fn view(&self) -> ProfileView {
        ProfileView {
            id: self.id,
            fingerprint: self.fingerprint,
            nickname: nick_text(self.nickname),
            contacts: contact_views(self.contacts@),
            nicks: nick_views(self.nicks@),
        }
    }
}

fn copy_nick(n: &Option<Nickname>) -> (r: Option<Nickname>)
    ensures
        r == *n,
{
    match n {
        Some(n) => Some(n.clone()),
        None => None,
    }
}

impl IdentityService {
    /// Every contact stands under its own id.
    pub closed spec fn wf(&self) -> bool {
        &&& self.contacts.wf()
        &&& self.nicks.wf()
        &&& forall|id: IdentityId| #[trigger]
            self.contacts@.contains_key(id) ==> self.contacts@[id]@.id == id
    }

    pub fn new(id: IdentityId, fingerprint: Fingerprint) -> (r: IdentityService)
        ensures
            r.wf(),
            r@ == (ProfileView {
                id,
                fingerprint,
                nickname: None,
                contacts: Map::<IdentityId, ContactView>::empty(),
                nicks: Map::<IdentityId, Seq<char>>::empty(),
            }),
    {
        let r = IdentityService {
            id,
            fingerprint,
            nickname: None,
            contacts: SortedMap::new(),
            nicks: SortedMap::new(),
        };
        assert(r@.contacts =~= Map::<IdentityId, ContactView>::empty());
        assert(r@.nicks =~= Map::<IdentityId, Seq<char>>::empty());
        r
    }

    pub fn local_id(&self) -> (r: IdentityId)
        ensures
            r == self@.id,
    {
        self.id
    }

    pub fn fingerprint(&self) -> (r: Fingerprint)
        ensures
            r == self@.fingerprint,
    {
        self.fingerprint
    }

    /// Load the persisted profile record into memory, once, before any
    /// frontend attaches. Past decisions are replayed, not made anew: no
    /// events come of it.
    pub fn hydrate(&mut self, record: &ProfileRecord, now_ms: u64)
        requires
            old(self).wf(),
        ensures
            final(self).wf(),
            exists|blank: Fingerprint| #[trigger] is_blank(blank) && final(self)@ == (ProfileView {
                nickname: match record.nickname {
                    Some(n) => Some(n@),
                    None => old(self)@.nickname,
                },
                contacts: contacts_blocking_all(
                    old(self)@.contacts,
                    record.blocked@,
                    blank,
                    now_ms,
                ),
                ..old(self)@
            }),
    {
        match &record.nickname {
            Some(n) => {
                self.nickname = Some(n.clone());
            },
            None => {},
        }
        let blank = Fingerprint::from_bytes([0;32]);
        assert(blank@ =~= Seq::new(32, |i: int| 0u8));
        let mut i: usize = 0;
        let ghost start = self@;
        assert(record.blocked@.take(0) =~= Seq::<IdentityId>::empty());
        while i < record.blocked.len()
            invariant
                i <= record.blocked@.len(),
                self.wf(),
                is_blank(blank),
                self@ == (ProfileView {
                    contacts: contacts_blocking_all(
                        start.contacts,
                        record.blocked@.take(i as int),
                        blank,
                        now_ms,
                    ),
                    ..start
                }),
            decreases record.blocked@.len() - i,
        {
            let id: IdentityId = record.blocked[i];
            self.mark_blocked(id, blank, now_ms);
            proof {
                assert(record.blocked@.take(i + 1).drop_last() =~= record.blocked@.take(i as int));
                assert(record.blocked@.take(i + 1).last() == id);
            }
            i = i + 1;
        }
        assert(record.blocked@.take(i as int) =~= record.blocked@);
        assert(is_blank(blank) && self@ == (ProfileView {
            nickname: match record.nickname {
                Some(n) => Some(n@),
                None => old(self)@.nickname,
            },
            contacts: contacts_blocking_all(old(self)@.contacts, record.blocked@, blank, now_ms),
            ..old(self)@
        }));
    }

    /// The contact becomes blocked, whether or not it was known before.
    fn mark_blocked(&mut self, id: IdentityId, blank: Fingerprint, now_ms: u64) -> (event: IdentityEvent)
        requires
            old(self).wf(),
        ensures
            final(self).wf(),
            final(self)@ == (ProfileView {
                contacts: contacts_blocking(old(self)@.contacts, id, blank, now_ms),
                ..old(self)@
            }),
            event == (IdentityEvent::ContactBlocked { id }),
    {
        let mut contact: Contact = match self.contacts.remove(&id) {
            Some(c) => c,
            None => {
                let (c, _) = Contact::first_seen(id, blank, now_ms);
                c
            },
        };
        let event = contact.block();
        let ghost blocked = contact@;
        self.contacts.insert(id, contact);
        assert(self@.contacts =~= contacts_blocking(old(self)@.contacts, id, blank, now_ms));
        event
    }

    pub fn set_nickname(&mut self, nickname: Nickname) -> (event: IdentityEvent)
        requires
            old(self).wf(),
        ensures
            final(self).wf(),
            final(self)@ == (ProfileView { nickname: Some(nickname@), ..old(self)@ }),
            event == (IdentityEvent::NicknameChanged { nickname }),
    {
        self.nickname = Some(nickname.clone());
        IdentityEvent::NicknameChanged { nickname }
    }

    pub fn nickname(&self) -> (r: Option<Nickname>)
        ensures
            nick_text(r) == self@.nickname,
    {
        copy_nick(&self.nickname)
    }

    /// The label we display for an identity: their announced nickname.
    pub fn nickname_of(&self, id: &IdentityId) -> (r: Option<Nickname>)
        requires
            self.wf(),
        ensures
            nick_text(r) == self@.nick_of(*id),
    {
        if id.same(&self.id) {
            return copy_nick(&self.nickname);
        }
        match self.nicks.get(id) {
            Some(n) => Some(n.clone()),
            None => None,
        }
    }

    /// Reverse lookup: an identity that announced `nick`. Nicknames are
    /// labels, not identities: collisions resolve to the first match in id
    /// order, and `WHOIS` shows the fingerprint.
    pub fn identity_by_nickname(&self, nick: &str) -> (r: Option<IdentityId>)
        requires
            self.wf(),
        ensures
            r == self@.by_nickname(nick@),
    {
        let n: usize = self.nicks.len();
        let mut i: usize = 0;
        proof {
            self.nicks.lemma_walk();
        }
        while i < n
            invariant
                i <= n,
                n == self.nicks.walk().len(),
                self.nicks.wf(),
                ascending(self.nicks.walk()),
                forall|k: IdentityId| self.nicks.walk().contains(k) <==> self.nicks@.contains_key(k),
                forall|j: int| 0 <= j < i ==> !self@.goes_by(#[trigger] self.nicks.walk()[j], nick@),
            decreases n - i,
        {
            let ghost id = self.nicks.walk()[i as int];
            assert(self.nicks.walk().contains(id));
            if same_ignoring_case(self.nicks.value_at(i).as_str(), nick) {
                proof {
                    assert(self@.goes_by(id, nick@));
                    assert forall|x: IdentityId| #[trigger] self@.goes_by(x, nick@) implies !x.before(id) by {
                        assert(self.nicks.walk().contains(x));
                        let j = choose|j: int| 0 <= j < n && self.nicks.walk()[j] == x;
                        IdentityId::lemma_irreflexive(id);
                        if j > i {
                            assert(id.before(x));
                            if x.before(id) {
                                IdentityId::lemma_transitive(id, x, id);
                            }
                        }
                    }
                }
                proof {
                    self@.lemma_first_by(id, nick@);
                }
                return Some(self.nicks.key_at(i));
            }
            i = i + 1;
        }
        proof {
            assert forall|x: IdentityId| !#[trigger] self@.goes_by(x, nick@) by {
                if self@.goes_by(x, nick@) {
                    assert(self.nicks.walk().contains(x));
                    let j = choose|j: int| 0 <= j < n && self.nicks.walk()[j] == x;
                    assert(!self@.goes_by(self.nicks.walk()[j], nick@));
                }
            }
        }
        None
    }

    /// Record a sighting of a peer: TOFU-pin on first contact, raise the
    /// key-change alarm when the fingerprint differs from the pinned one.
    pub fn observe_peer(
        &mut self,
        id: IdentityId,
        fingerprint: Fingerprint,
        nickname: Option<Nickname>,
        now_ms: u64,
    ) -> (event: Option<IdentityEvent>)
        requires
            old(self).wf(),
        ensures
            final(self).wf(),
            final(self)@ == after_sighting(
                old(self)@,
                id,
                fingerprint,
                nick_text(nickname),
                now_ms,
            ),
            event == sighting_event(old(self)@, id, fingerprint),
    {
        if id.same(&self.id) {
            return None;
        }
        match nickname {
            Some(nick) => {
                self.nicks.insert(id, nick);
                assert(self@.nicks =~= old(self)@.nicks.insert(id, nick@));
            },
            None => {},
        }
        match self.contacts.remove(&id) {
            None => {
                assert(self.contacts@ =~= old(self).contacts@);
                let (contact, event) = Contact::first_seen(id, fingerprint, now_ms);
                self.contacts.insert(id, contact);
                assert(self@.contacts =~= old(self)@.contacts.insert(id, contact@));
                Some(event)
            },
            Some(mut contact) => {
                if !contact.fingerprint().same(&fingerprint) {
                    let event = contact.key_changed(fingerprint);
                    self.contacts.insert(id, contact);
                    assert(self@.contacts =~= old(self)@.contacts.insert(id, contact@));
                    Some(event)
                } else {
                    self.contacts.insert(id, contact);
                    assert(self@.contacts =~= old(self)@.contacts);
                    None
                }
            },
        }
    }

    /// Mark a contact's fingerprint as verified out of band.
    pub fn verify_contact(&mut self, id: &IdentityId, now_ms: u64) -> (r: Result<
        IdentityEvent,
        IdentityServiceError,
    >)
        requires
            old(self).wf(),
        ensures
            final(self).wf(),
            match r {
                Ok(event) => {
                    &&& old(self)@.contacts.contains_key(*id)
                    &&& !old(self)@.blocks(*id)
                    &&& event == (IdentityEvent::ContactVerified { id: *id })
                    &&& final(self)@ == (ProfileView {
                        contacts: old(self)@.contacts.insert(
                            *id,
                            ContactView {
                                trust: TrustLevel::Verified { verified_at_ms: now_ms },
                                ..old(self)@.contacts[*id]
                            },
                        ),
                        ..old(self)@
                    })
                },
                Err(e) => {
                    &&& final(self)@ == old(self)@
                    &&& e == if !old(self)@.contacts.contains_key(*id) {
                        IdentityServiceError::UnknownContact
                    } else {
                        IdentityServiceError::Contact(ContactError::Blocked)
                    }
                    &&& !old(self)@.contacts.contains_key(*id) || old(self)@.blocks(*id)
                },
            },
    {
        match self.contacts.remove(id) {
            None => {
                assert(self.contacts@ =~= old(self).contacts@);
                Err(IdentityServiceError::UnknownContact)
            },
            Some(mut contact) => {
                let r = contact.verify(now_ms);
                self.contacts.insert(*id, contact);
                match r {
                    Ok(event) => {
                        assert(self@.contacts =~= old(self)@.contacts.insert(*id, contact@));
                        Ok(event)
                    },
                    Err(e) => {
                        assert(self@.contacts =~= old(self)@.contacts);
                        Err(IdentityServiceError::Contact(e))
                    },
                }
            },
        }
    }

    /// A user's choice to drop all traffic of an identity.
    pub fn block(&mut self, id: IdentityId, now_ms: u64) -> (event: IdentityEvent)
        requires
            old(self).wf(),
        ensures
            final(self).wf(),
            exists|blank: Fingerprint| #[trigger] is_blank(blank) && final(self)@ == (ProfileView {
                contacts: contacts_blocking(old(self)@.contacts, id, blank, now_ms),
                ..old(self)@
            }),
            final(self)@.blocks(id),
            event == (IdentityEvent::ContactBlocked { id }),
    {
        let blank = Fingerprint::from_bytes([0;32]);
        assert(blank@ =~= Seq::new(32, |i: int| 0u8));
        let event = self.mark_blocked(id, blank, now_ms);
        assert(is_blank(blank) && self@ == (ProfileView {
            contacts: contacts_blocking(old(self)@.contacts, id, blank, now_ms),
            ..old(self)@
        }));
        event
    }

    /// Undo a block by forgetting the contact entirely: the identity drops
    /// off the blocklist and, on next sighting, is TOFU-pinned again like
    /// any stranger. No trust transition exists out of `Blocked`: pretending
    /// the old pin was still trustworthy would be a lie, so we honestly start
    /// over. Tells whether there was a block to undo.
    pub fn unblock(&mut self, id: IdentityId) -> (undone: bool)
        requires
            old(self).wf(),
        ensures
            final(self).wf(),
            undone == old(self)@.blocks(id),
            final(self)@ == if old(self)@.blocks(id) {
                ProfileView { contacts: old(self)@.contacts.remove(id), ..old(self)@ }
            } else {
                old(self)@
            },
    {
        if !self.is_blocked(&id) {
            return false;
        }
        self.contacts.remove(&id);
        assert(self@.contacts =~= old(self)@.contacts.remove(id));
        true
    }

    /// Every blocked identity with its announced nickname, if one is known,
    /// in id order: for blocklist management surfaces.
    pub fn blocked_contacts(&self) -> (r: Vec<(IdentityId, Option<Nickname>)>)
        requires
            self.wf(),
        ensures
            r@.map_values(|e: (IdentityId, Option<Nickname>)| e.0) == in_order(
                Set::new(|id: IdentityId| self@.blocks(id)),
            ),
            forall|i: int|
                0 <= i < r@.len() ==> nick_text((#[trigger] r@[i]).1) == if self@.nicks.contains_key(r@[i].0) {
                    Some(self@.nicks[r@[i].0])
                } else {
                    None
                },
    {
        let n: usize = self.contacts.len();
        let ghost walk = self.contacts.walk();
        proof {
            self.contacts.lemma_walk();
        }
        let mut r: Vec<(IdentityId, Option<Nickname>)> = Vec::new();
        let ghost mut ids = Seq::<IdentityId>::empty();
        let mut i: usize = 0;
        while i < n
            invariant
                i <= n,
                n == walk.len(),
                walk == self.contacts.walk(),
                self.wf(),
                ascending(walk),
                ascending(ids),
                forall|x: IdentityId| #[trigger]
                    ids.contains(x) <==> self@.blocks(x) && exists|j: int| 0 <= j < i && walk[j] == x,
                ids == r@.map_values(|e: (IdentityId, Option<Nickname>)| e.0),
                forall|j: int|
                    0 <= j < r@.len() ==> nick_text((#[trigger] r@[j]).1) == if self@.nicks.contains_key(r@[j].0) {
                        Some(self@.nicks[r@[j].0])
                    } else {
                        None
                    },
            decreases n - i,
        {
            let id: IdentityId = self.contacts.key_at(i);
            let blocked: bool = self.contacts.value_at(i).is_blocked();
            let ghost before = ids;
            if blocked {
                let nick: Option<Nickname> = match self.nicks.get(&id) {
                    Some(x) => Some(x.clone()),
                    None => None,
                };
                let ghost prior = r@;
                r.push((id, nick));
                proof {
                    ids = before.push(id);
                    assert(ids =~= r@.map_values(|e: (IdentityId, Option<Nickname>)| e.0));
                    assert forall|a: int, b: int| 0 <= a < b < ids.len() implies (#[trigger] ids[a]).before(
                        #[trigger] ids[b],
                    ) by {
                        if b < before.len() {
                            assert(before[a].before(before[b]));
                        } else {
                            assert(before.contains(before[a]));
                            let j = choose|j: int| 0 <= j < i && walk[j] == before[a];
                            assert(walk[j].before(walk[i as int]));
                        }
                    }
                }
            }
            proof {
                assert forall|x: IdentityId| #[trigger] ids.contains(x) <==> self@.blocks(x) && exists|j: int|
                    0 <= j < i + 1 && walk[j] == x by {
                    if ids.contains(x) {
                        let k = choose|k: int| 0 <= k < ids.len() && ids[k] == x;
                        if k < before.len() {
                            assert(before[k] == x);
                            assert(before.contains(x));
                        } else {
                            assert(walk[i as int] == x);
                        }
                    }
                    if self@.blocks(x) && (exists|j: int| 0 <= j < i + 1 && walk[j] == x) {
                        let j = choose|j: int| 0 <= j < i + 1 && walk[j] == x;
                        if j < i {
                            assert(before.contains(x));
                            let k = choose|k: int| 0 <= k < before.len() && before[k] == x;
                            assert(ids[k] == x);
                        } else {
                            assert(ids[before.len() as int] == x);
                        }
                    }
                }
            }
            i = i + 1;
        }
        proof {
            let blocked = Set::new(|id: IdentityId| self@.blocks(id));
            assert forall|x: IdentityId| ids.to_set().contains(x) <==> blocked.contains(x) by {
                if self@.blocks(x) {
                    assert(walk.contains(x));
                    let j = choose|j: int| 0 <= j < walk.len() && walk[j] == x;
                    assert(0 <= j < n && walk[j] == x);
                }
                assert(ids.contains(x) <==> self@.blocks(x) && exists|j: int| 0 <= j < n && walk[j] == x);
            }
            assert(ids.to_set() =~= blocked);
            lemma_in_order(blocked, ids);
        }
        r
    }

    pub fn is_blocked(&self, id: &IdentityId) -> (r: bool)
        requires
            self.wf(),
        ensures
            r == self@.blocks(*id),
    {
        match self.contacts.get(id) {
            Some(c) => c.is_blocked(),
            None => false,
        }
    }

    pub fn trust_of(&self, id: &IdentityId) -> (r: Option<TrustLevel>)
        requires
            self.wf(),
        ensures
            r == if self@.contacts.contains_key(*id) {
                Some(self@.contacts[*id].trust)
            } else {
                None
            },
    {
        match self.contacts.get(id) {
            Some(c) => Some(c.trust()),
            None => None,
        }
    }

    pub fn fingerprint_of_contact(&self, id: &IdentityId) -> (r: Option<Fingerprint>)
        requires
            self.wf(),
        ensures
            r == if self@.contacts.contains_key(*id) {
                Some(self@.contacts[*id].fingerprint)
            } else {
                None
            },
    {
        match self.contacts.get(id) {
            Some(c) => Some(c.fingerprint()),
            None => None,
        }
    }
}

/// Forgiveness starts over: once unblocked, an identity is a stranger, and its
/// next sighting pins whatever key it shows.
pub proof fn law_unblocked_is_a_stranger(
    p: ProfileView,
    id: IdentityId,
    fingerprint: Fingerprint,
    now_ms: u64,
)
    requires
        p.blocks(id),
        id != p.id,
    ensures
        ({
            let forgiven = ProfileView { contacts: p.contacts.remove(id), ..p };
            &&& !forgiven.blocks(id)
            &&& sighting_event(forgiven, id, fingerprint) == Some(IdentityEvent::ContactAdded { id })
            &&& after_sighting(forgiven, id, fingerprint, None, now_ms).contacts[id] == newly_met(
                id,
                fingerprint,
                now_ms,
            )
        }),
{
}

/// A key that is not the pinned one never passes silently: the alarm is raised,
/// and what trust there was is gone until somebody verifies anew.
pub proof fn law_changed_key_raises_the_alarm(
    p: ProfileView,
    id: IdentityId,
    fingerprint: Fingerprint,
    nickname: Option<Seq<char>>,
    now_ms: u64,
)
    requires
        id != p.id,
        p.contacts.contains_key(id),
        p.contacts[id].fingerprint != fingerprint,
    ensures
        sighting_event(p, id, fingerprint) == Some(
            IdentityEvent::ContactKeyChanged {
                id,
                old_fingerprint: p.contacts[id].fingerprint,
                new_fingerprint: fingerprint,
            },
        ),
        ({
            let trust = after_sighting(p, id, fingerprint, nickname, now_ms).contacts[id].trust;
            trust == TrustLevel::Unverified || trust == TrustLevel::Blocked
        }),
{
}

/// No sighting lifts a block, whatever key is shown.
pub proof fn law_sighting_keeps_blocks(
    p: ProfileView,
    id: IdentityId,
    fingerprint: Fingerprint,
    nickname: Option<Seq<char>>,
    now_ms: u64,
    blocked: IdentityId,
)
    requires
        p.blocks(blocked),
    ensures
        after_sighting(p, id, fingerprint, nickname, now_ms).blocks(blocked),
{
}

/// Whoever is on the list stays blocked, whatever is blocked after them.
proof fn lemma_listed_is_blocked(
    contacts: Map<IdentityId, ContactView>,
    ids: Seq<IdentityId>,
    blank: Fingerprint,
    now_ms: u64,
    id: IdentityId,
)
    requires
        ids.contains(id),
    ensures
        contacts_blocking_all(contacts, ids, blank, now_ms).contains_key(id),
        contacts_blocking_all(contacts, ids, blank, now_ms)[id].trust == TrustLevel::Blocked,
    decreases ids.len(),
{
    if ids.last() != id {
        let i = choose|i: int| 0 <= i < ids.len() && ids[i] == id;
        assert(ids.drop_last()[i] == id);
        lemma_listed_is_blocked(contacts, ids.drop_last(), blank, now_ms, id);
    }
}

/// Blocks outlive the process: whoever the persisted record lists as blocked is
/// blocked in the profile that is brought up from it.
pub proof fn law_blocks_survive_a_restart(
    p: ProfileView,
    blocked: Seq<IdentityId>,
    blank: Fingerprint,
    now_ms: u64,
    id: IdentityId,
)
    requires
        blocked.contains(id),
    ensures
        (ProfileView {
            contacts: contacts_blocking_all(p.contacts, blocked, blank, now_ms),
            ..p
        }).blocks(id),
{
    lemma_listed_is_blocked(p.contacts, blocked, blank, now_ms, id);
}

impl ProfileRecord {
    /// Puts `id` on the persisted blocklist; tells whether the record changed
    /// (and so wants saving).
    pub fn note_blocked(&mut self, id: IdentityId) -> (changed: bool)
        ensures
            changed == !old(self).blocked@.contains(id),
            final(self).blocked@ == if old(self).blocked@.contains(id) {
                old(self).blocked@
            } else {
                old(self).blocked@.push(id)
            },
            final(self).nickname == old(self).nickname,
            final(self).irc == old(self).irc,
            final(self).peers == old(self).peers,
    {
        if lists(&self.blocked, &id) {
            return false;
        }
        self.blocked.push(id);
        true
    }

    /// Takes `id` off the persisted blocklist; tells whether the record
    /// changed (and so wants saving).
    pub fn note_unblocked(&mut self, id: IdentityId) -> (changed: bool)
        ensures
            changed == old(self).blocked@.contains(id),
            final(self).blocked@ == old(self).blocked@.filter(|b: IdentityId| b != id),
            final(self).nickname == old(self).nickname,
            final(self).irc == old(self).irc,
            final(self).peers == old(self).peers,
    {
        let changed: bool = lists(&self.blocked, &id);
        let mut kept: Vec<IdentityId> = Vec::new();
        let mut i: usize = 0;
        let ghost keep = |b: IdentityId| b != id;
        proof {
            reveal(Seq::filter);
            assert(self.blocked@.take(0) =~= Seq::<IdentityId>::empty());
        }
        while i < self.blocked.len()
            invariant
                i <= self.blocked@.len(),
                *self == *old(self),
                keep == (|b: IdentityId| b != id),
                kept@ == self.blocked@.take(i as int).filter(keep),
            decreases self.blocked@.len() - i,
        {
            proof {
                reveal(Seq::filter);
                assert(self.blocked@.take(i + 1).drop_last() =~= self.blocked@.take(i as int));
                assert(self.blocked@.take(i + 1).last() == self.blocked@[i as int]);
            }
            if !self.blocked[i].same(&id) {
                kept.push(self.blocked[i]);
            }
            i = i + 1;
        }
        assert(self.blocked@.take(i as int) =~= self.blocked@);
        self.blocked = kept;
        changed
    }

    /// The persisted gateway choice, defaults when never configured.
    pub fn irc_config(self) -> (r: IrcGatewayConfig)
        ensures
            match self.irc {
                Some(c) => r == c,
                None => !r.enabled && r.port.number() == 6667 && r.password is None,
            },
    {
        match self.irc {
            Some(c) => c,
            None => IrcGatewayConfig::default(),
        }
    }
}

/// A stranger seen is a contact from then on, pinned to the key that they showed, and it
/// is told. A contact who shows the pinned key stays as they were, and nothing is told.
/// Nobody is a contact of themselves.
pub proof fn law_first_sight_pins_the_key(
    p: ProfileView,
    id: IdentityId,
    fingerprint: Fingerprint,
    nickname: Option<Seq<char>>,
    now_ms: u64,
)
    ensures
        ({
            let after = after_sighting(p, id, fingerprint, nickname, now_ms);
            &&& id != p.id && !p.contacts.contains_key(id) ==> {
                &&& after.contacts.contains_key(id)
                &&& after.contacts[id].id == id
                &&& after.contacts[id].fingerprint == fingerprint
                &&& after.contacts[id].trust == (TrustLevel::TofuPinned { first_seen_ms: now_ms })
                &&& after.contacts[id].petname is None
                &&& sighting_event(p, id, fingerprint) == Some(IdentityEvent::ContactAdded { id })
            }
            &&& id != p.id && p.contacts.contains_key(id) && p.contacts[id].fingerprint
                == fingerprint ==> after.contacts == p.contacts && sighting_event(
                p,
                id,
                fingerprint,
            ) is None
            &&& id == p.id ==> after == p && sighting_event(p, id, fingerprint) is None
        }),
{
}

/// A sighting touches only whom it is of, and of us only what we know of them: their
/// nickname, if they announced one, is the one they go by from then on.
pub proof fn law_a_sighting_is_of_one_peer(
    p: ProfileView,
    id: IdentityId,
    fingerprint: Fingerprint,
    nickname: Option<Seq<char>>,
    now_ms: u64,
    other: IdentityId,
)
    ensures
        ({
            let after = after_sighting(p, id, fingerprint, nickname, now_ms);
            &&& after.id == p.id
            &&& after.fingerprint == p.fingerprint
            &&& after.nickname == p.nickname
            &&& other != id ==> (after.contacts.contains_key(other) <==> p.contacts.contains_key(other))
            &&& other != id && p.contacts.contains_key(other) ==> after.contacts[other]
                == p.contacts[other]
            &&& other != id ==> after.nick_of(other) == p.nick_of(other)
            &&& id != p.id && nickname is Some ==> after.nick_of(id) == nickname
            &&& nickname is None ==> after.nick_of(id) == p.nick_of(id)
            &&& id != p.id ==> after.contacts[id].fingerprint == fingerprint
            &&& id != p.id && p.contacts.contains_key(id) ==> after.contacts[id].petname
                == p.contacts[id].petname
        }),
{
}

/// Blocking anyone, known or not, blocks them and nobody else, and keeps what is known
/// of them.
pub proof fn law_anyone_can_be_blocked(
    p: ProfileView,
    id: IdentityId,
    blank: Fingerprint,
    now_ms: u64,
    other: IdentityId,
)
    ensures
        ({
            let after = ProfileView {
                contacts: contacts_blocking(p.contacts, id, blank, now_ms),
                ..p
            };
            &&& after.blocks(id)
            &&& other != id ==> after.blocks(other) == p.blocks(other)
            &&& other != id && p.contacts.contains_key(other) ==> after.contacts[other]
                == p.contacts[other]
            &&& other != id ==> (after.contacts.contains_key(other) <==> p.contacts.contains_key(other))
            &&& p.contacts.contains_key(id) ==> after.contacts[id].fingerprint
                == p.contacts[id].fingerprint && after.contacts[id].petname == p.contacts[id].petname
        }),
{
}

/// Whom a restart blocks is whom the record lists, besides those blocked already.
pub proof fn law_a_restart_blocks_no_one_else(
    p: ProfileView,
    blocked: Seq<IdentityId>,
    blank: Fingerprint,
    now_ms: u64,
    id: IdentityId,
)
    requires
        !blocked.contains(id),
    ensures
        (ProfileView {
            contacts: contacts_blocking_all(p.contacts, blocked, blank, now_ms),
            ..p
        }).blocks(id) == p.blocks(id),
    decreases blocked.len(),
{
    if blocked.len() > 0 {
        let front = blocked.drop_last();
        assert(!front.contains(id)) by {
            if front.contains(id) {
                let i = choose|i: int| 0 <= i < front.len() && front[i] == id;
                assert(blocked[i] == id);
            }
        }
        assert(blocked[blocked.len() - 1] != id) by {
            if blocked[blocked.len() - 1] == id {
                assert(blocked.contains(id));
            }
        }
        law_a_restart_blocks_no_one_else(p, front, blank, now_ms, id);
    }
}

/// A nickname finds its owner, whatever the case: if exactly one peer goes by it, they
/// are found, and nobody is found by a nickname that nobody goes by.
pub proof fn law_a_nickname_finds_its_owner(p: ProfileView, id: IdentityId, nick: Seq<char>)
    requires
        p.nicks.contains_key(id),
        lower_all(p.nicks[id]) == lower_all(nick),
        forall|x: IdentityId| #[trigger]
            p.nicks.contains_key(x) && lower_all(p.nicks[x]) == lower_all(nick) ==> x == id,
    ensures
        p.by_nickname(nick) == Some(id),
{
    assert(p.goes_by(id, nick));
    IdentityId::lemma_irreflexive(id);
    assert forall|x: IdentityId| #[trigger] p.goes_by(x, nick) implies !x.before(id) by {
        assert(p.nicks.contains_key(x));
    }
    assert(p.first_by(id, nick));
    let found = choose|x: IdentityId| p.first_by(x, nick);
    assert(p.first_by(found, nick));
    assert(p.nicks.contains_key(found));
}

/// Nobody is found by a nickname that nobody goes by.
pub proof fn law_unknown_nicknames_find_nobody(p: ProfileView, nick: Seq<char>)
    requires
        forall|x: IdentityId| #[trigger]
            p.nicks.contains_key(x) ==> lower_all(p.nicks[x]) != lower_all(nick),
    ensures
        p.by_nickname(nick) is None,
{
}

} // verus!

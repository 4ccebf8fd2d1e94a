//! Presence bounded context. Serverless presence is gossip-derived and
//! best-effort: peers beacon periodically and expire when silent.

use vstd::prelude::*;

use crate::shared::IdentityId;
use crate::sorted::{in_order, lemma_in_order, SortedMap};
use crate::text::{any_control, byte_len, byte_length, has_control};

verus! {

/// An away message: 1..=200 bytes, single line.
#[derive(Debug, PartialEq, Eq)]
pub struct AwayMessage(String);

#[derive(Debug, Clone, Copy, PartialEq, Eq, Structural)]
pub enum AwayMessageError {
    Empty,
    TooLong,
    ControlCharacter,
}

/// What is wrong with `raw` as an away message, if anything. The first
/// complaint wins.
pub open spec fn away_fault(raw: Seq<char>) -> Option<AwayMessageError> {
    if raw.len() == 0 {
        Some(AwayMessageError::Empty)
    } else if byte_len(raw) > 200 {
        Some(AwayMessageError::TooLong)
    } else if has_control(raw) {
        Some(AwayMessageError::ControlCharacter)
    } else {
        None
    }
}

impl View for AwayMessage {
    type V = Seq<char>;

    closed spec fn view(&self) -> Seq<char> {
        self.0@
    }
}

impl AwayMessage {
    pub open spec fn wf(&self) -> bool {
        away_fault(self@) is None
    }

    pub fn parse(raw: &str) -> (r: Result<AwayMessage, AwayMessageError>)
        ensures
            match r {
                Ok(a) => away_fault(raw@) is None && a@ == raw@ && a.wf(),
                Err(e) => away_fault(raw@) == Some(e),
            },
    {
        if raw.is_empty() {
            return Err(AwayMessageError::Empty);
        }
        if byte_length(raw) > 200 {
            return Err(AwayMessageError::TooLong);
        }
        if any_control(raw) {
            return Err(AwayMessageError::ControlCharacter);
        }
        Ok(AwayMessage(raw.to_owned()))
    }

    pub fn as_str(&self) -> (r: &str)
        ensures
            r@ == self@,
    {
        self.0.as_str()
    }
}

impl Clone for AwayMessage {
    fn clone(&self) -> (r: Self)
        ensures
            r == *self,
    {
        AwayMessage(self.0.clone())
    }
}

#[derive(Debug, PartialEq, Eq)]
pub enum PresenceState {
    Online,
    Away { message: Option<AwayMessage> },
    Offline { last_seen_ms: u64 },
}

impl Clone for PresenceState {
    fn clone(&self) -> (r: Self)
        ensures
            r == *self,
    {
        match self {
            PresenceState::Online => PresenceState::Online,
            PresenceState::Away { message } => PresenceState::Away {
                message: match message {
                    Some(m) => Some(m.clone()),
                    None => None,
                },
            },
            PresenceState::Offline { last_seen_ms } => PresenceState::Offline {
                last_seen_ms: *last_seen_ms,
            },
        }
    }
}

#[derive(Debug, Clone, PartialEq, Eq)]
pub enum PresenceEvent {
    PeerCameOnline { who: IdentityId },
    PeerWentAway { who: IdentityId },
    PeerWentOffline { who: IdentityId },
}

/// Both are online, both away, or both offline.
pub open spec fn same_kind(a: PresenceState, b: PresenceState) -> bool {
    match a {
        PresenceState::Online => b is Online,
        PresenceState::Away { .. } => b is Away,
        PresenceState::Offline { .. } => b is Offline,
    }
}

/// What to surface when `who` goes from `previous` to `state`: nothing for a
/// repeat, and nothing for a stranger who is offline.
pub open spec fn presence_event(
    who: IdentityId,
    previous: Option<PresenceState>,
    state: PresenceState,
) -> Option<PresenceEvent> {
    let repeat = match previous {
        Some(p) => same_kind(p, state),
        None => state is Offline,
    };
    if repeat {
        None
    } else {
        Some(
            match state {
                PresenceState::Online => PresenceEvent::PeerCameOnline { who },
                PresenceState::Away { .. } => PresenceEvent::PeerWentAway { who },
                PresenceState::Offline { .. } => PresenceEvent::PeerWentOffline { who },
            },
        )
    }
}

/// Presence roster for one channel (or the contact list).
#[derive(Debug, Clone, PartialEq, Eq)]
pub struct Roster {
    entries: SortedMap<IdentityId, PresenceState>,
}

impl View for Roster {
    type V = Map<IdentityId, PresenceState>;

    closed spec fn view(&self) -> Map<IdentityId, PresenceState> {
        self.entries@
    }
}

impl Roster {
    pub closed spec fn wf(&self) -> bool {
        self.entries.wf()
    }

    pub fn new() -> (r: Roster)
        ensures
            r.wf(),
            r@ == Map::<IdentityId, PresenceState>::empty(),
    {
        Roster { entries: SortedMap::new() }
    }

    pub fn state_of(&self, id: &IdentityId) -> (r: Option<&PresenceState>)
        requires
            self.wf(),
        ensures
            match r {
                Some(s) => self@.contains_key(*id) && *s == self@[*id],
                None => !self@.contains_key(*id),
            },
    {
        self.entries.get(id)
    }

    /// Everyone on the roster with their state, in id order.
    pub fn entries(&self) -> (r: Vec<(IdentityId, &PresenceState)>)
        requires
            self.wf(),
        ensures
            r@.map_values(|e: (IdentityId, &PresenceState)| e.0) == in_order(self@.dom()),
            forall|i: int|
                0 <= i < r@.len() ==> self@.contains_key((#[trigger] r@[i]).0) && self@[r@[i].0] == *r@[i].1,
    {
        let n: usize = self.entries.len();
        let mut r: Vec<(IdentityId, &PresenceState)> = Vec::new();
        let mut i: usize = 0;
        while i < n
            invariant
                i <= n,
                n == self.entries.walk().len(),
                self.entries.wf(),
                r@.len() == i,
                forall|j: int|
                    0 <= j < i ==> (#[trigger] r@[j]).0 == self.entries.walk()[j]
                        && self.entries@.contains_key(r@[j].0) && self.entries@[r@[j].0] == *r@[j].1,
            decreases n - i,
        {
            r.push((self.entries.key_at(i), self.entries.value_at(i)));
            i = i + 1;
        }
        proof {
            self.entries.lemma_walk();
            lemma_in_order(self@.dom(), self.entries.walk());
            assert(r@.map_values(|e: (IdentityId, &PresenceState)| e.0) =~= self.entries.walk());
        }
        r
    }

    /// Apply an observed beacon/state; returns an event only on transitions
    /// worth surfacing (repeat beacons are silent).
    pub fn observe(&mut self, who: IdentityId, state: PresenceState) -> (r: Option<PresenceEvent>)
        requires
            old(self).wf(),
        ensures
            final(self).wf(),
            final(self)@ == old(self)@.insert(who, state),
            r == presence_event(
                who,
                if old(self)@.contains_key(who) {
                    Some(old(self)@[who])
                } else {
                    None
                },
                state,
            ),
    {
        let r: Option<PresenceEvent> = match (self.entries.get(&who), &state) {
            (Some(PresenceState::Online), PresenceState::Online) => None,
            (Some(PresenceState::Away { .. }), PresenceState::Away { .. }) => None,
            (Some(PresenceState::Offline { .. }), PresenceState::Offline { .. }) => None,
            (None, PresenceState::Offline { .. }) => None,
            (_, PresenceState::Online) => Some(PresenceEvent::PeerCameOnline { who }),
            (_, PresenceState::Away { .. }) => Some(PresenceEvent::PeerWentAway { who }),
            (_, PresenceState::Offline { .. }) => Some(PresenceEvent::PeerWentOffline { who }),
        };
        self.entries.insert(who, state);
        r
    }
}

impl Default for Roster {
    fn default() -> (r: Self)
        ensures
            r.wf(),
            r@ == Map::<IdentityId, PresenceState>::empty(),
    {
        Roster::new()
    }
}

/// Repeat beacons are silent: hearing a state twice in a row surfaces nothing
/// the second time.
pub proof fn law_repeat_beacon_is_silent(who: IdentityId, state: PresenceState)
    ensures
        presence_event(who, Some(state), state) is None,
{
}

/// A change is surfaced, as what it is: whoever was online, away or offline and is not
/// so any more. A stranger is surfaced when they are heard of as online or away.
pub proof fn law_changes_are_surfaced(
    who: IdentityId,
    previous: PresenceState,
    message: Option<AwayMessage>,
    last_seen_ms: u64,
)
    ensures
        !(previous is Online) ==> presence_event(who, Some(previous), PresenceState::Online) == Some(
            PresenceEvent::PeerCameOnline { who },
        ),
        !(previous is Away) ==> presence_event(
            who,
            Some(previous),
            PresenceState::Away { message },
        ) == Some(PresenceEvent::PeerWentAway { who }),
        !(previous is Offline) ==> presence_event(
            who,
            Some(previous),
            PresenceState::Offline { last_seen_ms },
        ) == Some(PresenceEvent::PeerWentOffline { who }),
        presence_event(who, None, PresenceState::Online) == Some(
            PresenceEvent::PeerCameOnline { who },
        ),
        presence_event(who, None, PresenceState::Away { message }) == Some(
            PresenceEvent::PeerWentAway { who },
        ),
        presence_event(who, None, PresenceState::Offline { last_seen_ms }) is None,
        previous is Online ==> presence_event(who, Some(previous), PresenceState::Online) is None,
        previous is Away ==> presence_event(
            who,
            Some(previous),
            PresenceState::Away { message },
        ) is None,
{
}

/// An away message says something, in at most 200 bytes, without control characters; and
/// any such text can be one.
pub proof fn law_what_can_be_an_away_message(raw: Seq<char>)
    ensures
        away_fault(raw) is None <==> raw.len() > 0 && byte_len(raw) <= 200 && !has_control(raw),
        raw.len() == 0 ==> away_fault(raw) == Some(AwayMessageError::Empty),
{
}

} // verus!

//! Presence use cases. Best-effort by nature on a serverless network.

use vstd::prelude::*;

use crate::messaging::{ChannelId, ChannelName};
use crate::ports::TransportError;
use crate::presence::{
    away_fault, presence_event, AwayMessage, AwayMessageError, PresenceEvent, PresenceState, Roster,
};
use crate::shared::IdentityId;

use super::chat::ChatService;
use super::names::{name_texts, texts_ascend};

verus! {

#[derive(Debug, Clone, PartialEq, Eq)]
pub enum PresenceError {
    Away(AwayMessageError),
    Transport(TransportError),
}

/// The state that an away text stands for: none is online, and a text that
/// cannot be shown is away without a message.
pub open spec fn stands_for(state: PresenceState, away: Option<Seq<char>>) -> bool {
    match away {
        None => state is Online,
        Some(raw) => {
            &&& state matches PresenceState::Away { message }
            &&& match message {
                Some(m) => away_fault(raw) is None && m@ == raw,
                None => away_fault(raw) is Some,
            }
        },
    }
}

/// What was known of `who`, if anything.
pub open spec fn previously(roster: Map<IdentityId, PresenceState>, who: IdentityId) -> Option<
    PresenceState,
> {
    if roster.contains_key(who) {
        Some(roster[who])
    } else {
        None
    }
}

/// `ids` are the joined channels, in the order of their names.
pub open spec fn in_name_order(names: Map<Seq<char>, ChannelId>, ids: Seq<ChannelId>) -> bool {
    exists|texts: Seq<Seq<char>>|
        {
            &&& #[trigger] texts_ascend(texts)
            &&& texts.to_set() == names.dom()
            &&& ids == texts.map_values(|t: Seq<char>| names[t])
        }
}

/// Our own presence, to be told on each joined channel.
#[derive(Debug)]
pub struct Beacon {
    pub event: Option<PresenceEvent>,
    pub away: Option<String>,
    pub to: Vec<ChannelId>,
}

/// Who is online, away or gone.
#[derive(Debug)]
pub struct PresenceService {
    roster: Roster,
}

impl View for PresenceService {
    type V = Map<IdentityId, PresenceState>;

    closed spec fn view(&self) -> Map<IdentityId, PresenceState> {
        self.roster@
    }
}

/// The text of an optional string.
pub open spec fn text_of(s: Option<String>) -> Option<Seq<char>> {
    match s {
        Some(s) => Some(s@),
        None => None,
    }
}

/// The text of an optional argument.
pub open spec fn given(s: Option<&str>) -> Option<Seq<char>> {
    match s {
        Some(s) => Some(s@),
        None => None,
    }
}

impl PresenceService {
    pub closed spec fn wf(&self) -> bool {
        self.roster.wf()
    }

    pub fn new() -> (r: PresenceService)
        ensures
            r.wf(),
            r@ == Map::<IdentityId, PresenceState>::empty(),
    {
        PresenceService { roster: Roster::new() }
    }

    /// The `AWAY [:message]` use case: `None` clears away. The beacon goes out
    /// on every joined channel.
    pub fn set_away(&mut self, chat: &ChatService, me: IdentityId, message: Option<&str>) -> (r: Result<
        Beacon,
        PresenceError,
    >)
        requires
            old(self).wf(),
            chat.wf(),
        ensures
            final(self).wf(),
            match r {
                Err(e) => {
                    &&& message is Some
                    &&& away_fault(message->0@) is Some
                    &&& e == PresenceError::Away(away_fault(message->0@)->0)
                    &&& final(self)@ == old(self)@
                },
                Ok(b) => {
                    let away = given(message);
                    &&& away matches Some(raw) ==> away_fault(raw) is None
                    &&& text_of(b.away) == away
                    &&& in_name_order(chat@.names, b.to@)
                    &&& exists|state: PresenceState|
                        {
                            &&& #[trigger] stands_for(state, away)
                            &&& final(self)@ == old(self)@.insert(me, state)
                            &&& b.event == presence_event(me, previously(old(self)@, me), state)
                        }
                },
            },
    {
        let ghost away = given(message);
        let (state, wire) = match message {
            Some(raw) => match AwayMessage::parse(raw) {
                Ok(m) => {
                    let wire: String = m.as_str().to_owned();
                    (PresenceState::Away { message: Some(m) }, Some(wire))
                },
                Err(e) => {
                    return Err(PresenceError::Away(e));
                },
            },
            None => (PresenceState::Online, None),
        };
        assert(stands_for(state, away));
        let event: Option<PresenceEvent> = self.roster.observe(me, state);
        let names: Vec<ChannelName> = chat.joined_channels();
        let ghost texts = name_texts(names@);
        let mut to: Vec<ChannelId> = Vec::new();
        let mut i: usize = 0;
        while i < names.len()
            invariant
                i <= names@.len(),
                chat.wf(),
                texts == name_texts(names@),
                forall|t: Seq<char>| #[trigger] texts.contains(t) <==> chat@.names.contains_key(t),
                to@.len() == i,
                forall|j: int| 0 <= j < i ==> #[trigger] to@[j] == chat@.names[texts[j]],
            decreases names@.len() - i,
        {
            assert(texts[i as int] == names@[i as int]@);
            assert(texts.contains(texts[i as int]));
            match chat.joined(&names[i]) {
                Some(id) => {
                    to.push(id);
                },
                None => {},
            }
            i = i + 1;
        }
        proof {
            assert(texts_ascend(texts));
            assert(texts.to_set() =~= chat@.names.dom());
            assert(to@ =~= texts.map_values(|t: Seq<char>| chat@.names[t]));
        }
        Ok(Beacon { event, away: wire, to })
    }

    /// Inbound presence beacon.
    pub fn observe(&mut self, who: IdentityId, away: Option<String>) -> (event: Option<PresenceEvent>)
        requires
            old(self).wf(),
        ensures
            final(self).wf(),
            exists|state: PresenceState|
                {
                    &&& #[trigger] stands_for(state, text_of(away))
                    &&& final(self)@ == old(self)@.insert(who, state)
                    &&& event == presence_event(who, previously(old(self)@, who), state)
                },
    {
        let state: PresenceState = match &away {
            Some(raw) => match AwayMessage::parse(raw.as_str()) {
                Ok(m) => PresenceState::Away { message: Some(m) },
                Err(_) => PresenceState::Away { message: None },
            },
            None => PresenceState::Online,
        };
        assert(stands_for(state, text_of(away)));
        self.roster.observe(who, state)
    }

    /// What is known of `id`; a stranger is offline and was never seen.
    pub fn state_of(&self, id: &IdentityId) -> (r: PresenceState)
        requires
            self.wf(),
        ensures
            r == match previously(self@, *id) {
                Some(s) => s,
                None => PresenceState::Offline { last_seen_ms: 0 },
            },
    {
        match self.roster.state_of(id) {
            Some(s) => s.clone(),
            None => PresenceState::Offline { last_seen_ms: 0 },
        }
    }
}

/// What is heard of a peer is what they said: with no away text they are online, with one
/// that can be shown they are away with it, and with any other they are away without.
pub proof fn law_presence_is_as_announced(state: PresenceState, away: Option<Seq<char>>)
    requires
        stands_for(state, away),
    ensures
        state is Online <==> away is None,
        state is Away <==> away is Some,
        !(state is Offline),
        state matches PresenceState::Away { message } ==> (message is Some <==> away_fault(away->0) is None),
        state matches PresenceState::Away { message } ==> (message matches Some(m) ==> m@ == away->0),
{
}

/// What is known of somebody is what was heard of them last.
pub proof fn law_the_last_word_stands(
    roster: Map<IdentityId, PresenceState>,
    who: IdentityId,
    state: PresenceState,
    other: IdentityId,
)
    ensures
        previously(roster.insert(who, state), who) == Some(state),
        other != who ==> previously(roster.insert(who, state), other) == previously(roster, other),
        !roster.contains_key(who) ==> previously(roster, who) is None,
{
}

/// A beacon goes to every joined channel, and to no other.
pub proof fn law_beacons_go_to_every_channel(
    names: Map<Seq<char>, ChannelId>,
    ids: Seq<ChannelId>,
    name: Seq<char>,
    id: ChannelId,
)
    requires
        in_name_order(names, ids),
    ensures
        names.contains_key(name) ==> ids.contains(names[name]),
        ids.contains(id) ==> exists|n: Seq<char>|
            #[trigger] names.contains_key(n) && names[n] == id,
{
    let texts = choose|texts: Seq<Seq<char>>|
        {
            &&& #[trigger] texts_ascend(texts)
            &&& texts.to_set() == names.dom()
            &&& ids == texts.map_values(|t: Seq<char>| names[t])
        };
    if names.contains_key(name) {
        assert(texts.to_set().contains(name));
        let i = choose|i: int| 0 <= i < texts.len() && texts[i] == name;
        assert(ids[i] == names[name]);
    }
    if ids.contains(id) {
        let i = choose|i: int| 0 <= i < ids.len() && ids[i] == id;
        assert(texts.to_set().contains(texts[i]));
        assert(names.contains_key(texts[i]));
    }
}

} // verus!

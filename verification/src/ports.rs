//! The values that cross the boundary between the services and the adapters
//! that serve them.

use vstd::prelude::*;

use crate::messaging::message::MessageView;
use crate::messaging::{ChannelId, ChannelName, MessageId, Nickname};
use crate::shared::IdentityId;
use crate::sorted::copy_keys;
use crate::text::{
    byte_len, byte_length, control_char, is_control, is_space, space_char, string_of, trim, trimmed,
};

verus! {

/// A message as it crosses the transport boundary, before it becomes a
/// domain [`crate::messaging::Message`]. Adapters must verify the envelope
/// signature and then attest via [`crate::messaging::Verified`] when handing
/// it to a service.
#[derive(Debug, Clone, PartialEq, Eq)]
pub struct WireMessage {
    pub id: MessageId,
    pub author: IdentityId,
    pub lamport: u64,
    pub parents: Vec<MessageId>,
    pub body: String,
    pub ts_hint_ms: u64,
}

impl View for WireMessage {
    type V = MessageView;

    open spec fn view(&self) -> MessageView {
        MessageView {
            id: self.id,
            author: self.author,
            lamport: self.lamport,
            parents: self.parents@,
            body: self.body@,
            ts_hint_ms: self.ts_hint_ms,
        }
    }
}

/// Everything that travels on a channel's gossip topic besides raw presence
/// beacons: chat messages and membership/topic operations.
#[derive(Debug, Clone, PartialEq, Eq)]
pub enum ChannelSignal {
    Message(WireMessage),
    Joined { who: IdentityId, nickname: Option<String> },
    Left { who: IdentityId },
    TopicChanged { by: IdentityId, topic: String },
    /// Operator grant/revoke. `op: true` grants, `false` revokes. The
    /// receiving aggregate re-checks that `by` holds the founder seat.
    RoleChanged { by: IdentityId, target: IdentityId, op: bool },
    Presence { who: IdentityId, away: Option<String> },
}

/// Who acts in a signal.
pub open spec fn acting(signal: ChannelSignal) -> IdentityId {
    match signal {
        ChannelSignal::Message(m) => m.author,
        ChannelSignal::Joined { who, .. } => who,
        ChannelSignal::Left { who } => who,
        ChannelSignal::TopicChanged { by, .. } => by,
        ChannelSignal::RoleChanged { by, .. } => by,
        ChannelSignal::Presence { who, .. } => who,
    }
}

impl ChannelSignal {
    /// Who acts in the signal.
    pub fn actor(&self) -> (r: IdentityId)
        ensures
            r == acting(*self),
    {
        match self {
            ChannelSignal::Message(m) => m.author,
            ChannelSignal::Joined { who, .. } => *who,
            ChannelSignal::Left { who } => *who,
            ChannelSignal::TopicChanged { by, .. } => *by,
            ChannelSignal::RoleChanged { by, .. } => *by,
            ChannelSignal::Presence { who, .. } => *who,
        }
    }
}

#[verifier::ext_equal]
pub ghost enum ChannelSignalView {
    Message(MessageView),
    Joined { who: IdentityId, nickname: Option<Seq<char>> },
    Left { who: IdentityId },
    TopicChanged { by: IdentityId, topic: Seq<char> },
    RoleChanged { by: IdentityId, target: IdentityId, op: bool },
    Presence { who: IdentityId, away: Option<Seq<char>> },
}

pub open spec fn optional_text(t: Option<String>) -> Option<Seq<char>> {
    match t {
        Some(s) => Some(s@),
        None => None,
    }
}

impl View for ChannelSignal {
    type V = ChannelSignalView;

    open spec fn view(&self) -> ChannelSignalView {
        match self {
            ChannelSignal::Message(m) => ChannelSignalView::Message(m@),
            ChannelSignal::Joined { who, nickname } => ChannelSignalView::Joined {
                who: *who,
                nickname: optional_text(*nickname),
            },
            ChannelSignal::Left { who } => ChannelSignalView::Left { who: *who },
            ChannelSignal::TopicChanged { by, topic } => ChannelSignalView::TopicChanged {
                by: *by,
                topic: topic@,
            },
            ChannelSignal::RoleChanged { by, target, op } => ChannelSignalView::RoleChanged {
                by: *by,
                target: *target,
                op: *op,
            },
            ChannelSignal::Presence { who, away } => ChannelSignalView::Presence {
                who: *who,
                away: optional_text(*away),
            },
        }
    }
}

impl WireMessage {
    pub fn copied(&self) -> (r: Self)
        ensures
            r@ == self@,
    {
        WireMessage {
            id: self.id,
            author: self.author,
            lamport: self.lamport,
            parents: copy_keys(&self.parents),
            body: self.body.clone(),
            ts_hint_ms: self.ts_hint_ms,
        }
    }
}

fn copy_text(t: &Option<String>) -> (r: Option<String>)
    ensures
        optional_text(r) == optional_text(*t),
{
    match t {
        Some(s) => Some(s.clone()),
        None => None,
    }
}

impl ChannelSignal {
    pub fn copied(&self) -> (r: Self)
        ensures
            r@ == self@,
    {
        match self {
            ChannelSignal::Message(m) => ChannelSignal::Message(m.copied()),
            ChannelSignal::Joined { who, nickname } => ChannelSignal::Joined {
                who: *who,
                nickname: copy_text(nickname),
            },
            ChannelSignal::Left { who } => ChannelSignal::Left { who: *who },
            ChannelSignal::TopicChanged { by, topic } => ChannelSignal::TopicChanged {
                by: *by,
                topic: topic.clone(),
            },
            ChannelSignal::RoleChanged { by, target, op } => ChannelSignal::RoleChanged {
                by: *by,
                target: *target,
                op: *op,
            },
            ChannelSignal::Presence { who, away } => ChannelSignal::Presence {
                who: *who,
                away: copy_text(away),
            },
        }
    }
}

#[derive(Debug, Clone, PartialEq, Eq)]
pub enum TransportError {
    Unreachable,
    Other(String),
}

/// A channel's discovery record: enough for a stranger to join.
#[derive(Debug, Clone, PartialEq, Eq)]
pub struct ChannelRecord {
    pub id: ChannelId,
    pub name: ChannelName,
    pub founder: IdentityId,
}

#[derive(Debug, Clone, PartialEq, Eq)]
pub enum DirectoryError {
    Other(String),
}

#[derive(Debug, Clone, PartialEq, Eq)]
pub enum StoreError {
    Other(String),
}

#[derive(Debug, Clone, PartialEq, Eq)]
pub enum ProfileStoreError {
    Other(String),
}

#[derive(Debug, Clone, PartialEq, Eq)]
pub enum KeyStoreError {
    Other(String),
}

/// A TCP port the IRC gateway may listen on: non-privileged, user-space
/// (`1024..=65535`). The loopback-only rule lives with the gateway's bind
/// address; this object only rules out ports that would need root or mean
/// "pick for me": a persisted setting must name a real port.
#[derive(Debug, Clone, Copy, PartialEq, Eq, Structural)]
pub struct GatewayPort(u16);

#[derive(Debug, Clone, Copy, PartialEq, Eq, Structural)]
pub struct GatewayPortError;

impl GatewayPort {
    pub closed spec fn number(&self) -> u16 {
        self.0
    }

    pub open spec fn wf(&self) -> bool {
        self.number() >= 1024
    }

    pub fn new(port: u16) -> (r: Result<GatewayPort, GatewayPortError>)
        ensures
            match r {
                Ok(p) => port >= 1024 && p.number() == port && p.wf(),
                Err(_) => port < 1024,
            },
    {
        if port >= 1024 {
            Ok(GatewayPort(port))
        } else {
            Err(GatewayPortError)
        }
    }

    pub fn get(self) -> (r: u16)
        ensures
            r == self.number(),
    {
        self.0
    }
}

impl Default for GatewayPort {
    /// The IRC default, 6667.
    fn default() -> (r: Self)
        ensures
            r.number() == 6667,
            r.wf(),
    {
        GatewayPort(6667)
    }
}

/// The persisted IRC-gateway choice: off by default, port 6667, no
/// password. One struct rather than three loose record fields so a save
/// can never tear the setting apart.
#[derive(Debug, Clone, PartialEq, Eq)]
pub struct IrcGatewayConfig {
    /// Whether the gateway starts with the node.
    pub enabled: bool,
    pub port: GatewayPort,
    /// Recommended on shared machines: the gateway is plaintext on
    /// loopback and other local users can reach loopback ports.
    pub password: Option<String>,
}

impl Default for IrcGatewayConfig {
    fn default() -> (r: Self)
        ensures
            !r.enabled,
            r.port.number() == 6667,
            r.password is None,
    {
        IrcGatewayConfig { enabled: false, port: GatewayPort::default(), password: None }
    }
}

/// A remembered peer's multiaddr, held as a validated string. Validation is
/// syntactic (leading slash, non-empty `/`-separated segments, no whitespace,
/// bounded length) and the network adapter does the real parse at dial time.
/// Anything that passes here round-trips the store safely and displays
/// cleanly in a saved-peers list.
#[derive(Debug, PartialEq, Eq)]
pub struct PeerAddr(String);

#[derive(Debug, Clone, Copy, PartialEq, Eq, Structural)]
pub enum PeerAddrError {
    Empty,
    NotAMultiaddr,
    EmptySegment,
    ForbiddenCharacter,
    TooLong,
}

/// Some `/`-separated segment of `s` is empty: a slash with nothing, or
/// another slash, behind it.
pub open spec fn empty_segment_at(s: Seq<char>, i: int) -> bool {
    0 <= i < s.len() && s[i] == '/' && (i + 1 == s.len() || s[i + 1] == '/')
}

/// What is wrong with the trimmed text `s` as a peer address, if anything.
/// The first complaint wins.
pub open spec fn peer_addr_fault(s: Seq<char>) -> Option<PeerAddrError> {
    if s.len() == 0 {
        Some(PeerAddrError::Empty)
    } else if byte_len(s) > 256 {
        Some(PeerAddrError::TooLong)
    } else if s[0] != '/' {
        Some(PeerAddrError::NotAMultiaddr)
    } else if exists|i: int| 0 <= i < s.len() && (is_space(#[trigger] s[i]) || is_control(s[i])) {
        Some(PeerAddrError::ForbiddenCharacter)
    } else if exists|i: int| empty_segment_at(s, i) {
        Some(PeerAddrError::EmptySegment)
    } else {
        None
    }
}

impl View for PeerAddr {
    type V = Seq<char>;

    closed spec fn view(&self) -> Seq<char> {
        self.0@
    }
}

impl PeerAddr {
    /// Generous for any TCP/QUIC multiaddr with a `/p2p/` suffix, small
    /// enough that a persisted record stays bounded.
    pub const MAX_LEN: usize = 256;

    pub open spec fn wf(&self) -> bool {
        peer_addr_fault(self@) is None
    }

    /// Smart constructor: trims, then checks multiaddr syntax.
    pub fn parse(s: &str) -> (r: Result<PeerAddr, PeerAddrError>)
        ensures
            match r {
                Ok(a) => peer_addr_fault(trimmed(s@)) is None && a@ == trimmed(s@) && a.wf(),
                Err(e) => peer_addr_fault(trimmed(s@)) == Some(e),
            },
    {
        let chars: Vec<char> = trim(s);
        let ghost t = trimmed(s@);
        if chars.len() == 0 {
            return Err(PeerAddrError::Empty);
        }
        let addr: String = string_of(&chars);
        if byte_length(addr.as_str()) > Self::MAX_LEN {
            return Err(PeerAddrError::TooLong);
        }
        if chars[0] != '/' {
            return Err(PeerAddrError::NotAMultiaddr);
        }
        let mut i: usize = 0;
        while i < chars.len()
            invariant
                i <= chars@.len(),
                chars@ == t,
                t == trimmed(s@),
                t.len() > 0,
                byte_len(t) <= 256,
                t[0] == '/',
                forall|j: int| 0 <= j < i ==> !is_space(#[trigger] t[j]) && !is_control(t[j]),
            decreases chars@.len() - i,
        {
            if space_char(chars[i]) || control_char(chars[i]) {
                assert(is_space(t[i as int]) || is_control(t[i as int]));
                return Err(PeerAddrError::ForbiddenCharacter);
            }
            i = i + 1;
        }
        let mut k: usize = 0;
        while k < chars.len()
            invariant
                k <= chars@.len(),
                chars@ == t,
                t == trimmed(s@),
                t.len() > 0,
                byte_len(t) <= 256,
                t[0] == '/',
                forall|j: int| 0 <= j < t.len() ==> !is_space(#[trigger] t[j]) && !is_control(t[j]),
                forall|j: int| 0 <= j < k ==> !empty_segment_at(t, j),
            decreases chars@.len() - k,
        {
            if chars[k] == '/' && (k + 1 == chars.len() || chars[k + 1] == '/') {
                assert(empty_segment_at(t, k as int));
                return Err(PeerAddrError::EmptySegment);
            }
            k = k + 1;
        }
        Ok(PeerAddr(addr))
    }

    pub fn as_str(&self) -> (r: &str)
        ensures
            r@ == self@,
    {
        self.0.as_str()
    }

    /// Whether the two name the same address.
    pub fn same(&self, other: &PeerAddr) -> (r: bool)
        ensures
            r == (self@ == other@),
    {
        self.0 == other.0
    }
}

impl Clone for PeerAddr {
    fn clone(&self) -> (r: Self)
        ensures
            r == *self,
    {
        PeerAddr(self.0.clone())
    }
}

/// The texts of a list of addresses.
pub open spec fn addr_views(peers: Seq<PeerAddr>) -> Seq<Seq<char>> {
    Seq::new(peers.len(), |i: int| peers[i]@)
}

/// A list of addresses without `addr`.
pub open spec fn other_addrs(peers: Seq<Seq<char>>, addr: Seq<char>) -> Seq<Seq<char>> {
    peers.filter(|a: Seq<char>| a != addr)
}

/// `addr` in front, the others behind it, and no more than sixteen in all.
pub open spec fn remembered(peers: Seq<Seq<char>>, addr: Seq<char>) -> Seq<Seq<char>> {
    let all = seq![addr] + other_addrs(peers, addr);
    if all.len() > 16 {
        all.take(16)
    } else {
        all
    }
}

/// The locally persisted slice of the profile. Every field is `Option` +
/// `Default` (or an empty collection) so later milestones add fields here
/// without invalidating records written before the field existed.
#[derive(Debug, Clone, PartialEq, Eq)]
pub struct ProfileRecord {
    /// The announced nickname, once the user has chosen one.
    pub nickname: Option<Nickname>,
    /// IRC gateway settings; `None` means never configured (defaults).
    pub irc: Option<IrcGatewayConfig>,
    /// Locally blocked identities: bans are local on a decentralized
    /// network, and they survive a restart.
    pub blocked: Vec<IdentityId>,
    /// Addresses of peers we successfully connected to: most recent
    /// first, deduped, capped at [`ProfileRecord::PEERS_CAP`]. The node
    /// redials these at boot, so a manual dial is a first-time-only act.
    pub peers: Vec<PeerAddr>,
}

impl Default for ProfileRecord {
    fn default() -> (r: Self)
        ensures
            r.nickname is None,
            r.irc is None,
            r.blocked@ == Seq::<IdentityId>::empty(),
            r.peers@ == Seq::<PeerAddr>::empty(),
    {
        ProfileRecord { nickname: None, irc: None, blocked: Vec::new(), peers: Vec::new() }
    }
}

impl ProfileRecord {
    /// How many remembered peers survive: the most recent 16. The cache
    /// exists to make reconnection automatic, not to archive every peer
    /// ever met, so it must never grow unbounded.
    pub const PEERS_CAP: usize = 16;

    /// Takes `addr` out of the remembered peers.
    fn drop_peer(&mut self, addr: &PeerAddr)
        ensures
            addr_views(final(self).peers@) == other_addrs(addr_views(old(self).peers@), addr@),
            final(self).nickname == old(self).nickname,
            final(self).irc == old(self).irc,
            final(self).blocked == old(self).blocked,
    {
        let ghost before = addr_views(self.peers@);
        let mut kept: Vec<PeerAddr> = Vec::new();
        let mut i: usize = 0;
        proof {
            reveal(Seq::filter);
            assert(before.take(0) =~= Seq::<Seq<char>>::empty());
            assert(addr_views(kept@) =~= Seq::<Seq<char>>::empty());
        }
        while i < self.peers.len()
            invariant
                i <= self.peers@.len(),
                *self == *old(self),
                before == addr_views(self.peers@),
                addr_views(kept@) == other_addrs(before.take(i as int), addr@),
            decreases self.peers@.len() - i,
        {
            proof {
                reveal(Seq::filter);
                assert(before.take(i + 1).drop_last() =~= before.take(i as int));
                assert(before.take(i + 1).last() == before[i as int]);
            }
            if !self.peers[i].same(addr) {
                let ghost prior = addr_views(kept@);
                kept.push(self.peers[i].clone());
                assert(addr_views(kept@) =~= prior.push(before[i as int]));
            }
            i = i + 1;
        }
        assert(before.take(i as int) =~= before);
        self.peers = kept;
    }

    /// Remember a peer address: a known one moves to the front, a new one
    /// is inserted there, and the oldest past the cap falls off.
    pub fn remember_peer(&mut self, addr: PeerAddr)
        ensures
            addr_views(final(self).peers@) == remembered(addr_views(old(self).peers@), addr@),
            final(self).nickname == old(self).nickname,
            final(self).irc == old(self).irc,
            final(self).blocked == old(self).blocked,
    {
        self.drop_peer(&addr);
        let ghost others = addr_views(self.peers@);
        self.peers.insert(0, addr);
        assert(addr_views(self.peers@) =~= seq![addr@] + others);
        if self.peers.len() > Self::PEERS_CAP {
            let ghost all = addr_views(self.peers@);
            self.peers.truncate(Self::PEERS_CAP);
            assert(addr_views(self.peers@) =~= all.take(16));
        }
    }

    /// Forget a peer address. Returns whether the record changed (and so
    /// wants persisting).
    pub fn forget_peer(&mut self, addr: &PeerAddr) -> (changed: bool)
        ensures
            addr_views(final(self).peers@) == other_addrs(addr_views(old(self).peers@), addr@),
            changed == addr_views(old(self).peers@).contains(addr@),
            final(self).nickname == old(self).nickname,
            final(self).irc == old(self).irc,
            final(self).blocked == old(self).blocked,
    {
        let before: usize = self.peers.len();
        self.drop_peer(addr);
        proof {
            lemma_other_addrs(addr_views(old(self).peers@), addr@);
        }
        self.peers.len() != before
    }
}

/// What is left is shorter exactly if something was dropped, and no longer
/// holds it.
pub proof fn lemma_other_addrs(peers: Seq<Seq<char>>, addr: Seq<char>)
    ensures
        other_addrs(peers, addr).len() <= peers.len(),
        (other_addrs(peers, addr).len() != peers.len()) == peers.contains(addr),
        !other_addrs(peers, addr).contains(addr),
        forall|a: Seq<char>| #[trigger] other_addrs(peers, addr).contains(a) ==> peers.contains(a),
    decreases peers.len(),
{
    reveal(Seq::filter);
    if peers.len() > 0 {
        let init = peers.drop_last();
        let last = peers.last();
        lemma_other_addrs(init, addr);
        let oi = other_addrs(init, addr);
        let o = other_addrs(peers, addr);
        assert(peers.contains(addr) <==> init.contains(addr) || last == addr) by {
            if init.contains(addr) {
                let i = choose|i: int| 0 <= i < init.len() && init[i] == addr;
                assert(peers[i] == addr);
            }
            if peers.contains(addr) {
                let i = choose|i: int| 0 <= i < peers.len() && peers[i] == addr;
                if i < init.len() {
                    assert(init[i] == addr);
                }
            }
            assert(peers[peers.len() - 1] == last);
        }
        assert forall|a: Seq<char>| #[trigger] o.contains(a) implies peers.contains(a) && a != addr by {
            let i = choose|i: int| 0 <= i < o.len() && o[i] == a;
            if i < oi.len() {
                assert(oi[i] == a);
                assert(oi.contains(a));
                assert(init.contains(a));
                let j = choose|j: int| 0 <= j < init.len() && init[j] == a;
                assert(peers[j] == a);
            } else {
                assert(a == last);
                assert(peers[peers.len() - 1] == last);
            }
        }
    }
}

/// A peer remembered comes first, once, and the list stays within its cap.
pub proof fn law_remembered_peer_comes_first(peers: Seq<Seq<char>>, addr: Seq<char>, i: int)
    ensures
        remembered(peers, addr).len() <= 16,
        remembered(peers, addr)[0] == addr,
        0 < i < remembered(peers, addr).len() ==> remembered(peers, addr)[i] != addr,
{
    let others = other_addrs(peers, addr);
    lemma_other_addrs(peers, addr);
    if 0 < i < remembered(peers, addr).len() {
        assert(remembered(peers, addr)[i] == others[i - 1]);
        assert(others.contains(others[i - 1]));
    }
}

/// A call-signaling action carried as a signed direct envelope.
#[derive(Debug, Clone, PartialEq, Eq)]
pub enum CallAction {
    Offer {
        participants: Vec<IdentityId>,
        /// Per-call AEAD key for media frames. Confidential to the direct
        /// Noise-encrypted connection.
        media_key: [u8; 32],
    },
    Accept,
    Decline,
    HangUp,
    ScreenShare { active: bool },
    /// The sender muted (or unmuted) their mic. Advisory roster state:
    /// the muted party enforces it locally by sending only silence.
    Mute { active: bool },
}

/// Which media a unidirectional stream carries.
#[derive(Debug, Clone, Copy, PartialEq, Eq, Structural)]
pub enum MediaStreamKind {
    Audio,
    Video,
}

/// Remembering a peer forgets nobody while there is room: with fewer than sixteen known,
/// everyone known stays, in order, behind the one remembered.
pub proof fn law_remembering_forgets_nobody(peers: Seq<Seq<char>>, addr: Seq<char>, other: Seq<char>)
    requires
        peers.len() < 16,
    ensures
        remembered(peers, addr).contains(addr),
        peers.contains(other) ==> remembered(peers, addr).contains(other),
        remembered(peers, addr).contains(other) ==> peers.contains(other) || other == addr,
{
    let f = |a: Seq<char>| a != addr;
    let rest = other_addrs(peers, addr);
    peers.filter_lemma(f);
    let all = seq![addr] + rest;
    assert(all[0] == addr);
    if peers.contains(other) && other != addr {
        let i = choose|i: int| 0 <= i < peers.len() && peers[i] == other;
        assert(f(peers[i]));
        assert(rest.contains(peers[i]));
        let j = choose|j: int| 0 <= j < rest.len() && rest[j] == other;
        assert(all[j + 1] == other);
    }
    if all.contains(other) && other != addr {
        let j = choose|j: int| 0 <= j < all.len() && all[j] == other;
        assert(j >= 1 && rest[j - 1] == other);
        assert(rest.contains(rest[j - 1]));
        lemma_other_addrs(peers, addr);
    }
}

/// An address is taken if it opens with a slash, has at most 256 bytes, no white space and
/// no control characters, and nothing missing between its slashes; and only then.
pub proof fn law_sound_addresses_are_taken(s: Seq<char>)
    ensures
        peer_addr_fault(s) is None <==> {
            &&& s.len() > 0
            &&& byte_len(s) <= 256
            &&& s[0] == '/'
            &&& forall|i: int|
                0 <= i < s.len() ==> !is_space(#[trigger] s[i]) && !is_control(s[i])
            &&& forall|i: int|
                0 <= i < s.len() && (#[trigger] s[i]) == '/' ==> i + 1 < s.len() && s[i + 1] != '/'
        },
{
    if exists|i: int| empty_segment_at(s, i) {
        let i = choose|i: int| empty_segment_at(s, i);
        assert(s[i] == '/');
    } else {
        assert forall|i: int| 0 <= i < s.len() && (#[trigger] s[i]) == '/' implies i + 1 < s.len()
            && s[i + 1] != '/' by {
            assert(!empty_segment_at(s, i));
        }
    }
}

/// Who acts in a signal is who it names as doing it.
pub proof fn law_signals_name_their_actor(wire: WireMessage, who: IdentityId, target: IdentityId, text: String, op: bool)
    ensures
        acting(ChannelSignal::Message(wire)) == wire.author,
        acting(ChannelSignal::Joined { who, nickname: None }) == who,
        acting(ChannelSignal::Left { who }) == who,
        acting(ChannelSignal::TopicChanged { by: who, topic: text }) == who,
        acting(ChannelSignal::RoleChanged { by: who, target, op }) == who,
        acting(ChannelSignal::Presence { who, away: None }) == who,
{
}

} // verus!

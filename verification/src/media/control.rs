//! In-band call control for the forwarding tree and the feedback loop.
//!
//! Control messages ride the media streams as sealed frames of
//! [`MediaKind::Control`] under the call key, with the same authenticity as
//! media itself. The sharer tells the forwarder whom to relay to; the forwarder
//! acknowledges and asks for keyframes; each viewer reports to the sharer what
//! it received, which [`BitrateController`] turns into encoder bitrate steps.

use vstd::prelude::*;

use crate::bytes::{
    append_bytes, array_of, big_endian, big_endian_value, bytes_between,
    lemma_big_endian_reads_back, lemma_big_endian_writes_back, lemma_lens, lemma_pow256_values,
    push_big_endian, read_big_endian,
};
use crate::media::frame::{
    opened_frame, seal, sealed_frame, CallKey, FrameError, FrameHeader, MediaKind,
};
use crate::shared::IdentityId;
use crate::sorted::SortedSet;

verus! {

/// The first four bytes of an identity as a number: the ssrc of its voice.
pub open spec fn base_ssrc(id: Seq<u8>) -> u32 {
    big_endian_value(id.subrange(0, 4)) as u32
}

/// The ssrc of the voice stream of an identity.
pub fn audio_ssrc_of(id: &IdentityId) -> (r: u32)
    ensures
        r == base_ssrc(id@),
{
    proof {
        lemma_pow256_values();
    }
    read_big_endian(id.as_bytes(), 0, 4) as u32
}

/// The ssrc of the control stream: that of the voice with a constant mixed in,
/// so that one call key never sees two streams of a sender share nonces.
pub fn control_ssrc_of(id: &IdentityId) -> (r: u32)
    ensures
        r == base_ssrc(id@) ^ 0xA5C3_17E9u32,
{
    audio_ssrc_of(id) ^ 0xA5C3_17E9
}

/// One viewer's reception report over its last window. `received` counts the
/// sealed video frames that arrived; `lost` counts the gaps between their
/// counters.
#[derive(Debug, Clone, Copy, PartialEq, Eq, Structural)]
pub struct FeedbackReport {
    pub received: u32,
    pub lost: u32,
}

impl Default for FeedbackReport {
    fn default() -> (r: Self)
        ensures
            r == (FeedbackReport { received: 0, lost: 0 }),
    {
        FeedbackReport { received: 0, lost: 0 }
    }
}

impl FeedbackReport {
    /// All frames of the window, arrived or not.
    pub open spec fn spec_total(self) -> int {
        self.received + self.lost
    }

    /// At least `percent` in a hundred frames were lost.
    pub open spec fn spec_loss_reaches(self, percent: int) -> bool {
        100 * self.lost >= percent * self.spec_total()
    }

    /// More than `percent` in a hundred frames were lost.
    pub open spec fn spec_loss_exceeds(self, percent: int) -> bool {
        100 * self.lost > percent * self.spec_total()
    }

    pub fn loss_reaches(&self, percent: u8) -> (r: bool)
        ensures
            r == self.spec_loss_reaches(percent as int),
    {
        let total: u64 = self.received as u64 + self.lost as u64;
        assert(percent as u64 * total <= 255 * total) by (nonlinear_arith)
            requires
                percent <= 255,
        ;
        100 * self.lost as u64 >= percent as u64 * total
    }

    pub fn loss_exceeds(&self, percent: u8) -> (r: bool)
        ensures
            r == self.spec_loss_exceeds(percent as int),
    {
        let total: u64 = self.received as u64 + self.lost as u64;
        assert(percent as u64 * total <= 255 * total) by (nonlinear_arith)
            requires
                percent <= 255,
        ;
        100 * self.lost as u64 > percent as u64 * total
    }
}

/// Everything that travels as a sealed control frame.
#[derive(Debug, Clone, PartialEq, Eq)]
pub enum ControlMessage {
    /// Sharer to forwarder: relay my sealed video frames to `viewers`.
    ForwarderAssign { viewers: Vec<IdentityId> },
    /// Sharer to forwarder: stand down.
    ForwarderRevoke,
    /// Forwarder to sharer: assignment received, relay running.
    ForwarderAck,
    /// Viewer to sharer: reception report for the sharer's stream.
    Feedback(FeedbackReport),
    /// Forwarder to sharer: a relay lane awaits a keyframe that the cache could
    /// not serve.
    KeyframeRequest,
}

#[verifier::ext_equal]
pub ghost enum ControlView {
    ForwarderAssign { viewers: Seq<Seq<u8>> },
    ForwarderRevoke,
    ForwarderAck,
    Feedback(FeedbackReport),
    KeyframeRequest,
}

pub open spec fn id_views(ids: Seq<IdentityId>) -> Seq<Seq<u8>> {
    ids.map_values(|id: IdentityId| id@)
}

impl View for ControlMessage {
    type V = ControlView;

    open spec fn view(&self) -> ControlView {
        match self {
            ControlMessage::ForwarderAssign { viewers } => ControlView::ForwarderAssign {
                viewers: id_views(viewers@),
            },
            ControlMessage::ForwarderRevoke => ControlView::ForwarderRevoke,
            ControlMessage::ForwarderAck => ControlView::ForwarderAck,
            ControlMessage::Feedback(report) => ControlView::Feedback(*report),
            ControlMessage::KeyframeRequest => ControlView::KeyframeRequest,
        }
    }
}

pub const CONTROL_VERSION: u8 = 1;

pub const TAG_ASSIGN: u8 = 1;

pub const TAG_REVOKE: u8 = 2;

pub const TAG_ACK: u8 = 3;

pub const TAG_FEEDBACK: u8 = 4;

pub const TAG_KEYFRAME_REQUEST: u8 = 5;

/// The mesh cap bounds any honest viewer list; anything bigger is hostile or
/// corrupt.
pub const MAX_VIEWERS: usize = 16;

/// The ids one after the other.
pub open spec fn joined(ids: Seq<Seq<u8>>) -> Seq<u8>
    decreases ids.len(),
{
    if ids.len() == 0 {
        seq![]
    } else {
        joined(ids.drop_last()) + ids.last()
    }
}

/// The ids that stand one after the other, 32 bytes each.
pub open spec fn split_ids(s: Seq<u8>) -> Seq<Seq<u8>> {
    Seq::new(s.len() / 32, |i: int| s.subrange(32 * i, 32 * i + 32))
}

/// At most as many viewers as a message carries.
pub open spec fn carried(viewers: Seq<Seq<u8>>) -> Seq<Seq<u8>> {
    if viewers.len() <= MAX_VIEWERS {
        viewers
    } else {
        viewers.take(MAX_VIEWERS as int)
    }
}

/// A control message on the wire.
pub open spec fn control_wire(m: ControlView) -> Seq<u8> {
    match m {
        ControlView::ForwarderAssign { viewers } => seq![
            CONTROL_VERSION,
            TAG_ASSIGN,
            carried(viewers).len() as u8,
        ] + joined(carried(viewers)),
        ControlView::ForwarderRevoke => seq![CONTROL_VERSION, TAG_REVOKE],
        ControlView::ForwarderAck => seq![CONTROL_VERSION, TAG_ACK],
        ControlView::Feedback(report) => seq![CONTROL_VERSION, TAG_FEEDBACK] + big_endian(
            report.received as nat,
            4,
        ) + big_endian(report.lost as nat, 4),
        ControlView::KeyframeRequest => seq![CONTROL_VERSION, TAG_KEYFRAME_REQUEST],
    }
}

/// The control message that some bytes are, if any. Versions and tags that are
/// not known mean nothing.
pub open spec fn control_meaning(s: Seq<u8>) -> Option<ControlView> {
    if s.len() < 2 || s[0] != CONTROL_VERSION {
        None
    } else if s[1] == TAG_ASSIGN {
        if s.len() < 3 || s[2] > MAX_VIEWERS || s.len() - 3 != s[2] * 32 {
            None
        } else {
            Some(ControlView::ForwarderAssign { viewers: split_ids(s.skip(3)) })
        }
    } else if s[1] == TAG_REVOKE && s.len() == 2 {
        Some(ControlView::ForwarderRevoke)
    } else if s[1] == TAG_ACK && s.len() == 2 {
        Some(ControlView::ForwarderAck)
    } else if s[1] == TAG_FEEDBACK && s.len() == 10 {
        Some(
            ControlView::Feedback(
                FeedbackReport {
                    received: big_endian_value(s.subrange(2, 6)) as u32,
                    lost: big_endian_value(s.subrange(6, 10)) as u32,
                },
            ),
        )
    } else if s[1] == TAG_KEYFRAME_REQUEST && s.len() == 2 {
        Some(ControlView::KeyframeRequest)
    } else {
        None
    }
}

pub open spec fn are_ids(ids: Seq<Seq<u8>>) -> bool {
    forall|i: int| 0 <= i < ids.len() ==> (#[trigger] ids[i]).len() == 32
}

proof fn lemma_joined(ids: Seq<Seq<u8>>)
    requires
        are_ids(ids),
    ensures
        joined(ids).len() == 32 * ids.len(),
        split_ids(joined(ids)) == ids,
    decreases ids.len(),
{
    if ids.len() > 0 {
        let front = ids.drop_last();
        assert(are_ids(front));
        lemma_joined(front);
        let s = joined(ids);
        assert forall|i: int| 0 <= i < ids.len() implies s.subrange(32 * i, 32 * i + 32)
            == #[trigger] ids[i] by {
            if i < front.len() {
                assert(front[i] == split_ids(joined(front))[i]);
                assert(s.subrange(32 * i, 32 * i + 32) =~= joined(front).subrange(
                    32 * i,
                    32 * i + 32,
                ));
            } else {
                assert(s.subrange(32 * i, 32 * i + 32) =~= ids.last());
            }
        }
    }
    assert(split_ids(joined(ids)) =~= ids);
}

/// What is encoded is what is decoded, but for the viewers beyond those that a
/// message carries.
pub proof fn law_control_messages_survive_the_wire(m: ControlView)
    requires
        m matches ControlView::ForwarderAssign { viewers } ==> are_ids(viewers),
    ensures
        control_meaning(control_wire(m)) == Some(
            match m {
                ControlView::ForwarderAssign { viewers } => ControlView::ForwarderAssign {
                    viewers: carried(viewers),
                },
                _ => m,
            },
        ),
{
    let s = control_wire(m);
    match m {
        ControlView::ForwarderAssign { viewers } => {
            let ids = carried(viewers);
            assert(are_ids(ids));
            lemma_joined(ids);
            assert(s.skip(3) =~= joined(ids));
        },
        ControlView::Feedback(report) => {
            lemma_lens(report.received as nat, 4);
            lemma_lens(report.lost as nat, 4);
            lemma_pow256_values();
            lemma_big_endian_reads_back(report.received as nat, 4);
            lemma_big_endian_reads_back(report.lost as nat, 4);
            assert(s.subrange(2, 6) =~= big_endian(report.received as nat, 4));
            assert(s.subrange(6, 10) =~= big_endian(report.lost as nat, 4));
        },
        _ => {},
    }
}

proof fn lemma_split_ids(s: Seq<u8>)
    requires
        s.len() % 32 == 0,
    ensures
        are_ids(split_ids(s)),
        joined(split_ids(s)) == s,
    decreases s.len(),
{
    let ids = split_ids(s);
    if s.len() > 0 {
        let front = s.take(s.len() - 32);
        lemma_split_ids(front);
        assert forall|i: int| 0 <= i < ids.len() - 1 implies #[trigger] ids[i] == split_ids(front)[i] by {
            assert(s.subrange(32 * i, 32 * i + 32) =~= front.subrange(32 * i, 32 * i + 32));
        }
        assert(ids.drop_last() =~= split_ids(front));
        assert(front + ids.last() =~= s);
    } else {
        assert(joined(ids) =~= s);
    }
}

/// What is decoded is written again as it was read: a message has one form on
/// the wire.
pub proof fn law_a_control_message_has_one_form(s: Seq<u8>, m: ControlView)
    requires
        control_meaning(s) == Some(m),
    ensures
        control_wire(m) == s,
{
    match m {
        ControlView::ForwarderAssign { viewers } => {
            let ids = s.skip(3);
            lemma_split_ids(ids);
            assert(viewers == split_ids(ids));
            assert(viewers.len() == s[2]);
            assert(carried(viewers) == viewers);
            assert(control_wire(m) =~= s);
        },
        ControlView::Feedback(_) => {
            let (received, lost) = (s.subrange(2, 6), s.subrange(6, 10));
            lemma_pow256_values();
            lemma_big_endian_writes_back(received);
            lemma_big_endian_writes_back(lost);
            assert(control_wire(m) =~= s);
        },
        _ => {
            assert(control_wire(m) =~= s);
        },
    }
}

/// A message is far below what a frame takes.
proof fn lemma_wire_is_short(m: ControlMessage)
    ensures
        control_wire(m@).len() <= 515,
{
    match m {
        ControlMessage::ForwarderAssign { viewers } => {
            let ids = id_views(viewers@);
            assert forall|i: int| 0 <= i < ids.len() implies (#[trigger] ids[i]).len() == 32 by {
                IdentityId::lemma_view_injective(viewers@[i], viewers@[i]);
            }
            assert(are_ids(carried(ids)));
            lemma_joined(carried(ids));
        },
        ControlMessage::Feedback(report) => {
            lemma_lens(report.received as nat, 4);
            lemma_lens(report.lost as nat, 4);
        },
        _ => {},
    }
}

fn put_viewers(out: &mut Vec<u8>, viewers: &Vec<IdentityId>, n: usize)
    requires
        n <= viewers@.len(),
    ensures
        final(out)@ == old(out)@ + joined(id_views(viewers@).take(n as int)),
{
    let ghost ids = id_views(viewers@);
    let mut i: usize = 0;
    assert(ids.take(0) =~= Seq::<Seq<u8>>::empty());
    assert(out@ =~= old(out)@ + joined(ids.take(0)));
    while i < n
        invariant
            i <= n <= viewers@.len(),
            ids == id_views(viewers@),
            out@ == old(out)@ + joined(ids.take(i as int)),
        decreases n - i,
    {
        let ghost before = out@;
        append_bytes(out, viewers[i].as_bytes());
        proof {
            assert(ids.take(i + 1).drop_last() =~= ids.take(i as int));
            assert(ids.take(i + 1).last() == viewers@[i as int]@);
            assert(out@ =~= old(out)@ + joined(ids.take(i + 1)));
        }
        i = i + 1;
    }
}

fn take_viewers(bytes: &[u8], count: usize) -> (r: Vec<IdentityId>)
    requires
        bytes@.len() == count * 32,
        count <= MAX_VIEWERS,
    ensures
        id_views(r@) == split_ids(bytes@),
{
    let mut r: Vec<IdentityId> = Vec::new();
    let mut i: usize = 0;
    while i < count
        invariant
            i <= count <= MAX_VIEWERS,
            bytes@.len() == count * 32,
            r@.len() == i,
            forall|j: int|
                0 <= j < i ==> (#[trigger] r@[j])@ == bytes@.subrange(32 * j, 32 * j + 32),
        decreases count - i,
    {
        let chunk: Vec<u8> = bytes_between(bytes, 32 * i, 32 * i + 32);
        if let Some(id) = array_of::<32>(&chunk) {
            r.push(IdentityId::from_bytes(id));
        }
        i = i + 1;
    }
    assert(id_views(r@) =~= split_ids(bytes@));
    r
}

impl ControlMessage {
    pub fn encode(&self) -> (r: Vec<u8>)
        ensures
            r@ == control_wire(self@),
    {
        let mut out: Vec<u8> = Vec::new();
        out.push(CONTROL_VERSION);
        match self {
            ControlMessage::ForwarderAssign { viewers } => {
                let n: usize = if viewers.len() <= MAX_VIEWERS {
                    viewers.len()
                } else {
                    MAX_VIEWERS
                };
                out.push(TAG_ASSIGN);
                out.push(n as u8);
                put_viewers(&mut out, viewers, n);
                proof {
                    let ids = id_views(viewers@);
                    assert(carried(ids) =~= ids.take(n as int));
                }
            },
            ControlMessage::ForwarderRevoke => out.push(TAG_REVOKE),
            ControlMessage::ForwarderAck => out.push(TAG_ACK),
            ControlMessage::Feedback(report) => {
                out.push(TAG_FEEDBACK);
                push_big_endian(&mut out, report.received as u64, 4);
                push_big_endian(&mut out, report.lost as u64, 4);
            },
            ControlMessage::KeyframeRequest => out.push(TAG_KEYFRAME_REQUEST),
        }
        assert(out@ =~= control_wire(self@));
        out
    }

    /// Decodes a control payload that was authenticated already. Unknown
    /// versions and tags give nothing: a newer peer's message is ignored.
    pub fn decode(payload: &[u8]) -> (r: Option<ControlMessage>)
        ensures
            match r {
                Some(m) => control_meaning(payload@) == Some(m@),
                None => control_meaning(payload@) is None,
            },
    {
        let n: usize = payload.len();
        if n < 2 || payload[0] != CONTROL_VERSION {
            return None;
        }
        let tag: u8 = payload[1];
        if tag == TAG_ASSIGN {
            if n < 3 {
                return None;
            }
            let count: usize = payload[2] as usize;
            if count > MAX_VIEWERS || n - 3 != count * 32 {
                return None;
            }
            let ids: Vec<u8> = bytes_between(payload, 3, n);
            assert(ids@ =~= payload@.skip(3));
            let viewers: Vec<IdentityId> = take_viewers(&ids, count);
            Some(ControlMessage::ForwarderAssign { viewers })
        } else if tag == TAG_REVOKE && n == 2 {
            Some(ControlMessage::ForwarderRevoke)
        } else if tag == TAG_ACK && n == 2 {
            Some(ControlMessage::ForwarderAck)
        } else if tag == TAG_FEEDBACK && n == 10 {
            proof {
                lemma_pow256_values();
            }
            let received: u64 = read_big_endian(payload, 2, 4);
            let lost: u64 = read_big_endian(payload, 6, 4);
            Some(
                ControlMessage::Feedback(
                    FeedbackReport { received: received as u32, lost: lost as u32 },
                ),
            )
        } else if tag == TAG_KEYFRAME_REQUEST && n == 2 {
            Some(ControlMessage::KeyframeRequest)
        } else {
            None
        }
    }
}

/// What the sender of a control message does next.
#[derive(Debug, Clone, Copy, PartialEq, Eq, Structural)]
pub enum ControlStep {
    /// Open a lane to the peer.
    Open,
    /// Send on the lane.
    Send,
    Delivered,
    /// The peer cannot be reached right now.
    Unreachable,
}

#[verifier::ext_equal]
pub ghost struct ControlPlaneView {
    pub key: Seq<u8>,
    pub ssrc: u32,
    pub counter: u64,
    pub lanes: Set<IdentityId>,
}

/// The header of the control frame with a given counter.
pub open spec fn control_header(ssrc: u32, counter: u64) -> FrameHeader {
    FrameHeader { counter, ts: 0, ssrc, kind: MediaKind::Control, flags: 0 }
}

/// Seals control messages and keeps track of the lanes that are open to peers.
/// One counter serves all lanes: a sender has one control ssrc, so a counter
/// per lane would reuse nonces.
pub struct ControlPlane {
    key: CallKey,
    ssrc: u32,
    counter: u64,
    lanes: SortedSet<IdentityId>,
}

/// A control message on its way to a peer.
#[derive(Debug)]
pub struct Delivery {
    to: IdentityId,
    left: u8,
}

impl View for Delivery {
    type V = (IdentityId, int);

    closed spec fn view(&self) -> (IdentityId, int) {
        (self.to, self.left as int)
    }
}

impl View for ControlPlane {
    type V = ControlPlaneView;

    closed spec fn view(&self) -> ControlPlaneView {
        ControlPlaneView {
            key: self.key@,
            ssrc: self.ssrc,
            counter: self.counter,
            lanes: self.lanes@,
        }
    }
}

impl ControlPlane {
    pub closed spec fn wf(&self) -> bool {
        self.lanes.wf()
    }

    pub fn new(key: CallKey, local: &IdentityId) -> (r: Self)
        ensures
            r.wf(),
            r@ == (ControlPlaneView {
                key: key@,
                ssrc: base_ssrc(local@) ^ 0xA5C3_17E9u32,
                counter: 0,
                lanes: Set::empty(),
            }),
    {
        ControlPlane { key, ssrc: control_ssrc_of(local), counter: 0, lanes: SortedSet::new() }
    }

    /// Seals the message under the next counter. The counter moves on whatever
    /// becomes of the message.
    pub fn seal_next(&mut self, message: &ControlMessage) -> (r: Option<Vec<u8>>)
        requires
            old(self).wf(),
        ensures
            final(self).wf(),
            final(self)@ == (ControlPlaneView {
                counter: old(self)@.counter.wrapping_add(1),
                ..old(self)@
            }),
            r is Some,
            r->0@ == sealed_frame(
                old(self)@.key,
                control_header(old(self)@.ssrc, old(self)@.counter),
                control_wire(message@),
            ),
            opened_frame(old(self)@.key, r->0@) == Ok::<(FrameHeader, Seq<u8>), FrameError>(
                (control_header(old(self)@.ssrc, old(self)@.counter), control_wire(message@)),
            ),
    {
        let payload: Vec<u8> = message.encode();
        proof {
            lemma_wire_is_short(*message);
        }
        let header = FrameHeader {
            counter: self.counter,
            ts: 0,
            ssrc: self.ssrc,
            kind: MediaKind::Control,
            flags: 0,
        };
        self.counter = self.counter.wrapping_add(1);
        match seal(&self.key, header, &payload) {
            Ok(sealed) => Some(sealed),
            Err(_) => None,
        }
    }

    /// Starts a delivery: on the lane to the peer if one is open.
    pub fn start(&self, to: IdentityId) -> (r: (Delivery, ControlStep))
        requires
            self.wf(),
        ensures
            r.0@ == (to, 2int),
            r.1 == (if self@.lanes.contains(to) {
                ControlStep::Send
            } else {
                ControlStep::Open
            }),
    {
        let step = if self.lanes.contains(&to) {
            ControlStep::Send
        } else {
            ControlStep::Open
        };
        (Delivery { to, left: 2 }, step)
    }

    /// A lane was opened, or not: an unopened lane ends the delivery.
    pub fn opened(&mut self, delivery: &Delivery, ok: bool) -> (r: ControlStep)
        requires
            old(self).wf(),
        ensures
            final(self).wf(),
            final(self)@ == (ControlPlaneView {
                lanes: if ok {
                    old(self)@.lanes.insert(delivery@.0)
                } else {
                    old(self)@.lanes
                },
                ..old(self)@
            }),
            r == (if ok {
                ControlStep::Send
            } else {
                ControlStep::Unreachable
            }),
    {
        if ok {
            self.lanes.insert(delivery.to);
            ControlStep::Send
        } else {
            ControlStep::Unreachable
        }
    }

    /// The message was sent, or the lane is stale: a stale lane is dropped and a
    /// fresh one tried once.
    pub fn sent(&mut self, delivery: &mut Delivery, ok: bool) -> (r: ControlStep)
        requires
            old(self).wf(),
            old(delivery)@.1 > 0,
        ensures
            final(self).wf(),
            final(self)@ == (ControlPlaneView {
                lanes: if ok {
                    old(self)@.lanes
                } else {
                    old(self)@.lanes.remove(old(delivery)@.0)
                },
                ..old(self)@
            }),
            final(delivery)@ == (
                old(delivery)@.0,
                if ok {
                    old(delivery)@.1
                } else {
                    old(delivery)@.1 - 1
                },
            ),
            r == (if ok {
                ControlStep::Delivered
            } else if old(delivery)@.1 == 1 {
                ControlStep::Unreachable
            } else {
                ControlStep::Open
            }),
    {
        if ok {
            return ControlStep::Delivered;
        }
        let _ = self.lanes.remove(&delivery.to);
        delivery.left = delivery.left - 1;
        if delivery.left == 0 {
            ControlStep::Unreachable
        } else {
            ControlStep::Open
        }
    }
}

/// Loss, in percent, that triggers a step down.
pub const LOSS_STEP_DOWN: u8 = 5;

/// Loss, in percent, still considered clean.
pub const LOSS_CLEAN: u8 = 1;

/// Minimum spacing between downward steps.
pub const STEP_DOWN_COOLDOWN_MS: u64 = 4_000;

/// Clean time required before an upward step, also its cooldown.
pub const STEP_UP_AFTER_CLEAN_MS: u64 = 10_000;

pub ghost struct BitrateView {
    pub target: u32,
    pub floor: u32,
    pub ceiling: u32,
    pub last_step_ms: Option<u64>,
    pub last_unclean_ms: u64,
}

/// The time since `at`; a clock that went back has not moved.
pub open spec fn elapsed(now: u64, at: u64) -> int {
    if now >= at {
        now - at
    } else {
        0
    }
}

impl BitrateView {
    /// The target stays between the floor and the ceiling.
    pub open spec fn in_band(self) -> bool {
        self.floor <= self.target <= self.ceiling
    }

    pub open spec fn stepped_within(self, now: u64, window: u64) -> bool {
        self.last_step_ms matches Some(at) && elapsed(now, at) < window
    }

    /// Seven tenths of the target, but not below the floor.
    pub open spec fn lowered(self) -> u32 {
        let t = self.target as int * 7 / 10;
        if t >= self.floor {
            t as u32
        } else {
            self.floor
        }
    }

    /// Five quarters of the target, but not above the ceiling.
    pub open spec fn raised(self) -> u32 {
        let t = self.target as int * 5 / 4;
        if t <= self.ceiling {
            t as u32
        } else {
            self.ceiling
        }
    }

    /// Where a report moves the target to, if it does.
    pub open spec fn moved(self, now: u64, report: FeedbackReport) -> Option<u32> {
        if report.spec_total() == 0 {
            None
        } else if report.spec_loss_reaches(LOSS_STEP_DOWN as int) {
            if self.target > self.floor && !self.stepped_within(now, STEP_DOWN_COOLDOWN_MS) {
                Some(self.lowered())
            } else {
                None
            }
        } else if self.raised() > self.target && elapsed(now, self.unclean_at(now, report))
            >= STEP_UP_AFTER_CLEAN_MS && !self.stepped_within(now, STEP_UP_AFTER_CLEAN_MS) {
            Some(self.raised())
        } else {
            None
        }
    }

    /// When loss was last seen, the report included.
    pub open spec fn unclean_at(self, now: u64, report: FeedbackReport) -> u64 {
        if report.spec_total() != 0 && report.spec_loss_exceeds(LOSS_CLEAN as int) {
            now
        } else {
            self.last_unclean_ms
        }
    }
}

/// The controller after a report.
pub open spec fn after_report(v: BitrateView, now: u64, report: FeedbackReport) -> BitrateView {
    let v1 = BitrateView { last_unclean_ms: v.unclean_at(now, report), ..v };
    match v.moved(now, report) {
        Some(t) => BitrateView { target: t, last_step_ms: Some(now), ..v1 },
        None => v1,
    }
}

/// No report takes the target out of the band between floor and ceiling.
pub proof fn law_target_stays_in_band(v: BitrateView, now: u64, report: FeedbackReport)
    requires
        v.in_band(),
    ensures
        after_report(v, now, report).in_band(),
        after_report(v, now, report).floor == v.floor,
        after_report(v, now, report).ceiling == v.ceiling,
{
}

/// A report of loss never raises the target, and any other never lowers it.
pub proof fn law_loss_alone_lowers_the_target(v: BitrateView, now: u64, report: FeedbackReport)
    requires
        v.in_band(),
    ensures
        report.spec_total() > 0 && report.spec_loss_reaches(LOSS_STEP_DOWN as int) ==> after_report(
            v,
            now,
            report,
        ).target <= v.target,
        !report.spec_loss_reaches(LOSS_STEP_DOWN as int) ==> after_report(v, now, report).target
            >= v.target,
{
}

/// An empty window is silence, not loss: it changes nothing.
pub proof fn law_empty_window_changes_nothing(v: BitrateView, now: u64)
    ensures
        after_report(v, now, FeedbackReport { received: 0, lost: 0 }) == v,
{
}

/// The worst viewer governs: after a report of unclean loss no report raises
/// the target until the clean time has passed.
pub proof fn law_unclean_report_holds_the_target_down(
    v: BitrateView,
    at: u64,
    bad: FeedbackReport,
    now: u64,
    report: FeedbackReport,
)
    requires
        v.in_band(),
        bad.spec_total() > 0,
        bad.spec_loss_exceeds(LOSS_CLEAN as int),
        at <= now < at + STEP_UP_AFTER_CLEAN_MS,
    ensures
        after_report(after_report(v, at, bad), now, report).target <= after_report(
            v,
            at,
            bad,
        ).target,
{
}

/// Two downward steps are never closer than the cooldown.
pub proof fn law_steps_down_keep_their_distance(
    v: BitrateView,
    at: u64,
    first: FeedbackReport,
    now: u64,
    second: FeedbackReport,
)
    requires
        v.in_band(),
        v.moved(at, first) is Some,
        at <= now < at + STEP_DOWN_COOLDOWN_MS,
    ensures
        after_report(v, at, first).moved(now, second) is None,
{
}

/// Loss-based adaptation of the single encode, the sharer's side of the
/// feedback loop. A report with a loss of at least [`LOSS_STEP_DOWN`] lowers the
/// target to seven tenths, at most once per [`STEP_DOWN_COOLDOWN_MS`], never
/// below the floor. The target rises to five quarters only after
/// [`STEP_UP_AFTER_CLEAN_MS`] with every report at most [`LOSS_CLEAN`], never
/// above the ceiling.
#[derive(Debug, Clone)]
pub struct BitrateController {
    target: u32,
    floor: u32,
    ceiling: u32,
    /// `None` until the first step: a fresh controller reacts to the very first
    /// lossy report.
    last_step_ms: Option<u64>,
    last_unclean_ms: u64,
}

impl View for BitrateController {
    type V = BitrateView;

    closed spec fn view(&self) -> BitrateView {
        BitrateView {
            target: self.target,
            floor: self.floor,
            ceiling: self.ceiling,
            last_step_ms: self.last_step_ms,
            last_unclean_ms: self.last_unclean_ms,
        }
    }
}

impl BitrateController {
    pub open spec fn wf(&self) -> bool {
        self@.in_band()
    }

    pub fn new(start: u32, floor: u32, ceiling: u32) -> (r: Self)
        ensures
            r.wf(),
            r@.ceiling == ceiling,
            r@.floor == (if floor <= ceiling {
                floor
            } else {
                ceiling
            }),
            r@.target == (if start < r@.floor {
                r@.floor
            } else if start > ceiling {
                ceiling
            } else {
                start
            }),
            r@.last_step_ms is None,
            r@.last_unclean_ms == 0,
    {
        let floor: u32 = if floor <= ceiling { floor } else { ceiling };
        let target: u32 = if start < floor {
            floor
        } else if start > ceiling {
            ceiling
        } else {
            start
        };
        BitrateController { target, floor, ceiling, last_step_ms: None, last_unclean_ms: 0 }
    }

    fn stepped_within(&self, now_ms: u64, window_ms: u64) -> (r: bool)
        ensures
            r == self@.stepped_within(now_ms, window_ms),
    {
        match self.last_step_ms {
            Some(at) => now_ms.saturating_sub(at) < window_ms,
            None => false,
        }
    }

    pub fn target(&self) -> (r: u32)
        ensures
            r == self@.target,
    {
        self.target
    }

    /// Feeds one viewer report. Gives the new target if, and only if, it moved.
    pub fn on_report(&mut self, now_ms: u64, report: &FeedbackReport) -> (r: Option<u32>)
        requires
            old(self).wf(),
        ensures
            final(self).wf(),
            final(self)@ == after_report(old(self)@, now_ms, *report),
            r == old(self)@.moved(now_ms, *report),
            r is Some <==> final(self)@.target != old(self)@.target,
            r matches Some(t) ==> t == final(self)@.target,
    {
        if report.received == 0 && report.lost == 0 {
            return None;
        }
        if report.loss_exceeds(LOSS_CLEAN) {
            self.last_unclean_ms = now_ms;
        }
        if report.loss_reaches(LOSS_STEP_DOWN) {
            if self.target > self.floor && !self.stepped_within(now_ms, STEP_DOWN_COOLDOWN_MS) {
                let lowered: u32 = (self.target as u64 * 7 / 10) as u32;
                self.target = if lowered >= self.floor { lowered } else { self.floor };
                self.last_step_ms = Some(now_ms);
                return Some(self.target);
            }
            return None;
        }
        if self.target < self.ceiling && now_ms.saturating_sub(self.last_unclean_ms)
            >= STEP_UP_AFTER_CLEAN_MS && !self.stepped_within(now_ms, STEP_UP_AFTER_CLEAN_MS) {
            let raised: u64 = self.target as u64 * 5 / 4;
            let raised: u32 = if raised <= self.ceiling as u64 {
                raised as u32
            } else {
                self.ceiling
            };
            // A target of a few bits rounds back to itself: that is no step.
            if raised == self.target {
                return None;
            }
            self.target = raised;
            self.last_step_ms = Some(now_ms);
            return Some(self.target);
        }
        None
    }
}

/// Heavy loss is answered: a report of at least five in a hundred lost lowers the target
/// by three tenths, or to the floor, unless it is there already or moved within the last
/// four seconds.
pub proof fn law_heavy_loss_is_answered(v: BitrateView, now: u64, report: FeedbackReport)
    requires
        v.in_band(),
        report.received + report.lost > 0,
        100 * report.lost >= 5 * (report.received + report.lost),
        v.target > v.floor,
        v.last_step_ms matches Some(at) ==> now >= at + 4000,
    ensures
        ({
            let after = after_report(v, now, report);
            let asked = v.target as int * 7 / 10;
            &&& asked >= v.floor ==> after.target == asked
            &&& asked < v.floor ==> after.target == v.floor
            &&& after.target < v.target
            &&& after.last_step_ms == Some(now)
            &&& after.last_unclean_ms == now
        }),
{
}

/// Calm is answered too: with at most one in a hundred lost, ten seconds after the last
/// loss and the last step, the target rises by a quarter, or to the ceiling, unless it is
/// there already or the quarter is less than one.
pub proof fn law_calm_is_answered(v: BitrateView, now: u64, report: FeedbackReport)
    requires
        v.in_band(),
        report.received + report.lost > 0,
        100 * report.lost <= report.received + report.lost,
        v.target < v.ceiling,
        v.target >= 4,
        now >= v.last_unclean_ms + 10_000,
        v.last_step_ms matches Some(at) ==> now >= at + 10_000,
    ensures
        ({
            let after = after_report(v, now, report);
            let asked = v.target as int * 5 / 4;
            &&& asked <= v.ceiling ==> after.target == asked
            &&& asked > v.ceiling ==> after.target == v.ceiling
            &&& after.target > v.target
            &&& after.last_step_ms == Some(now)
            &&& after.last_unclean_ms == v.last_unclean_ms
        }),
{
}

/// Nothing else moves the target: mild loss, a step too soon, or a clean time too short.
pub proof fn law_the_target_holds_otherwise(v: BitrateView, now: u64, report: FeedbackReport)
    requires
        v.in_band(),
        report.received + report.lost > 0,
        100 * report.lost < 5 * (report.received + report.lost),
        100 * report.lost > report.received + report.lost || now < v.last_unclean_ms + 10_000 || (
        v.last_step_ms matches Some(at) && now < at + 10_000),
    ensures
        after_report(v, now, report).target == v.target,
        after_report(v, now, report).last_step_ms == v.last_step_ms,
        100 * report.lost > report.received + report.lost ==> after_report(
            v,
            now,
            report,
        ).last_unclean_ms == now,
        100 * report.lost <= report.received + report.lost ==> after_report(
            v,
            now,
            report,
        ).last_unclean_ms == v.last_unclean_ms,
{
}

/// A control frame is marked as such, under its counter and its sender's stream.
pub proof fn law_control_frames_are_marked(ssrc: u32, counter: u64)
    ensures
        control_header(ssrc, counter).kind == MediaKind::Control,
        control_header(ssrc, counter).counter == counter,
        control_header(ssrc, counter).ssrc == ssrc,
        control_header(ssrc, counter).flags == 0,
{
}

/// What a control message looks like: its version, its tag, and what it carries.
pub proof fn law_control_messages_have_their_form(report: FeedbackReport, viewers: Seq<Seq<u8>>)
    ensures
        control_wire(ControlView::ForwarderRevoke) == seq![1u8, 2u8],
        control_wire(ControlView::ForwarderAck) == seq![1u8, 3u8],
        control_wire(ControlView::KeyframeRequest) == seq![1u8, 5u8],
        control_wire(ControlView::Feedback(report)) == seq![1u8, 4u8] + big_endian(
            report.received as nat,
            4,
        ) + big_endian(report.lost as nat, 4),
        viewers.len() <= 16 ==> control_wire(ControlView::ForwarderAssign { viewers }).take(3)
            == seq![1u8, 1u8, viewers.len() as u8],
        viewers.len() > 16 ==> control_wire(ControlView::ForwarderAssign { viewers }).take(3)
            == seq![1u8, 1u8, 16u8],
{
    let s = control_wire(ControlView::ForwarderAssign { viewers });
    assert(s.take(3) =~= seq![1u8, 1u8, carried(viewers).len() as u8]);
}

/// Every identity of a list is named, in order, by its bytes.
pub proof fn law_every_viewer_is_named(list: Seq<IdentityId>, i: int)
    ensures
        id_views(list).len() == list.len(),
        0 <= i < list.len() ==> id_views(list)[i] == list[i]@,
{
}

} // verus!

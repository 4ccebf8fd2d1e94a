//! The voice pipeline: source, codec, sealed frames; and on the way in, a
//! reorder buffer and a decoder per sender, so that one peer's loss never
//! disturbs another's stream.

use vstd::prelude::*;

use crate::bytes::{little_endian, push_little_endian};
use crate::media::frame::{
    open, opened_frame, seal, sealable, sealed_frame, CallKey, FrameError, FrameHeader, MediaKind,
};
use crate::media::jitter::{
    after_pop, after_push, next_slot, JitterBuffer, JitterView, Popped, PoppedView,
};
use crate::media::pcm::FRAME_SAMPLES;
use crate::media::stream::opened_view;
use crate::media::video::counted;
use crate::shared::IdentityId;
use crate::sorted::{copy_keys, SortedMap};

verus! {

pub trait AudioSource: Send {
    /// The next 20 ms frame, or `None` when the stream ends.
    fn next_frame(&mut self) -> Option<Vec<i16>>;
}

pub trait AudioSink: Send {
    fn play(&mut self, pcm: &[i16]);
}

pub trait AudioCodec: Send {
    fn encode(&mut self, pcm: &[i16]) -> Vec<u8>;

    /// `None` is a lost packet: produce a concealment frame.
    fn decode(&mut self, packet: Option<&[u8]>) -> Vec<i16>;
}

/// A sample as the number that its two bytes hold.
pub open spec fn sample_bits(s: i16) -> nat {
    if s >= 0 {
        s as nat
    } else {
        (s + 0x1_0000) as nat
    }
}

/// The samples, two bytes each, the lower one first.
pub open spec fn pcm_bytes(pcm: Seq<i16>) -> Seq<u8>
    decreases pcm.len(),
{
    if pcm.len() == 0 {
        seq![]
    } else {
        pcm_bytes(pcm.drop_last()) + little_endian(sample_bits(pcm.last()), 2)
    }
}

/// The sample that two bytes hold.
pub open spec fn sample_of(low: u8, high: u8) -> i16 {
    let bits = low + 256 * high;
    if bits < 0x8000 {
        bits as i16
    } else {
        (bits - 0x1_0000) as i16
    }
}

/// The samples that bytes hold; an odd last byte is no sample.
pub open spec fn pcm_of(bytes: Seq<u8>) -> Seq<i16> {
    Seq::new(bytes.len() / 2, |i: int| sample_of(bytes[2 * i], bytes[2 * i + 1]))
}

proof fn lemma_sample_bytes(s: i16)
    ensures
        little_endian(sample_bits(s), 2).len() == 2,
        sample_of(little_endian(sample_bits(s), 2)[0], little_endian(sample_bits(s), 2)[1]) == s,
{
    reveal_with_fuel(little_endian, 3);
    let b = sample_bits(s);
    assert(little_endian(b, 2) =~= seq![(b % 256) as u8, (b / 256 % 256) as u8]);
}

/// Uncompressed samples come back as they went in.
pub proof fn law_pcm_reads_back(pcm: Seq<i16>)
    ensures
        pcm_of(pcm_bytes(pcm)) == pcm,
        pcm_bytes(pcm).len() == 2 * pcm.len(),
    decreases pcm.len(),
{
    if pcm.len() > 0 {
        let front = pcm.drop_last();
        law_pcm_reads_back(front);
        lemma_sample_bytes(pcm.last());
        let bytes = pcm_bytes(pcm);
        assert forall|i: int| 0 <= i < pcm.len() implies sample_of(bytes[2 * i], bytes[2 * i + 1])
            == #[trigger] pcm[i] by {
            if i < front.len() {
                assert(pcm_of(pcm_bytes(front))[i] == front[i]);
            }
        }
    }
    assert(pcm_of(pcm_bytes(pcm)) =~= pcm);
}

/// Silence for the length of a frame.
pub open spec fn silence() -> Seq<i16> {
    Seq::new(FRAME_SAMPLES as nat, |i: int| 0i16)
}

/// Uncompressed codec. Concealment is silence.
#[derive(Debug)]
pub struct PcmCodec;

impl Default for PcmCodec {
    fn default() -> (r: Self) {
        PcmCodec
    }
}

impl AudioCodec for PcmCodec {
    fn encode(&mut self, pcm: &[i16]) -> (r: Vec<u8>)
        ensures
            r@ == pcm_bytes(pcm@),
    {
        let mut out: Vec<u8> = Vec::new();
        let mut i: usize = 0;
        assert(pcm@.take(0) =~= Seq::<i16>::empty());
        while i < pcm.len()
            invariant
                i <= pcm@.len(),
                out@ == pcm_bytes(pcm@.take(i as int)),
            decreases pcm@.len() - i,
        {
            let s: i16 = pcm[i];
            let bits: u64 = if s >= 0 { s as u64 } else { (s as i64 + 0x1_0000) as u64 };
            push_little_endian(&mut out, bits, 2);
            assert(pcm@.take(i + 1).drop_last() =~= pcm@.take(i as int));
            i = i + 1;
        }
        assert(pcm@.take(i as int) =~= pcm@);
        out
    }

    fn decode(&mut self, packet: Option<&[u8]>) -> (r: Vec<i16>)
        ensures
            r@ == (match packet {
                Some(bytes) => pcm_of(bytes@),
                None => silence(),
            }),
    {
        let mut out: Vec<i16> = Vec::new();
        let mut i: usize = 0;
        match packet {
            Some(bytes) => {
                let total: usize = bytes.len();
                let n: usize = total / 2;
                while i < n
                    invariant
                        total == bytes@.len(),
                        i <= n == total / 2,
                        out@ == pcm_of(bytes@).take(i as int),
                    decreases n - i,
                {
                    let bits: u32 = bytes[2 * i] as u32 + 256 * bytes[2 * i + 1] as u32;
                    let s: i16 = if bits < 0x8000 {
                        bits as i16
                    } else {
                        (bits as i32 - 0x1_0000) as i16
                    };
                    out.push(s);
                    assert(out@ =~= pcm_of(bytes@).take(i + 1));
                    i = i + 1;
                }
                assert(pcm_of(bytes@).take(i as int) =~= pcm_of(bytes@));
            },
            None => {
                while i < FRAME_SAMPLES
                    invariant
                        i <= FRAME_SAMPLES,
                        out@ == silence().take(i as int),
                    decreases FRAME_SAMPLES - i,
                {
                    out.push(0);
                    assert(out@ =~= silence().take(i + 1));
                    i = i + 1;
                }
                assert(silence().take(i as int) =~= silence());
            },
        }
        out
    }
}

/// Collects what was played.
#[derive(Debug)]
pub struct CollectSink {
    pub samples: Vec<i16>,
    pub concealed_frames: usize,
}

impl Default for CollectSink {
    fn default() -> (r: Self)
        ensures
            r.samples@ == Seq::<i16>::empty(),
            r.concealed_frames == 0,
    {
        CollectSink { samples: Vec::new(), concealed_frames: 0 }
    }
}

impl AudioSink for CollectSink {
    fn play(&mut self, pcm: &[i16])
        ensures
            final(self).samples@ == old(self).samples@ + pcm@,
            final(self).concealed_frames == old(self).concealed_frames,
    {
        let mut i: usize = 0;
        assert(old(self).samples@ + pcm@.take(0) =~= old(self).samples@);
        while i < pcm.len()
            invariant
                i <= pcm@.len(),
                self.samples@ == old(self).samples@ + pcm@.take(i as int),
                self.concealed_frames == old(self).concealed_frames,
            decreases pcm@.len() - i,
        {
            self.samples.push(pcm[i]);
            assert(self.samples@ =~= old(self).samples@ + pcm@.take(i + 1));
            i = i + 1;
        }
        assert(pcm@.take(i as int) =~= pcm@);
    }
}

#[verifier::ext_equal]
pub ghost struct SenderControlView {
    pub muted: bool,
    pub peers: Seq<IdentityId>,
    pub sent: u64,
}

/// Live controls of one outbound stream: the peers follow the roster, and mute
/// is a real switch that the sender consults on every frame.
#[derive(Debug)]
pub struct SenderControl {
    muted: bool,
    peers: Vec<IdentityId>,
    sent: u64,
}

impl View for SenderControl {
    type V = SenderControlView;

    closed spec fn view(&self) -> SenderControlView {
        SenderControlView { muted: self.muted, peers: self.peers@, sent: self.sent }
    }
}

impl SenderControl {
    pub fn new(peers: Vec<IdentityId>) -> (r: Self)
        ensures
            r@ == (SenderControlView { muted: false, peers: peers@, sent: 0 }),
    {
        SenderControl { muted: false, peers, sent: 0 }
    }

    /// Local mute: the stream stays alive and paced, but every frame is silence.
    pub fn set_muted(&mut self, muted: bool)
        ensures
            final(self)@ == (SenderControlView { muted, ..old(self)@ }),
    {
        self.muted = muted;
    }

    pub fn muted(&self) -> (r: bool)
        ensures
            r == self@.muted,
    {
        self.muted
    }

    /// Joins and leaves retarget the sender without restarting it.
    pub fn set_peers(&mut self, peers: Vec<IdentityId>)
        ensures
            final(self)@ == (SenderControlView { peers: peers@, ..old(self)@ }),
    {
        self.peers = peers;
    }

    pub fn peers(&self) -> (r: Vec<IdentityId>)
        ensures
            r@ == self@.peers,
    {
        copy_keys(&self.peers)
    }

    /// Frames sealed and sent so far.
    pub fn frames_sent(&self) -> (r: u64)
        ensures
            r == self@.sent,
    {
        self.sent
    }

    /// The samples that the encoder gets: zeroed before they reach it while the
    /// sender is muted.
    pub fn shape(&self, pcm: Vec<i16>) -> (r: Vec<i16>)
        ensures
            r@ == (if self@.muted {
                Seq::new(pcm@.len(), |i: int| 0i16)
            } else {
                pcm@
            }),
    {
        if !self.muted {
            return pcm;
        }
        let ghost n = pcm@.len();
        let mut pcm = pcm;
        let mut i: usize = 0;
        while i < pcm.len()
            invariant
                i <= pcm@.len() == n,
                forall|j: int| 0 <= j < i ==> #[trigger] pcm@[j] == 0,
            decreases pcm@.len() - i,
        {
            pcm.set(i, 0);
            i = i + 1;
        }
        assert(pcm@ =~= Seq::new(n, |i: int| 0i16));
        pcm
    }

    /// Seals an encoded packet as the next frame of the stream `ssrc`. The stream
    /// is paced by its counter, muted or not. A packet that no frame takes ends
    /// the stream.
    pub fn seal_packet(&mut self, key: &CallKey, ssrc: u32, packet: &[u8]) -> (r: Option<Vec<u8>>)
        requires
            old(self)@.sent < u64::MAX,
        ensures
            match r {
                Some(s) => {
                    &&& sealable(packet@.len())
                    &&& s@ == sealed_frame(key@, voice_header(old(self)@.sent, ssrc), packet@)
                    &&& opened_frame(key@, s@) == Ok::<(FrameHeader, Seq<u8>), FrameError>(
                        (voice_header(old(self)@.sent, ssrc), packet@),
                    )
                    &&& final(self)@ == (SenderControlView {
                        sent: (old(self)@.sent + 1) as u64,
                        ..old(self)@
                    })
                },
                None => !sealable(packet@.len()) && final(self)@ == old(self)@,
            },
    {
        let counter: u64 = self.sent;
        let header = FrameHeader {
            counter,
            ts: ((counter % 0x1_0000_0000) as u32).wrapping_mul(FRAME_SAMPLES as u32),
            ssrc,
            kind: MediaKind::Audio,
            flags: 0,
        };
        match seal(key, header, packet) {
            Ok(sealed) => {
                self.sent = counter + 1;
                Some(sealed)
            },
            Err(_) => None,
        }
    }
}

/// The header of voice frame `counter`: its time is that of its first sample.
pub open spec fn voice_header(counter: u64, ssrc: u32) -> FrameHeader {
    FrameHeader {
        counter,
        ts: ((counter % 0x1_0000_0000) * FRAME_SAMPLES % 0x1_0000_0000) as u32,
        ssrc,
        kind: MediaKind::Audio,
        flags: 0,
    }
}

#[derive(Debug, Clone, Copy, PartialEq, Eq, Structural)]
pub struct ReceiverStats {
    pub played: u64,
    pub concealed: u64,
    /// Frames that failed authentication.
    pub rejected: u64,
}

pub open spec fn nothing_heard() -> ReceiverStats {
    ReceiverStats { played: 0, concealed: 0, rejected: 0 }
}

impl Default for ReceiverStats {
    fn default() -> (r: Self)
        ensures
            r == nothing_heard(),
    {
        ReceiverStats { played: 0, concealed: 0, rejected: 0 }
    }
}

/// How many frames of voice a buffer lets ahead of a gap.
pub const VOICE_DEPTH: u64 = 3;

#[verifier::ext_equal]
pub ghost struct VoiceReceiverView {
    pub lanes: Map<IdentityId, JitterView>,
    pub stats: ReceiverStats,
}

pub open spec fn fresh_lane() -> JitterView {
    JitterView {
        frames: Map::empty(),
        next: None,
        depth: VOICE_DEPTH,
        dropped_late: 0,
        concealed: 0,
    }
}

pub open spec fn voice_lane(v: VoiceReceiverView, from: IdentityId) -> JitterView {
    if v.lanes.contains_key(from) {
        v.lanes[from]
    } else {
        fresh_lane()
    }
}

/// The receiver after a frame arrived: whoever sends has a lane, and what fails
/// authentication stays out of it.
pub open spec fn after_voice(
    v: VoiceReceiverView,
    from: IdentityId,
    opened: Result<(FrameHeader, Seq<u8>), FrameError>,
) -> VoiceReceiverView {
    let lane = voice_lane(v, from);
    match opened {
        Ok((header, payload)) => VoiceReceiverView {
            lanes: v.lanes.insert(from, after_push(lane, header.counter, payload)),
            ..v
        },
        Err(_) => VoiceReceiverView {
            lanes: v.lanes.insert(from, lane),
            stats: ReceiverStats { rejected: counted(v.stats.rejected + 1), ..v.stats },
        },
    }
}

/// Whether the lane can move on: the playhead has a place to go.
pub open spec fn can_move(lane: JitterView) -> bool {
    !lane.frames.is_empty() ==> lane.due() < u64::MAX
}

/// What the codec is to decode next for a sender: a packet, or a loss.
pub open spec fn due_packet(v: VoiceReceiverView, from: IdentityId) -> Option<Option<Seq<u8>>> {
    if v.lanes.contains_key(from) && can_move(v.lanes[from]) {
        match next_slot(v.lanes[from]) {
            PoppedView::Frame(packet) => Some(Some(packet)),
            PoppedView::Missing => Some(None),
            PoppedView::Waiting => None,
        }
    } else {
        None
    }
}

/// The receiver after the next packet of a sender was asked for.
pub open spec fn after_due(v: VoiceReceiverView, from: IdentityId) -> VoiceReceiverView {
    match due_packet(v, from) {
        Some(packet) => VoiceReceiverView {
            lanes: v.lanes.insert(from, after_pop(v.lanes[from])),
            stats: if packet is Some {
                ReceiverStats { played: counted(v.stats.played + 1), ..v.stats }
            } else {
                ReceiverStats { concealed: counted(v.stats.concealed + 1), ..v.stats }
            },
        },
        None => v,
    }
}

/// One sender's loss or reordering never disturbs another's lane.
pub proof fn law_voices_are_independent(
    v: VoiceReceiverView,
    from: IdentityId,
    other: IdentityId,
    opened: Result<(FrameHeader, Seq<u8>), FrameError>,
)
    requires
        from != other,
    ensures
        voice_lane(after_voice(v, from, opened), other) == voice_lane(v, other),
        voice_lane(after_due(v, from), other) == voice_lane(v, other),
{
}

/// The inbound side of a call's voice.
#[derive(Debug)]
pub struct VoiceReceiver {
    lanes: SortedMap<IdentityId, JitterBuffer>,
    stats: ReceiverStats,
}

pub open spec fn jitter_views(lanes: Map<IdentityId, JitterBuffer>) -> Map<
    IdentityId,
    JitterView,
> {
    lanes.map_values(|b: JitterBuffer| b@)
}

impl View for VoiceReceiver {
    type V = VoiceReceiverView;

    closed spec fn view(&self) -> VoiceReceiverView {
        VoiceReceiverView { lanes: jitter_views(self.lanes@), stats: self.stats }
    }
}

impl VoiceReceiver {
    pub closed spec fn wf(&self) -> bool {
        &&& self.lanes.wf()
        &&& forall|p: IdentityId| #[trigger]
            self.lanes@.contains_key(p) ==> self.lanes@[p].wf()
    }

    pub fn new() -> (r: Self)
        ensures
            r.wf(),
            r@ == (VoiceReceiverView { lanes: Map::empty(), stats: nothing_heard() }),
    {
        let r = VoiceReceiver { lanes: SortedMap::new(), stats: ReceiverStats::default() };
        assert(r@.lanes =~= Map::<IdentityId, JitterView>::empty());
        r
    }

    /// Takes in a frame that was opened, or failed to.
    pub fn on_opened(
        &mut self,
        from: IdentityId,
        opened: Result<(FrameHeader, Vec<u8>), FrameError>,
    )
        requires
            old(self).wf(),
        ensures
            final(self).wf(),
            final(self)@ == after_voice(old(self)@, from, opened_view(opened)),
    {
        let ghost before = self.lanes@;
        let mut lane = match self.lanes.remove(&from) {
            Some(l) => l,
            None => JitterBuffer::new(VOICE_DEPTH),
        };
        assert(lane@ == voice_lane(old(self)@, from));
        match opened {
            Ok((header, payload)) => lane.push(header.counter, payload),
            Err(_) => {
                self.stats.rejected = self.stats.rejected.saturating_add(1);
            },
        }
        self.lanes.insert(from, lane);
        proof {
            assert(jitter_views(before).dom() =~= before.dom());
            assert(self@.lanes =~= old(self)@.lanes.insert(from, lane@));
        }
    }

    /// Takes in a sealed frame.
    pub fn on_frame(&mut self, key: &CallKey, from: IdentityId, sealed: &[u8])
        requires
            old(self).wf(),
        ensures
            final(self).wf(),
            final(self)@ == after_voice(old(self)@, from, opened_frame(key@, sealed@)),
    {
        self.on_opened(from, open(key, sealed))
    }

    /// What to decode next for a sender: a packet, a loss to conceal, or nothing
    /// yet.
    pub fn next_packet(&mut self, from: &IdentityId) -> (r: Option<Option<Vec<u8>>>)
        requires
            old(self).wf(),
        ensures
            final(self).wf(),
            final(self)@ == after_due(old(self)@, *from),
            match r {
                Some(Some(packet)) => due_packet(old(self)@, *from) == Some(Some(packet@)),
                Some(None) => due_packet(old(self)@, *from) == Some(None::<Seq<u8>>),
                None => due_packet(old(self)@, *from) is None,
            },
    {
        let ghost before = self.lanes@;
        assert(jitter_views(before).dom() =~= before.dom());
        let popped = match self.lanes.get_mut(from) {
            Some(lane) => {
                if lane.has_room() {
                    lane.pop_next()
                } else {
                    Popped::Waiting
                }
            },
            None => Popped::Waiting,
        };
        proof {
            assert(before.contains_key(*from) ==> self@.lanes =~= old(self)@.lanes.insert(
                *from,
                self.lanes@[*from]@,
            ));
            assert(before.contains_key(*from) && self.lanes@[*from]@ == before[*from]@
                ==> self@.lanes =~= old(self)@.lanes);
            assert(!before.contains_key(*from) ==> self@.lanes =~= old(self)@.lanes);
        }
        match popped {
            Popped::Frame(packet) => {
                self.stats.played = self.stats.played.saturating_add(1);
                Some(Some(packet))
            },
            Popped::Missing => {
                self.stats.concealed = self.stats.concealed.saturating_add(1);
                Some(None)
            },
            Popped::Waiting => None,
        }
    }

    /// Whether as many frames as expected were played, concealed ones included.
    pub fn has_played(&self, expected: Option<u64>) -> (r: bool)
        ensures
            r == (expected matches Some(n) && self@.stats.played + self@.stats.concealed >= n),
    {
        match expected {
            Some(n) => self.stats.played >= n || self.stats.concealed >= n - self.stats.played,
            None => false,
        }
    }

    pub fn stats(&self) -> (r: ReceiverStats)
        ensures
            r == self@.stats,
    {
        self.stats
    }
}

/// Voice is heard: an authentic frame that is not behind what was played goes into its
/// sender's lane as it is, and nothing counts as rejected; one that fails to open counts,
/// and leaves the lane as it was.
pub proof fn law_authentic_voice_is_taken_in(
    v: VoiceReceiverView,
    from: IdentityId,
    header: FrameHeader,
    payload: Seq<u8>,
    e: FrameError,
)
    requires
        v.stats.rejected < u64::MAX,
    ensures
        ({
            let w = after_voice(v, from, Ok::<(FrameHeader, Seq<u8>), FrameError>((header, payload)));
            let lane = w.lanes[from];
            let before = v.lanes[from];
            &&& w.lanes.contains_key(from)
            &&& w.stats == v.stats
            &&& !v.lanes.contains_key(from) ==> lane.frames.contains_key(header.counter)
                && lane.frames[header.counter] == payload && lane.next is None && lane.depth == 3
            &&& v.lanes.contains_key(from) && !(before.next matches Some(n) && header.counter < n)
                ==> lane.frames == before.frames.insert(header.counter, payload) && lane.next
                == before.next
        }),
        ({
            let w = after_voice(v, from, Err::<(FrameHeader, Seq<u8>), FrameError>(e));
            &&& w.stats == (ReceiverStats { rejected: (v.stats.rejected + 1) as u64, ..v.stats })
            &&& v.lanes.contains_key(from) ==> w.lanes == v.lanes
        }),
{
    let w = after_voice(v, from, Err::<(FrameHeader, Seq<u8>), FrameError>(e));
    if v.lanes.contains_key(from) {
        assert(w.lanes =~= v.lanes);
    }
}

/// Voice is played: a frame at the playhead is handed to the codec, and a slot that is
/// given up is handed to it as a loss; each is counted, and the playhead moves on by one.
/// While the lane waits, nothing is handed out and nothing changes.
pub proof fn law_due_voice_is_played(v: VoiceReceiverView, from: IdentityId, n: u64)
    requires
        v.lanes.contains_key(from),
        v.lanes[from].ordered(),
        v.lanes[from].next == Some(n),
        n < u64::MAX,
        v.stats.played < u64::MAX,
        v.stats.concealed < u64::MAX,
        !v.lanes[from].frames.is_empty(),
    ensures
        ({
            let lane = v.lanes[from];
            let after = after_due(v, from);
            &&& lane.frames.contains_key(n) ==> due_packet(v, from) == Some(Some(lane.frames[n]))
                && after.stats == (ReceiverStats { played: (v.stats.played + 1) as u64, ..v.stats })
                && after.lanes[from].next == Some((n + 1) as u64)
            &&& !lane.frames.contains_key(n) && lane.frames.dom().len() >= lane.depth ==> due_packet(
                v,
                from,
            ) == Some(None::<Seq<u8>>) && after.stats == (ReceiverStats {
                concealed: (v.stats.concealed + 1) as u64,
                ..v.stats
            }) && after.lanes[from].next == Some((n + 1) as u64)
            &&& due_packet(v, from) is None ==> after == v
        }),
{
    crate::media::jitter::law_a_buffer_never_stalls(v.lanes[from], n);
}

/// A voice starts as soon as anything of it is there.
pub proof fn law_a_voice_starts_at_once(v: VoiceReceiverView, from: IdentityId, first: u64)
    requires
        v.lanes.contains_key(from),
        v.lanes[from].ordered(),
        v.lanes[from].next is None,
        v.lanes[from].frames.contains_key(first),
        forall|x: u64| #[trigger] v.lanes[from].frames.contains_key(x) ==> first <= x,
        first < u64::MAX,
    ensures
        due_packet(v, from) == Some(Some(v.lanes[from].frames[first])),
{
    let lane = v.lanes[from];
    crate::media::jitter::law_a_stream_starts_at_once(lane, first);
    assert(crate::media::jitter::is_earliest(lane.frames, first));
    assert(crate::media::jitter::is_earliest(lane.frames, lane.due()));
}

/// The time of a voice frame is that of its first sample: 960 samples a frame, until the
/// clock wraps.
pub proof fn law_voice_time_follows_the_counter(counter: u64, ssrc: u32)
    requires
        counter * 960 < 0x1_0000_0000,
    ensures
        voice_header(counter, ssrc).ts == counter * 960,
        voice_header(counter, ssrc).counter == counter,
        voice_header(counter, ssrc).ssrc == ssrc,
        voice_header(counter, ssrc).kind == MediaKind::Audio,
        voice_header(counter, ssrc).flags == 0,
{
}

/// Silence is as long as a frame, and silent.
pub proof fn law_silence_is_a_frame_of_zeros(i: int)
    requires
        0 <= i < 960,
    ensures
        silence().len() == 960,
        silence()[i] == 0,
{
}

proof fn lemma_pcm_byte(pcm: Seq<i16>, i: int)
    requires
        0 <= i < pcm.len(),
    ensures
        pcm_bytes(pcm).len() == 2 * pcm.len(),
        pcm_bytes(pcm)[2 * i] as nat == sample_bits(pcm[i]) % 256,
        pcm_bytes(pcm)[2 * i + 1] as nat == sample_bits(pcm[i]) / 256,
    decreases pcm.len(),
{
    let front = pcm.drop_last();
    law_pcm_reads_back(pcm);
    law_pcm_reads_back(front);
    if i < front.len() {
        lemma_pcm_byte(front, i);
        assert(front[i] == pcm[i]);
    } else {
        let b = sample_bits(pcm.last());
        crate::bytes::lemma_lens(b, 2);
        assert(pcm_bytes(pcm).skip(2 * i) =~= little_endian(b, 2));
        reveal_with_fuel(little_endian, 3);
        assert(b < 0x1_0000);
        assert(little_endian(b, 2)[0] as nat == b % 256);
        assert(little_endian(b, 2)[1] as nat == b / 256);
        assert(pcm_bytes(pcm)[2 * i] == pcm_bytes(pcm).skip(2 * i)[0]);
        assert(pcm_bytes(pcm)[2 * i + 1] == pcm_bytes(pcm).skip(2 * i)[1]);
    }
}

/// Samples go out with the lower byte first.
pub proof fn law_samples_go_out_low_byte_first(pcm: Seq<i16>, i: int)
    requires
        0 <= i < pcm.len(),
        pcm[i] >= 0,
    ensures
        pcm_bytes(pcm)[2 * i] as int == pcm[i] % 256,
        pcm_bytes(pcm)[2 * i + 1] as int == pcm[i] / 256,
{
    lemma_pcm_byte(pcm, i);
}

} // verus!

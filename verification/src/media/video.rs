//! The pieces of a screen share: encoded pictures, the filter for unchanged
//! ones, the queue of one viewer and the cache of the last keyframe run.
//!
//! Deltas chain: dropping one breaks decoding until the next keyframe. So the
//! queue drops runs (everything, until a keyframe comes), not single frames, and
//! the cache keeps whole runs or nothing.

use std::borrow::Cow;
use std::collections::VecDeque;
use std::sync::Arc;

use vstd::prelude::*;

use crate::crypto::{blake3_of, blake3_hash};
use crate::media::control::{audio_ssrc_of, base_ssrc};
use crate::media::picture::{
    law_narrowed_pictures_fit, shape_for_encode, CapturedFrame, PictureView, MAX_WIDTH,
};
use crate::order::bytes_equal;
use crate::shared::IdentityId;
use crate::text::{decimal, decimal_of};

verus! {

/// Video timestamps tick at the RTP video clock.
pub const VIDEO_CLOCK_HZ: u32 = 90_000;

/// Ticks of the video clock since the epoch, of which a timestamp keeps the
/// lowest 32 bits. Nine ticks are a hundred thousand nanoseconds; the product
/// keeps its lowest 128 bits.
pub open spec fn ticks_of(nanos: u128) -> int {
    ((nanos * 9) % (u128::MAX + 1) / 100_000) % 0x1_0000_0000
}

/// The timestamp of a wall clock reading in nanoseconds since the epoch.
pub fn ts90k_of(nanos: u128) -> (r: u32)
    ensures
        r == ticks_of(nanos),
{
    let ticks: u128 = nanos.wrapping_mul(9) / 100_000;
    (ticks % 0x1_0000_0000) as u32
}

/// The ssrc of the video stream: that of the voice with a constant mixed in, so
/// that one call key never sees two streams of a sender share nonces.
pub fn video_ssrc_of(id: &IdentityId) -> (r: u32)
    ensures
        r == base_ssrc(id@) ^ 0x9E37_79B9u32,
{
    audio_ssrc_of(id) ^ 0x9E37_79B9
}

/// The three streams of a sender never share an ssrc.
pub proof fn law_streams_have_their_own_ssrc(id: Seq<u8>)
    ensures
        base_ssrc(id) != base_ssrc(id) ^ 0x9E37_79B9u32,
        base_ssrc(id) != base_ssrc(id) ^ 0xA5C3_17E9u32,
        base_ssrc(id) ^ 0x9E37_79B9u32 != base_ssrc(id) ^ 0xA5C3_17E9u32,
{
    let b = base_ssrc(id);
    assert(b != b ^ 0x9E37_79B9u32 && b != b ^ 0xA5C3_17E9u32 && b ^ 0x9E37_79B9u32 != b
        ^ 0xA5C3_17E9u32) by (bit_vector);
}

/// One encoded picture out of the codec.
#[derive(Debug, Clone, PartialEq, Eq)]
pub struct EncodedPicture {
    pub bytes: Vec<u8>,
    pub keyframe: bool,
}

/// One decoded picture for presentation, tightly packed 8-bit RGBA.
#[derive(Debug, Clone, PartialEq, Eq)]
pub struct DecodedPicture {
    pub width: u32,
    pub height: u32,
    pub rgba: Vec<u8>,
}

#[derive(Debug, Clone, PartialEq, Eq)]
pub enum VideoError {
    Encode(String),
    BadDimensions(u32, u32),
}

#[verifier::ext_equal]
pub ghost enum VideoErrorView {
    Encode(Seq<char>),
    BadDimensions(u32, u32),
}

impl View for VideoError {
    type V = VideoErrorView;

    open spec fn view(&self) -> VideoErrorView {
        match self {
            VideoError::Encode(why) => VideoErrorView::Encode(why@),
            VideoError::BadDimensions(w, h) => VideoErrorView::BadDimensions(*w, *h),
        }
    }
}

pub open spec fn video_error_text(e: VideoErrorView) -> Seq<char> {
    match e {
        VideoErrorView::Encode(why) => "encoder failure: "@ + why,
        VideoErrorView::BadDimensions(w, h) => "frame dimensions unsupported: "@ + decimal(
            w as nat,
        ) + "x"@ + decimal(h as nat),
    }
}

impl VideoError {
    pub fn text(&self) -> (r: String)
        ensures
            r@ == video_error_text(self@),
    {
        match self {
            VideoError::Encode(why) => {
                let mut out: String = "encoder failure: ".to_owned();
                out.append(why.as_str());
                out
            },
            VideoError::BadDimensions(w, h) => {
                let mut out: String = "frame dimensions unsupported: ".to_owned();
                out.append(decimal_of(*w as u64).as_str());
                out.append("x");
                out.append(decimal_of(*h as u64).as_str());
                out
            },
        }
    }
}

/// Why a frame cannot be encoded, if it cannot: it has no pixels, or what is
/// left after shaping is not a whole picture.
pub open spec fn shape_fault(v: PictureView) -> bool {
    ||| v.width == 0
    ||| v.height == 0
    ||| v.bgra.len() == 0
    ||| !v.narrowed(MAX_WIDTH as int).cropped().is_whole()
}

/// Shaping reads no byte that is not there: the frame has no pixels at all, or
/// has those that halving and cropping read.
pub open spec fn shapeable(v: PictureView) -> bool {
    ||| v.width == 0
    ||| v.height == 0
    ||| v.bgra.len() == 0
    ||| v.too_wide(MAX_WIDTH as int) ==> v.covers_blocks()
}

/// Whether a frame can be shaped.
pub fn is_shapeable(frame: &CapturedFrame) -> (r: bool)
    ensures
        r == shapeable(frame@),
{
    let len: usize = frame.bgra.len();
    if frame.width == 0 || frame.height == 0 || len == 0 || frame.width <= MAX_WIDTH {
        return true;
    }
    if frame.height < 2 {
        assert(2 * (frame@.height / 2) - 1 == -1);
        return true;
    }
    let (w, h): (u128, u128) = (frame.width as u128, frame.height as u128);
    let rows: u128 = 2 * (h / 2) - 1;
    let row: u128 = w * 4;
    assert(rows * row <= 0x1_0000_0000 * 0x4_0000_0000) by (nonlinear_arith)
        requires
            rows <= 0x1_0000_0000,
            row <= 0x4_0000_0000,
    ;
    len as u128 >= rows * row + (w / 2) * 8
}

/// What an encoder is given for a captured frame: the frame shaped, if it is a
/// whole picture.
pub fn prepare_for_encode(frame: &CapturedFrame) -> (r: Result<Cow<'_, CapturedFrame>, VideoError>)
    requires
        shapeable(frame@),
    ensures
        match r {
            Ok(shaped) => !shape_fault(frame@) && shaped@ == frame@.narrowed(
                MAX_WIDTH as int,
            ).cropped(),
            Err(e) => shape_fault(frame@) && e@ == VideoErrorView::BadDimensions(
                frame.width,
                frame.height,
            ),
        },
{
    if frame.width == 0 || frame.height == 0 || frame.bgra.len() == 0 {
        return Err(VideoError::BadDimensions(frame.width, frame.height));
    }
    proof {
        law_narrowed_pictures_fit(frame@, MAX_WIDTH as int);
    }
    let shaped = shape_for_encode(frame, MAX_WIDTH);
    let (width, height, len) = match &shaped {
        Cow::Borrowed(f) => (f.width, f.height, f.bgra.len()),
        Cow::Owned(f) => (f.width, f.height, f.bgra.len()),
    };
    proof {
        assert(width as u64 * height as u64 <= 0xffff_ffff * 0xffff_ffff) by (nonlinear_arith)
            requires
                width <= 0xffff_ffff,
                height <= 0xffff_ffff,
        ;
    }
    let pixels: u64 = width as u64 * height as u64;
    if len as u128 != pixels as u128 * 4 {
        return Err(VideoError::BadDimensions(frame.width, frame.height));
    }
    Ok(shaped)
}

/// The codec's encode port. `force_keyframe` demands a keyframe; `None` means
/// that the codec skipped the frame, and nothing goes on the wire.
pub trait VideoEncoder: Send {
    fn encode(&mut self, frame: &CapturedFrame, force_keyframe: bool) -> Result<
        Option<EncodedPicture>,
        VideoError,
    >;

    /// Retargets the bitrate. Codecs that cannot adapt ignore it.
    fn set_target_bitrate(&mut self, _bps: u32) {
    }
}

/// The codec's decode port. `None` is not decodable: the caller skips it.
pub trait VideoDecoder: Send {
    fn decode(&mut self, packet: &[u8]) -> Option<DecodedPicture>;
}

/// Where decoded pictures land. `ts90k` is the sender's capture stamp.
pub trait VideoSink: Send {
    fn present(&mut self, from: IdentityId, picture: DecodedPicture, ts90k: u32);
}

/// Screen content is mostly static, and an unchanged picture is not encoded. What
/// is remembered of the last picture is its dimensions and its BLAKE3 digest.
#[derive(Debug)]
pub struct StaticFrameGate {
    last: Option<(u32, u32, [u8; 32])>,
}

/// What a picture is remembered by.
pub open spec fn signature(v: PictureView) -> (int, int, Seq<u8>) {
    (v.width, v.height, blake3_of(v.bgra))
}

impl View for StaticFrameGate {
    type V = Option<(int, int, Seq<u8>)>;

    closed spec fn view(&self) -> Option<(int, int, Seq<u8>)> {
        match self.last {
            Some((w, h, digest)) => Some((w as int, h as int, digest@)),
            None => None,
        }
    }
}

impl Default for StaticFrameGate {
    fn default() -> (r: Self)
        ensures
            r@ is None,
    {
        StaticFrameGate { last: None }
    }
}

impl StaticFrameGate {
    /// Whether the frame differs from the last one that was let through; if so,
    /// it is let through.
    pub fn changed(&mut self, frame: &CapturedFrame) -> (r: bool)
        ensures
            r == (old(self)@ != Some(signature(frame@))),
            final(self)@ == Some(signature(frame@)),
    {
        let digest: [u8; 32] = blake3_hash(&frame.bgra);
        let same: bool = match &self.last {
            Some((w, h, d)) => *w == frame.width && *h == frame.height && bytes_equal(d, &digest),
            None => false,
        };
        if same {
            return false;
        }
        self.last = Some((frame.width, frame.height, digest));
        true
    }
}

/// A sealed video frame ready for the wire, shared and not copied between
/// viewers: sealed exactly once, and relayed without the key.
#[derive(Debug)]
pub struct SealedVideoFrame {
    pub sealed: Arc<Vec<u8>>,
    pub keyframe: bool,
}

#[verifier::ext_equal]
pub ghost struct SealedView {
    pub sealed: Seq<u8>,
    pub keyframe: bool,
}

impl View for SealedVideoFrame {
    type V = SealedView;

    open spec fn view(&self) -> SealedView {
        SealedView { sealed: self.sealed@, keyframe: self.keyframe }
    }
}

impl Clone for SealedVideoFrame {
    fn clone(&self) -> (r: Self)
        ensures
            r@ == self@,
    {
        SealedVideoFrame { sealed: self.sealed.clone(), keyframe: self.keyframe }
    }
}

impl SealedVideoFrame {
    pub fn new(sealed: Arc<Vec<u8>>, keyframe: bool) -> (r: Self)
        ensures
            r@ == (SealedView { sealed: sealed@, keyframe }),
    {
        SealedVideoFrame { sealed, keyframe }
    }
}

/// A count that stops at the largest number there is.
pub open spec fn counted(n: int) -> u64 {
    if n <= u64::MAX {
        n as u64
    } else {
        u64::MAX
    }
}

/// A length that stops at the largest there is.
pub open spec fn measured(n: int) -> usize {
    if n <= usize::MAX {
        n as usize
    } else {
        usize::MAX
    }
}

/// What became of a pushed frame.
#[derive(Debug, Clone, Copy, PartialEq, Eq, Structural)]
pub enum PushOutcome {
    Queued,
    /// The consumer stalled: the whole backlog was dropped, and the frame with
    /// it unless it is a keyframe.
    DroppedRun { dropped: usize },
    /// Still waiting for a keyframe: deltas are skipped.
    SkippedAwaitingKeyframe,
}

#[verifier::ext_equal]
pub ghost struct QueueView {
    pub frames: Seq<SealedView>,
    pub capacity: int,
    pub awaiting_keyframe: bool,
    pub dropped: u64,
    /// How many frames of a primed run are still to go.
    pub primed: int,
}

impl QueueView {
    /// A queue that waits for a keyframe is empty, and what is in it fits.
    pub open spec fn sound(self) -> bool {
        &&& self.capacity >= 1
        &&& 0 <= self.primed <= self.frames.len()
        &&& self.frames.len() <= self.capacity + self.primed
        &&& self.awaiting_keyframe ==> self.frames.len() == 0
    }

    pub open spec fn full(self) -> bool {
        self.frames.len() >= self.capacity + self.primed
    }

    pub open spec fn skips(self, frame: SealedView) -> bool {
        self.awaiting_keyframe && !frame.keyframe
    }

    /// How many frames a run loses when `frame` overflows the queue.
    pub open spec fn lost_with(self, frame: SealedView) -> usize {
        if frame.keyframe {
            measured(self.frames.len() as int)
        } else {
            measured(self.frames.len() as int + 1)
        }
    }
}

pub open spec fn fresh_queue(capacity: int) -> QueueView {
    QueueView {
        frames: seq![],
        capacity: if capacity >= 1 {
            capacity
        } else {
            1
        },
        awaiting_keyframe: true,
        dropped: 0,
        primed: 0,
    }
}

pub open spec fn push_outcome(v: QueueView, frame: SealedView) -> PushOutcome {
    if v.skips(frame) {
        PushOutcome::SkippedAwaitingKeyframe
    } else if v.full() {
        PushOutcome::DroppedRun { dropped: v.lost_with(frame) }
    } else {
        PushOutcome::Queued
    }
}

/// The queue after a frame was pushed. Overflow counts the newcomer as dropped
/// even where it stays.
pub open spec fn after_queue_push(v: QueueView, frame: SealedView) -> QueueView {
    if v.skips(frame) {
        QueueView { dropped: counted(v.dropped + 1), ..v }
    } else if v.full() {
        QueueView {
            frames: if frame.keyframe {
                seq![frame]
            } else {
                seq![]
            },
            awaiting_keyframe: !frame.keyframe,
            dropped: counted(v.dropped + measured(v.frames.len() as int + 1)),
            primed: 0,
            ..v
        }
    } else {
        QueueView {
            frames: v.frames.push(frame),
            awaiting_keyframe: v.awaiting_keyframe && !frame.keyframe,
            ..v
        }
    }
}

/// The queue after it was seeded with a run that opens with a keyframe; other
/// runs are refused.
pub open spec fn after_prime(v: QueueView, run: Seq<SealedView>) -> QueueView {
    if run.len() > 0 && run[0].keyframe {
        QueueView {
            frames: run,
            dropped: counted(v.dropped + v.frames.len()),
            primed: run.len() as int,
            awaiting_keyframe: false,
            ..v
        }
    } else {
        v
    }
}

/// The queue after a frame was taken from it.
pub open spec fn after_queue_pop(v: QueueView) -> QueueView {
    if v.frames.len() == 0 {
        v
    } else {
        QueueView {
            frames: v.frames.drop_first(),
            primed: if v.primed > 0 {
                v.primed - 1
            } else {
                0
            },
            ..v
        }
    }
}

/// The queue after its consumer lost the decode state.
pub open spec fn after_reset(v: QueueView) -> QueueView {
    QueueView {
        frames: seq![],
        dropped: counted(v.dropped + v.frames.len()),
        primed: 0,
        awaiting_keyframe: true,
        ..v
    }
}

/// Once anything was dropped, what a viewer gets next is a keyframe: a push that
/// drops leaves nothing behind, or that keyframe alone.
pub proof fn law_no_delta_follows_a_gap(v: QueueView, frame: SealedView)
    requires
        v.sound(),
    ensures
        push_outcome(v, frame) !is Queued ==> (after_queue_push(v, frame).frames.len() == 0
            && after_queue_push(v, frame).awaiting_keyframe) || after_queue_push(v, frame).frames
            == seq![frame] && frame.keyframe,
        after_queue_push(v, frame).sound(),
{
}

/// A queue that awaits a keyframe carries nothing until one comes, and then
/// opens with it.
pub proof fn law_queue_opens_with_a_keyframe(v: QueueView, frame: SealedView)
    requires
        v.sound(),
        v.awaiting_keyframe,
    ensures
        !frame.keyframe ==> after_queue_push(v, frame).frames.len() == 0,
        frame.keyframe ==> after_queue_push(v, frame).frames == seq![frame]
            && !after_queue_push(v, frame).awaiting_keyframe,
{
    assert(v.frames.push(frame) =~= seq![frame]);
}

/// A primed run survives whole under the frames that follow it: as many as the
/// capacity are taken on top of it.
pub proof fn law_primed_run_survives(v: QueueView, run: Seq<SealedView>, frame: SealedView)
    requires
        v.sound(),
        run.len() > 0,
        run[0].keyframe,
    ensures
        push_outcome(after_prime(v, run), frame) is Queued,
        after_queue_push(after_prime(v, run), frame).frames == run.push(frame),
{
}

/// Latest-run-wins outbound queue for one viewer. Overflow drops everything
/// queued and demands a keyframe. A fresh queue awaits a keyframe: that is what
/// gives a late joiner a decodable picture first.
#[derive(Debug)]
pub struct VideoSendQueue {
    frames: VecDeque<SealedVideoFrame>,
    capacity: usize,
    awaiting_keyframe: bool,
    dropped: u64,
    primed: usize,
}

pub open spec fn sealed_views(s: Seq<SealedVideoFrame>) -> Seq<SealedView> {
    s.map_values(|f: SealedVideoFrame| f@)
}

impl View for VideoSendQueue {
    type V = QueueView;

    closed spec fn view(&self) -> QueueView {
        QueueView {
            frames: sealed_views(self.frames@),
            capacity: self.capacity as int,
            awaiting_keyframe: self.awaiting_keyframe,
            dropped: self.dropped,
            primed: self.primed as int,
        }
    }
}

impl VideoSendQueue {
    pub open spec fn wf(&self) -> bool {
        self@.sound()
    }

    pub fn new(capacity: usize) -> (r: Self)
        ensures
            r.wf(),
            r@ == fresh_queue(capacity as int),
    {
        let r = VideoSendQueue {
            frames: VecDeque::new(),
            capacity: if capacity >= 1 {
                capacity
            } else {
                1
            },
            awaiting_keyframe: true,
            dropped: 0,
            primed: 0,
        };
        assert(r@.frames =~= Seq::<SealedView>::empty());
        r
    }

    pub fn push(&mut self, frame: SealedVideoFrame) -> (r: PushOutcome)
        requires
            old(self).wf(),
        ensures
            final(self).wf(),
            r == push_outcome(old(self)@, frame@),
            final(self)@ == after_queue_push(old(self)@, frame@),
    {
        if self.awaiting_keyframe && !frame.keyframe {
            self.dropped = self.dropped.saturating_add(1);
            return PushOutcome::SkippedAwaitingKeyframe;
        }
        let len: usize = self.frames.len();
        if len >= self.capacity && len - self.capacity >= self.primed {
            let dropped: usize = len.saturating_add(1);
            self.frames.clear();
            self.primed = 0;
            self.dropped = self.dropped.saturating_add(dropped as u64);
            self.awaiting_keyframe = true;
            if frame.keyframe {
                self.frames.push_back(frame);
                self.awaiting_keyframe = false;
                assert(self@.frames =~= seq![frame@]);
                return PushOutcome::DroppedRun { dropped: len };
            }
            assert(self@.frames =~= Seq::<SealedView>::empty());
            return PushOutcome::DroppedRun { dropped };
        }
        if frame.keyframe {
            self.awaiting_keyframe = false;
        }
        self.frames.push_back(frame);
        assert(self@.frames =~= old(self)@.frames.push(frame@));
        PushOutcome::Queued
    }

    /// Seeds a fresh lane with a complete cached run, so that a late joiner gets
    /// a decodable picture now.
    pub fn prime(&mut self, run: &[SealedVideoFrame])
        requires
            old(self).wf(),
        ensures
            final(self).wf(),
            final(self)@ == after_prime(old(self)@, sealed_views(run@)),
    {
        if run.len() == 0 || !run[0].keyframe {
            return;
        }
        self.dropped = self.dropped.saturating_add(self.frames.len() as u64);
        self.frames.clear();
        let mut i: usize = 0;
        while i < run.len()
            invariant
                i <= run@.len(),
                self.frames@.len() == i,
                forall|j: int| 0 <= j < i ==> (#[trigger] self.frames@[j])@ == run@[j]@,
                self.capacity == old(self).capacity,
                self.dropped == counted(old(self)@.dropped + old(self)@.frames.len()),
            decreases run@.len() - i,
        {
            self.frames.push_back(run[i].clone());
            i = i + 1;
        }
        self.primed = run.len();
        self.awaiting_keyframe = false;
        assert(self@.frames =~= sealed_views(run@));
    }

    pub fn pop(&mut self) -> (r: Option<SealedVideoFrame>)
        requires
            old(self).wf(),
        ensures
            final(self).wf(),
            match r {
                Some(f) => old(self)@.frames.len() > 0 && f@ == old(self)@.frames[0],
                None => old(self)@.frames.len() == 0,
            },
            final(self)@ == after_queue_pop(old(self)@),
    {
        let popped = self.frames.pop_front();
        if popped.is_some() {
            self.primed = if self.primed > 0 { self.primed - 1 } else { 0 };
            assert(self@.frames =~= old(self)@.frames.drop_first());
        }
        popped
    }

    /// A keyframe is needed before this queue carries frames again.
    pub fn awaiting_keyframe(&self) -> (r: bool)
        ensures
            r == self@.awaiting_keyframe,
    {
        self.awaiting_keyframe
    }

    /// Drops everything queued and demands a keyframe: the consumer lost its
    /// decode state.
    pub fn reset_for_keyframe(&mut self)
        requires
            old(self).wf(),
        ensures
            final(self).wf(),
            final(self)@ == after_reset(old(self)@),
    {
        self.dropped = self.dropped.saturating_add(self.frames.len() as u64);
        self.frames.clear();
        self.primed = 0;
        self.awaiting_keyframe = true;
        assert(self@.frames =~= Seq::<SealedView>::empty());
    }

    pub fn dropped(&self) -> (r: u64)
        ensures
            r == self@.dropped,
    {
        self.dropped
    }

    pub fn len(&self) -> (r: usize)
        ensures
            r == self@.frames.len(),
    {
        self.frames.len()
    }

    pub fn is_empty(&self) -> (r: bool)
        ensures
            r == (self@.frames.len() == 0),
    {
        self.frames.len() == 0
    }
}

/// The bytes of a run.
pub open spec fn run_bytes(run: Seq<SealedView>) -> int
    decreases run.len(),
{
    if run.len() == 0 {
        0
    } else {
        run_bytes(run.drop_last()) + run.last().sealed.len()
    }
}

/// The last run that is whole, if there is one, and how large a run may grow.
#[verifier::ext_equal]
pub ghost struct CacheView {
    pub run: Option<Seq<SealedView>>,
    pub max_bytes: int,
}

/// A keyframe and the deltas since.
pub open spec fn is_run(run: Seq<SealedView>) -> bool {
    &&& run.len() > 0
    &&& run[0].keyframe
    &&& forall|i: int| 1 <= i < run.len() ==> !(#[trigger] run[i]).keyframe
}

/// The cache after a frame went by. A keyframe starts a run, whatever its size;
/// a delta that would outgrow the cap discards the run.
pub open spec fn after_observe(v: CacheView, frame: SealedView) -> CacheView {
    if frame.keyframe {
        CacheView { run: Some(seq![frame]), ..v }
    } else {
        match v.run {
            Some(run) => if run_bytes(run) + frame.sealed.len() > v.max_bytes {
                CacheView { run: None, ..v }
            } else {
                CacheView { run: Some(run.push(frame)), ..v }
            },
            None => v,
        }
    }
}

/// Whatever goes by, what the cache serves is a whole run.
pub proof fn law_cache_serves_whole_runs(v: CacheView, frame: SealedView)
    requires
        v.run matches Some(run) ==> is_run(run),
    ensures
        after_observe(v, frame).run matches Some(run) ==> is_run(run),
{
}

/// Cache of the last complete keyframe run: a late viewer's lane is primed from
/// it instead of making the sharer encode a keyframe.
#[derive(Debug)]
pub struct KeyframeCache {
    run: Vec<SealedVideoFrame>,
    bytes: usize,
    max_bytes: usize,
    complete: bool,
}

impl View for KeyframeCache {
    type V = CacheView;

    closed spec fn view(&self) -> CacheView {
        CacheView {
            run: if self.complete {
                Some(sealed_views(self.run@))
            } else {
                None
            },
            max_bytes: self.max_bytes as int,
        }
    }
}

impl KeyframeCache {
    pub closed spec fn wf(&self) -> bool {
        self.complete ==> {
            &&& is_run(sealed_views(self.run@))
            &&& self.bytes == run_bytes(sealed_views(self.run@))
        }
    }

    pub fn new(max_bytes: usize) -> (r: Self)
        ensures
            r.wf(),
            r@ == (CacheView { run: None, max_bytes: max_bytes as int }),
    {
        KeyframeCache { run: Vec::new(), bytes: 0, max_bytes, complete: false }
    }

    pub fn observe(&mut self, frame: &SealedVideoFrame)
        requires
            old(self).wf(),
        ensures
            final(self).wf(),
            final(self)@ == after_observe(old(self)@, frame@),
    {
        let len: usize = frame.sealed.len();
        if frame.keyframe {
            self.run.clear();
            self.run.push(frame.clone());
            self.bytes = len;
            self.complete = true;
            proof {
                let run = sealed_views(self.run@);
                assert(run =~= seq![frame@]);
                assert(run.drop_last() =~= Seq::<SealedView>::empty());
                reveal_with_fuel(run_bytes, 2);
            }
            return;
        }
        if !self.complete {
            return;
        }
        if self.bytes > self.max_bytes || len > self.max_bytes - self.bytes {
            self.run.clear();
            self.bytes = 0;
            self.complete = false;
            return;
        }
        let ghost before = sealed_views(self.run@);
        self.bytes = self.bytes + len;
        self.run.push(frame.clone());
        proof {
            let run = sealed_views(self.run@);
            assert(run =~= before.push(frame@));
            assert(run.drop_last() =~= before);
        }
    }

    /// The complete run, keyframe first, if the cache can serve a decodable
    /// picture.
    pub fn run(&self) -> (r: Option<&[SealedVideoFrame]>)
        ensures
            match r {
                Some(run) => self@.run == Some(sealed_views(run@)),
                None => self@.run is None,
            },
    {
        if self.complete {
            Some(self.run.as_slice())
        } else {
            None
        }
    }
}

/// A queue in sync with room left takes every frame, delta or not, behind what is in
/// it, and drops nothing for it.
pub proof fn law_frames_are_queued_in_order(v: QueueView, frame: SealedView)
    requires
        v.sound(),
        frame.keyframe || !v.awaiting_keyframe,
        v.frames.len() < v.capacity + v.primed,
    ensures
        push_outcome(v, frame) is Queued,
        after_queue_push(v, frame).frames == v.frames.push(frame),
        after_queue_push(v, frame).dropped == v.dropped,
        !after_queue_push(v, frame).awaiting_keyframe,
        after_queue_push(v, frame).primed == v.primed,
        after_queue_push(v, frame).capacity == v.capacity,
{
}

/// A queue that overflows drops its whole run, so that what is sent next stands alone:
/// a keyframe that overflows it is kept, and the stream goes on with it; a delta is not,
/// and the queue waits for a keyframe. While it waits, deltas are skipped, one by one.
pub proof fn law_overflow_drops_the_run(v: QueueView, frame: SealedView)
    requires
        v.sound(),
    ensures
        v.frames.len() >= v.capacity + v.primed && frame.keyframe ==> {
            &&& after_queue_push(v, frame).frames == seq![frame]
            &&& !after_queue_push(v, frame).awaiting_keyframe
            &&& push_outcome(v, frame) is DroppedRun
        },
        v.frames.len() >= v.capacity + v.primed && !frame.keyframe ==> {
            &&& after_queue_push(v, frame).frames.len() == 0
            &&& after_queue_push(v, frame).awaiting_keyframe
            &&& push_outcome(v, frame) is DroppedRun
        },
        v.awaiting_keyframe && !frame.keyframe ==> {
            &&& after_queue_push(v, frame).frames == v.frames
            &&& after_queue_push(v, frame).awaiting_keyframe
            &&& push_outcome(v, frame) is SkippedAwaitingKeyframe
            &&& v.dropped < u64::MAX ==> after_queue_push(v, frame).dropped == v.dropped + 1
        },
        after_queue_push(v, frame).dropped >= v.dropped,
        push_outcome(v, frame) is Queued ==> after_queue_push(v, frame).dropped == v.dropped,
{
}

/// A queue waits for a keyframe only when it has to: after an overflow, after its
/// consumer lost the stream, and before the first. One that carries frames does not.
pub proof fn law_a_running_queue_does_not_wait(v: QueueView, frame: SealedView)
    requires
        v.sound(),
        !v.awaiting_keyframe,
    ensures
        after_queue_push(v, frame).awaiting_keyframe ==> v.frames.len() >= v.capacity + v.primed
            && !frame.keyframe,
        !after_queue_pop(v).awaiting_keyframe,
        after_reset(v).awaiting_keyframe,
        after_reset(v).frames.len() == 0,
        after_reset(v).sound(),
        after_queue_pop(v).sound(),
{
}

/// Frames leave a queue in the order in which they came, one at a time, and each makes
/// room for another.
pub proof fn law_frames_leave_in_order(v: QueueView)
    requires
        v.sound(),
        v.frames.len() > 0,
    ensures
        after_queue_pop(v).frames == v.frames.skip(1),
        after_queue_pop(v).dropped == v.dropped,
        after_queue_pop(v).capacity == v.capacity,
        after_queue_pop(v).awaiting_keyframe == v.awaiting_keyframe,
        after_queue_pop(v).primed == if v.primed > 0 {
            v.primed - 1
        } else {
            0
        },
{
    assert(v.frames.drop_first() =~= v.frames.skip(1));
}

/// The queue after frames were pushed one after the other.
pub open spec fn after_queue_pushes(v: QueueView, frames: Seq<SealedView>) -> QueueView
    decreases frames.len(),
{
    if frames.len() == 0 {
        v
    } else {
        after_queue_push(after_queue_pushes(v, frames.drop_last()), frames.last())
    }
}

/// A fresh queue carries a keyframe and whatever follows it, as far as it is deep,
/// whole and in order.
pub proof fn law_a_run_that_fits_is_carried_whole(capacity: int, frames: Seq<SealedView>)
    requires
        capacity >= 1,
        0 < frames.len() <= capacity,
        frames[0].keyframe,
    ensures
        after_queue_pushes(fresh_queue(capacity), frames).frames == frames,
        after_queue_pushes(fresh_queue(capacity), frames).dropped == 0,
        !after_queue_pushes(fresh_queue(capacity), frames).awaiting_keyframe,
        after_queue_pushes(fresh_queue(capacity), frames).capacity == capacity,
        after_queue_pushes(fresh_queue(capacity), frames).primed == 0,
    decreases frames.len(),
{
    let front = frames.drop_last();
    assert(front.push(frames.last()) =~= frames);
    if front.len() > 0 {
        law_a_run_that_fits_is_carried_whole(capacity, front);
        assert(front[0] == frames[0]);
    } else {
        assert(frames.last() == frames[0]);
    }
    let before = after_queue_pushes(fresh_queue(capacity), front);
    assert(before.frames =~= front);
    law_frames_are_queued_in_order(before, frames.last());
}

/// A queue is primed with any run that opens with a keyframe, whatever its length, and
/// with no other; what it held is dropped for it.
pub proof fn law_runs_prime_a_queue(v: QueueView, run: Seq<SealedView>)
    requires
        v.sound(),
    ensures
        run.len() > 0 && run[0].keyframe ==> after_prime(v, run).frames == run && !after_prime(
            v,
            run,
        ).awaiting_keyframe && after_prime(v, run).primed == run.len() && after_prime(v, run).sound(),
        run.len() == 0 || !run[0].keyframe ==> after_prime(v, run) == v,
{
}

/// A cache holds the keyframe last seen and every frame since, as long as they fit. A
/// keyframe is always held; a delta is held behind its run while the sum of their bytes
/// stays within the cap, and beyond it the run is given up until the next keyframe.
pub proof fn law_the_cache_keeps_what_fits(v: CacheView, frame: SealedView)
    ensures
        after_observe(v, frame).max_bytes == v.max_bytes,
        frame.keyframe ==> after_observe(v, frame).run == Some(seq![frame]),
        !frame.keyframe && v.run is None ==> after_observe(v, frame).run is None,
        v.run matches Some(run) ==> !frame.keyframe && run_bytes(run.push(frame)) <= v.max_bytes
            ==> after_observe(v, frame).run == Some(run.push(frame)),
        v.run matches Some(run) ==> !frame.keyframe && run_bytes(run.push(frame)) > v.max_bytes
            ==> after_observe(v, frame).run is None,
        v.run matches Some(run) ==> run_bytes(run.push(frame)) == run_bytes(run)
            + frame.sealed.len(),
        run_bytes(Seq::<SealedView>::empty()) == 0,
{
    if v.run is Some {
        let run = v.run->0;
        assert(run.push(frame).drop_last() =~= run);
    }
}

/// A whole picture, whatever its size, can be shaped: what comes of it is whole, even
/// and no wider than 1280. Only a picture without pixels, or one that is not whole, is
/// refused.
pub proof fn law_whole_pictures_can_be_shaped(v: PictureView)
    requires
        v.width > 0,
        v.height > 0,
        v.is_whole(),
    ensures
        !shape_fault(v),
        v.narrowed(1280).cropped().is_whole(),
        v.narrowed(1280).cropped().is_even(),
        v.narrowed(1280).cropped().width <= 1280,
{
    assert(v.bgra.len() > 0) by {
        assert(v.width * v.height * 4 > 0) by (nonlinear_arith)
            requires
                v.width > 0,
                v.height > 0,
        ;
    }
    law_narrowed_pictures_fit(v, 1280);
    crate::media::picture::law_cropping_keeps_pictures_whole(v.narrowed(1280));
}

/// A picture without pixels is refused.
pub proof fn law_empty_pictures_are_refused(v: PictureView)
    requires
        v.width == 0 || v.height == 0 || v.bgra.len() == 0,
    ensures
        shape_fault(v),
        shapeable(v),
{
}

/// The video clock ticks ninety thousand times a second, until it wraps.
pub proof fn law_the_video_clock_runs_at_its_rate(seconds: u128)
    requires
        seconds * 90_000 < 0x1_0000_0000,
    ensures
        ticks_of((seconds * 1_000_000_000) as u128) == seconds * 90_000,
{
    let nanos = (seconds * 1_000_000_000) as u128;
    assert(nanos == seconds * 1_000_000_000);
    assert((nanos * 9) % (u128::MAX + 1) == nanos * 9) by {
        vstd::arithmetic::div_mod::lemma_small_mod((nanos * 9) as nat, (u128::MAX + 1) as nat);
    }
    assert(nanos * 9 == (seconds * 90_000) * 100_000);
    assert(nanos * 9 / 100_000 == seconds * 90_000);
}

/// Two pictures that differ in size are never taken for the same.
pub proof fn law_sizes_tell_pictures_apart(a: PictureView, b: PictureView)
    ensures
        a.width != b.width || a.height != b.height ==> signature(a) != signature(b),
        a == b ==> signature(a) == signature(b),
        signature(a).2 == blake3_of(a.bgra),
{
}

/// Every frame of a list is seen, in order, as it is.
pub proof fn law_every_sealed_frame_is_seen(list: Seq<SealedVideoFrame>, i: int)
    ensures
        sealed_views(list).len() == list.len(),
        0 <= i < list.len() ==> sealed_views(list)[i] == list[i]@,
{
}

} // verus!

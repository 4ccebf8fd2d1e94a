//! The two ends of a screen share: what the sender does with each captured
//! picture, and what a viewer does with each frame that arrives.

use std::sync::Arc;

use vstd::prelude::*;

use crate::media::frame::{
    open, opened_frame, seal, sealable, sealed_frame, CallKey, FrameError, FrameHeader, MediaKind,
    FLAG_END_OF_PICTURE, FLAG_KEYFRAME,
};
use crate::media::picture::{CapturedFrame, PictureView};
use crate::media::video::{
    counted, signature, DecodedPicture, EncodedPicture, SealedVideoFrame, SealedView,
    StaticFrameGate,
};
use crate::shared::IdentityId;
use crate::sorted::{in_order, lemma_in_order, SortedMap};

verus! {

/// Totals of a sender.
#[derive(Debug, Clone, Copy, PartialEq, Eq, Structural)]
pub struct VideoSenderStats {
    pub encoded: u64,
    pub keyframes: u64,
    pub skipped_static: u64,
    /// Captured frames dropped unencoded because a newer one was pending.
    pub skipped_stale: u64,
    pub encoded_bytes: u64,
}

impl Default for VideoSenderStats {
    fn default() -> (r: Self)
        ensures
            r == (VideoSenderStats {
                encoded: 0,
                keyframes: 0,
                skipped_static: 0,
                skipped_stale: 0,
                encoded_bytes: 0,
            }),
    {
        VideoSenderStats {
            encoded: 0,
            keyframes: 0,
            skipped_static: 0,
            skipped_stale: 0,
            encoded_bytes: 0,
        }
    }
}

/// The live knob of a running sender: the feedback loop stores the adapted
/// target here, and the encode loop applies it on the next frame.
#[derive(Debug, Clone, Copy, PartialEq, Eq, Structural)]
pub struct VideoSenderControl {
    bitrate_bps: u32,
}

impl View for VideoSenderControl {
    type V = u32;

    closed spec fn view(&self) -> u32 {
        self.bitrate_bps
    }
}

impl VideoSenderControl {
    pub fn new(initial_bps: u32) -> (r: Self)
        ensures
            r@ == initial_bps,
    {
        VideoSenderControl { bitrate_bps: initial_bps }
    }

    pub fn set_bitrate(&mut self, bps: u32)
        ensures
            final(self)@ == bps,
    {
        self.bitrate_bps = bps;
    }

    pub fn bitrate(&self) -> (r: u32)
        ensures
            r == self@,
    {
        self.bitrate_bps
    }
}

/// The flags of a video frame: always the end of a picture.
pub open spec fn picture_flags(keyframe: bool) -> u8 {
    if keyframe {
        FLAG_END_OF_PICTURE | FLAG_KEYFRAME
    } else {
        FLAG_END_OF_PICTURE
    }
}

pub open spec fn picture_header(counter: u64, ts: u32, ssrc: u32, keyframe: bool) -> FrameHeader {
    FrameHeader { counter, ts, ssrc, kind: MediaKind::Video, flags: picture_flags(keyframe) }
}

/// Whether the flags mark a keyframe.
pub open spec fn marks_keyframe(flags: u8) -> bool {
    flags & FLAG_KEYFRAME != 0
}

/// What the sender marks is what a forwarder and a viewer read.
pub proof fn law_keyframe_flag_reads_back(keyframe: bool)
    ensures
        marks_keyframe(picture_flags(keyframe)) == keyframe,
{
    assert((0b01u8 | 0b10u8) & 0b10u8 != 0 && 0b01u8 & 0b10u8 == 0) by (bit_vector);
}

pub fn is_keyframe(header: &FrameHeader) -> (r: bool)
    ensures
        r == marks_keyframe(header.flags),
{
    header.flags & FLAG_KEYFRAME != 0
}

#[verifier::ext_equal]
pub ghost struct VideoSenderView {
    /// The signature of the last picture.
    pub last: Option<(int, int, Seq<u8>)>,
    pub ssrc: u32,
    pub counter: u64,
    pub applied_bitrate: u32,
    pub totals: VideoSenderStats,
}

/// Static frames cost nothing, unless a viewer needs a keyframe, which a static
/// screen must not starve.
pub open spec fn worth_encoding(
    v: VideoSenderView,
    picture: PictureView,
    keyframe_wanted: bool,
) -> bool {
    v.last != Some(signature(picture)) || keyframe_wanted
}

/// The sender after a captured picture was looked at.
pub open spec fn after_capture(
    v: VideoSenderView,
    picture: PictureView,
    keyframe_wanted: bool,
) -> VideoSenderView {
    VideoSenderView {
        last: Some(signature(picture)),
        totals: if worth_encoding(v, picture, keyframe_wanted) {
            v.totals
        } else {
            VideoSenderStats { skipped_static: counted(v.totals.skipped_static + 1), ..v.totals }
        },
        ..v
    }
}

/// The sender after it sealed a picture to `len` bytes.
pub open spec fn after_sealing(v: VideoSenderView, keyframe: bool, len: nat) -> VideoSenderView {
    VideoSenderView {
        counter: (v.counter + 1) as u64,
        totals: VideoSenderStats {
            encoded: counted(v.totals.encoded + 1),
            encoded_bytes: counted(v.totals.encoded_bytes + len),
            keyframes: if keyframe {
                counted(v.totals.keyframes + 1)
            } else {
                v.totals.keyframes
            },
            ..v.totals
        },
        ..v
    }
}

/// A picture seen twice in a row is encoded at most once, unless a keyframe is
/// wanted.
pub proof fn law_static_screen_costs_nothing(v: VideoSenderView, picture: PictureView, wanted: bool)
    ensures
        !worth_encoding(after_capture(v, picture, wanted), picture, false),
        worth_encoding(after_capture(v, picture, wanted), picture, true),
{
}

/// A picture is encoded if it is the first, if it differs from the one before, or if
/// a keyframe is wanted; otherwise it is left out, which is counted. Whichever it
/// is, the next picture is held against this one, and nothing else moves.
pub proof fn law_changes_are_encoded(v: VideoSenderView, picture: PictureView, wanted: bool)
    ensures
        v.last is None ==> worth_encoding(v, picture, wanted),
        v.last != Some(signature(picture)) ==> worth_encoding(v, picture, wanted),
        wanted ==> worth_encoding(v, picture, wanted),
        v.last == Some(signature(picture)) && !wanted ==> !worth_encoding(v, picture, wanted),
        ({
            let w = after_capture(v, picture, wanted);
            &&& w.last == Some(signature(picture))
            &&& w.ssrc == v.ssrc
            &&& w.counter == v.counter
            &&& w.applied_bitrate == v.applied_bitrate
            &&& worth_encoding(v, picture, wanted) ==> w.totals == v.totals
            &&& !worth_encoding(v, picture, wanted) && v.totals.skipped_static < u64::MAX ==> w.totals
                == (VideoSenderStats {
                skipped_static: (v.totals.skipped_static + 1) as u64,
                ..v.totals
            })
        }),
{
}

/// Every sealed picture has a counter of its own, one above the last, under one
/// ssrc; it is counted, with its bytes, and as a keyframe if it is one.
pub proof fn law_each_picture_has_its_counter(v: VideoSenderView, keyframe: bool, len: nat)
    requires
        v.counter < u64::MAX,
        v.totals.encoded < u64::MAX,
        v.totals.keyframes < u64::MAX,
        v.totals.encoded_bytes + len <= u64::MAX,
    ensures
        ({
            let w = after_sealing(v, keyframe, len);
            &&& w.counter == v.counter + 1
            &&& w.ssrc == v.ssrc
            &&& w.last == v.last
            &&& w.applied_bitrate == v.applied_bitrate
            &&& w.totals.encoded == v.totals.encoded + 1
            &&& w.totals.encoded_bytes == v.totals.encoded_bytes + len
            &&& w.totals.keyframes == v.totals.keyframes + if keyframe {
                1int
            } else {
                0
            }
            &&& w.totals.skipped_static == v.totals.skipped_static
            &&& w.totals.skipped_stale == v.totals.skipped_stale
        }),
{
}

/// The sharer's side: leave out what did not change, encode once, seal once.
#[derive(Debug)]
pub struct VideoSender {
    gate: StaticFrameGate,
    ssrc: u32,
    counter: u64,
    applied_bitrate: u32,
    totals: VideoSenderStats,
}

impl View for VideoSender {
    type V = VideoSenderView;

    closed spec fn view(&self) -> VideoSenderView {
        VideoSenderView {
            last: self.gate@,
            ssrc: self.ssrc,
            counter: self.counter,
            applied_bitrate: self.applied_bitrate,
            totals: self.totals,
        }
    }
}

impl VideoSender {
    pub fn new(ssrc: u32, bitrate: u32) -> (r: Self)
        ensures
            r@ == (VideoSenderView {
                last: None,
                ssrc,
                counter: 0,
                applied_bitrate: bitrate,
                totals: VideoSenderStats {
                    encoded: 0,
                    keyframes: 0,
                    skipped_static: 0,
                    skipped_stale: 0,
                    encoded_bytes: 0,
                },
            }),
    {
        VideoSender {
            gate: StaticFrameGate::default(),
            ssrc,
            counter: 0,
            applied_bitrate: bitrate,
            totals: VideoSenderStats::default(),
        }
    }

    /// A captured frame was replaced by a newer one before it was looked at.
    pub fn skip_stale(&mut self)
        ensures
            final(self)@ == (VideoSenderView {
                totals: VideoSenderStats {
                    skipped_stale: counted(old(self)@.totals.skipped_stale + 1),
                    ..old(self)@.totals
                },
                ..old(self)@
            }),
    {
        self.totals.skipped_stale = self.totals.skipped_stale.saturating_add(1);
    }

    /// The bitrate to set on the encoder, if the wanted one is not in force.
    pub fn retarget(&mut self, wanted: u32) -> (r: Option<u32>)
        ensures
            r == (if wanted != old(self)@.applied_bitrate {
                Some(wanted)
            } else {
                None
            }),
            final(self)@ == (VideoSenderView { applied_bitrate: wanted, ..old(self)@ }),
    {
        if wanted != self.applied_bitrate {
            self.applied_bitrate = wanted;
            Some(wanted)
        } else {
            None
        }
    }

    /// Whether the picture is to be encoded.
    pub fn consider(&mut self, frame: &CapturedFrame, keyframe_wanted: bool) -> (r: bool)
        ensures
            r == worth_encoding(old(self)@, frame@, keyframe_wanted),
            final(self)@ == after_capture(old(self)@, frame@, keyframe_wanted),
    {
        let changed: bool = self.gate.changed(frame);
        if !changed && !keyframe_wanted {
            self.totals.skipped_static = self.totals.skipped_static.saturating_add(1);
            return false;
        }
        true
    }

    /// Whether there is a counter left to seal under.
    pub fn has_counter(&self) -> (r: bool)
        ensures
            r == (self@.counter < u64::MAX),
    {
        self.counter < u64::MAX
    }

    /// Seals one encoded picture, stamped `ts`, under the next counter. A picture
    /// that no frame takes ends the share.
    pub fn seal_picture(&mut self, key: &CallKey, ts: u32, picture: &EncodedPicture) -> (r: Option<
        SealedVideoFrame,
    >)
        requires
            old(self)@.counter < u64::MAX,
        ensures
            match r {
                Some(frame) => {
                    &&& sealable(picture.bytes@.len())
                    &&& frame@ == (SealedView {
                        sealed: sealed_frame(
                            key@,
                            picture_header(
                                old(self)@.counter,
                                ts,
                                old(self)@.ssrc,
                                picture.keyframe,
                            ),
                            picture.bytes@,
                        ),
                        keyframe: picture.keyframe,
                    })
                    &&& opened_frame(key@, frame@.sealed) == Ok::<
                        (FrameHeader, Seq<u8>),
                        FrameError,
                    >(
                        (
                            picture_header(
                                old(self)@.counter,
                                ts,
                                old(self)@.ssrc,
                                picture.keyframe,
                            ),
                            picture.bytes@,
                        ),
                    )
                    &&& final(self)@ == after_sealing(
                        old(self)@,
                        picture.keyframe,
                        frame@.sealed.len(),
                    )
                },
                None => !sealable(picture.bytes@.len()) && final(self)@ == old(self)@,
            },
    {
        let flags: u8 = if picture.keyframe {
            FLAG_END_OF_PICTURE | FLAG_KEYFRAME
        } else {
            FLAG_END_OF_PICTURE
        };
        let header = FrameHeader {
            counter: self.counter,
            ts,
            ssrc: self.ssrc,
            kind: MediaKind::Video,
            flags,
        };
        match seal(key, header, &picture.bytes) {
            Ok(sealed) => {
                self.counter = self.counter + 1;
                self.totals.encoded = self.totals.encoded.saturating_add(1);
                self.totals.encoded_bytes = self.totals.encoded_bytes.saturating_add(
                    sealed.len() as u64,
                );
                if picture.keyframe {
                    self.totals.keyframes = self.totals.keyframes.saturating_add(1);
                }
                Some(SealedVideoFrame::new(Arc::new(sealed), picture.keyframe))
            },
            Err(_) => None,
        }
    }

    pub fn totals(&self) -> (r: VideoSenderStats)
        ensures
            r == self@.totals,
    {
        self.totals
    }
}

/// Totals of a viewer.
#[derive(Debug, Clone, Copy, PartialEq, Eq, Structural)]
pub struct VideoReceiverStats {
    pub presented: u64,
    /// Frames decoded but not presented because a newer picture of the same
    /// sender was pending.
    pub presented_skipped: u64,
    /// Frames that failed authentication, or are no video.
    pub rejected: u64,
    /// Deltas discarded while waiting for a sender's first keyframe.
    pub discarded_pre_keyframe: u64,
    /// Frames with a counter that does not advance.
    pub stale: u64,
}

impl Default for VideoReceiverStats {
    fn default() -> (r: Self)
        ensures
            r == no_video_yet(),
    {
        VideoReceiverStats {
            presented: 0,
            presented_skipped: 0,
            rejected: 0,
            discarded_pre_keyframe: 0,
            stale: 0,
        }
    }
}

pub open spec fn no_video_yet() -> VideoReceiverStats {
    VideoReceiverStats {
        presented: 0,
        presented_skipped: 0,
        rejected: 0,
        discarded_pre_keyframe: 0,
        stale: 0,
    }
}

/// Where the stream of one sender stands: whether a keyframe was seen, and the
/// counter that comes next.
#[derive(Debug, Clone, Copy, PartialEq, Eq, Structural)]
pub struct RxLane {
    pub synced: bool,
    pub next_counter: u64,
}

pub ghost enum Verdict {
    Rejected,
    Stale,
    BeforeKeyframe,
    Decode,
}

#[verifier::ext_equal]
pub ghost struct VideoReceiverView {
    pub lanes: Map<IdentityId, RxLane>,
    /// The newest decoded picture of each sender, with its capture stamp.
    pub pending: Map<IdentityId, (DecodedPicture, u32)>,
    pub stats: VideoReceiverStats,
}

pub open spec fn lane_of(v: VideoReceiverView, from: IdentityId) -> RxLane {
    if v.lanes.contains_key(from) {
        v.lanes[from]
    } else {
        RxLane { synced: false, next_counter: 0 }
    }
}

/// What is done with an arrived frame. Each sender's stream is ordered: it opens
/// with a keyframe, and its counters advance.
pub open spec fn verdict(
    v: VideoReceiverView,
    from: IdentityId,
    opened: Result<(FrameHeader, Seq<u8>), FrameError>,
) -> Verdict {
    match opened {
        Err(_) => Verdict::Rejected,
        Ok((header, _)) => {
            let lane = lane_of(v, from);
            if header.kind != MediaKind::Video {
                Verdict::Rejected
            } else if lane.synced && header.counter < lane.next_counter {
                Verdict::Stale
            } else if !lane.synced && !marks_keyframe(header.flags) {
                Verdict::BeforeKeyframe
            } else {
                Verdict::Decode
            }
        },
    }
}

/// The viewer after a frame arrived.
pub open spec fn after_arrival(
    v: VideoReceiverView,
    from: IdentityId,
    opened: Result<(FrameHeader, Seq<u8>), FrameError>,
) -> VideoReceiverView {
    match verdict(v, from, opened) {
        Verdict::Rejected => VideoReceiverView {
            stats: VideoReceiverStats { rejected: counted(v.stats.rejected + 1), ..v.stats },
            ..v
        },
        Verdict::Stale => VideoReceiverView {
            stats: VideoReceiverStats { stale: counted(v.stats.stale + 1), ..v.stats },
            ..v
        },
        Verdict::BeforeKeyframe => VideoReceiverView {
            lanes: v.lanes.insert(from, lane_of(v, from)),
            stats: VideoReceiverStats {
                discarded_pre_keyframe: counted(v.stats.discarded_pre_keyframe + 1),
                ..v.stats
            },
            ..v
        },
        Verdict::Decode => VideoReceiverView {
            lanes: v.lanes.insert(
                from,
                RxLane { synced: true, next_counter: counted(opened->Ok_0.0.counter + 1) },
            ),
            ..v
        },
    }
}

/// A sender's first frame that is decoded is a keyframe.
pub proof fn law_first_picture_is_a_keyframe(
    v: VideoReceiverView,
    from: IdentityId,
    header: FrameHeader,
    payload: Seq<u8>,
)
    requires
        !lane_of(v, from).synced,
        verdict(v, from, Ok::<(FrameHeader, Seq<u8>), FrameError>((header, payload))) is Decode,
    ensures
        marks_keyframe(header.flags),
{
}

/// A frame that was decoded is not decoded again: nothing at or below its
/// counter passes after it, of the counters that have a successor.
pub proof fn law_replays_are_stale(
    v: VideoReceiverView,
    from: IdentityId,
    header: FrameHeader,
    payload: Seq<u8>,
    replay: FrameHeader,
    again: Seq<u8>,
)
    requires
        verdict(v, from, Ok::<(FrameHeader, Seq<u8>), FrameError>((header, payload))) is Decode,
        header.counter < u64::MAX,
        replay.kind == MediaKind::Video,
        replay.counter <= header.counter,
    ensures
        verdict(
            after_arrival(v, from, Ok::<(FrameHeader, Seq<u8>), FrameError>((header, payload))),
            from,
            Ok::<(FrameHeader, Seq<u8>), FrameError>((replay, again)),
        ) is Stale,
{
}

/// One sender's trouble never disturbs another's stream.
pub proof fn law_senders_are_independent(
    v: VideoReceiverView,
    from: IdentityId,
    other: IdentityId,
    opened: Result<(FrameHeader, Seq<u8>), FrameError>,
)
    requires
        from != other,
    ensures
        lane_of(after_arrival(v, from, opened), other) == lane_of(v, other),
{
}

/// A frame that arrived at a viewer: from whom, and what opening it gave.
pub ghost struct Arrival {
    pub from: IdentityId,
    pub opened: Result<(FrameHeader, Seq<u8>), FrameError>,
}

/// A viewer that nothing reached yet.
pub open spec fn fresh_viewer() -> VideoReceiverView {
    VideoReceiverView { lanes: Map::empty(), pending: Map::empty(), stats: no_video_yet() }
}

/// The viewer after a run of arrivals.
pub open spec fn after_arrivals(run: Seq<Arrival>) -> VideoReceiverView
    decreases run.len(),
{
    if run.len() == 0 {
        fresh_viewer()
    } else {
        after_arrival(after_arrivals(run.drop_last()), run.last().from, run.last().opened)
    }
}

/// Whether the arrival at `i` went to the decoder.
pub open spec fn was_decoded(run: Seq<Arrival>, i: int) -> bool {
    verdict(after_arrivals(run.take(i)), run[i].from, run[i].opened) is Decode
}

/// Whether an arrival is an authentic frame of video.
pub open spec fn is_video(a: Arrival) -> bool {
    a.opened matches Ok((header, _)) && header.kind == MediaKind::Video
}

/// No counter is the last that there is.
pub open spec fn has_successors(run: Seq<Arrival>) -> bool {
    forall|i: int|
        0 <= i < run.len() ==> ((#[trigger] run[i]).opened matches Ok((header, _)) ==> header.counter
            < u64::MAX)
}

/// Where a sender's stream stands after a run: it is running if and only if a frame
/// of theirs was decoded, and what comes next is what follows the highest that was.
proof fn lemma_lane_after(run: Seq<Arrival>, from: IdentityId)
    requires
        has_successors(run),
    ensures
        ({
            let lane = lane_of(after_arrivals(run), from);
            &&& lane.synced <==> exists|j: int|
                0 <= j < run.len() && run[j].from == from && #[trigger] was_decoded(run, j)
            &&& forall|j: int|
                0 <= j < run.len() && run[j].from == from && #[trigger] was_decoded(run, j)
                    ==> run[j].opened->Ok_0.0.counter < lane.next_counter
            &&& lane.synced ==> exists|j: int|
                0 <= j < run.len() && run[j].from == from && #[trigger] was_decoded(run, j)
                    && run[j].opened->Ok_0.0.counter + 1 == lane.next_counter
        }),
    decreases run.len(),
{
    if run.len() > 0 {
        let front = run.drop_last();
        let last = run.len() - 1;
        assert forall|i: int| 0 <= i < front.len() implies ((#[trigger] front[i]).opened matches Ok((header, _))
            ==> header.counter < u64::MAX) by {
            assert(front[i] == run[i]);
        }
        lemma_lane_after(front, from);
        assert forall|j: int| 0 <= j < front.len() implies #[trigger] was_decoded(run, j) == was_decoded(
            front,
            j,
        ) && run[j] == front[j] by {
            assert(run.take(j) =~= front.take(j));
        }
        assert(run.take(last) =~= front);
        let before = lane_of(after_arrivals(front), from);
        let lane = lane_of(after_arrivals(run), from);
        assert(run.last() == run[last]);
        if run[last].from == from && was_decoded(run, last) {
            assert forall|j: int|
                0 <= j < run.len() && run[j].from == from && #[trigger] was_decoded(run, j) implies run[j].opened->Ok_0.0.counter
                < lane.next_counter by {
                if j < front.len() {
                    assert(was_decoded(front, j));
                    assert(before.synced);
                }
            }
        } else {
            assert(lane == before);
            if lane.synced {
                let j = choose|j: int|
                    0 <= j < front.len() && front[j].from == from && #[trigger] was_decoded(front, j)
                        && front[j].opened->Ok_0.0.counter + 1 == before.next_counter;
                assert(was_decoded(run, j));
            }
            assert forall|j: int|
                0 <= j < run.len() && run[j].from == from && #[trigger] was_decoded(run, j) implies run[j].opened->Ok_0.0.counter
                < lane.next_counter by {
                assert(j < front.len());
                assert(was_decoded(front, j));
            }
            if exists|j: int|
                0 <= j < run.len() && run[j].from == from && #[trigger] was_decoded(run, j) {
                let j = choose|j: int|
                    0 <= j < run.len() && run[j].from == from && #[trigger] was_decoded(run, j);
                assert(was_decoded(front, j));
            }
        }
    }
}

/// Which frames of a run a viewer decodes. An authentic frame of video goes to the
/// decoder if and only if it opens its sender's stream with a keyframe, or the
/// stream is running, and its counter is above those of all the frames of that
/// sender that went before it. How far above does not matter: a gap never stops a
/// stream, and neither does what other senders do.
pub proof fn law_gaps_do_not_stop_a_stream(run: Seq<Arrival>, i: int)
    requires
        0 <= i < run.len(),
        has_successors(run),
    ensures
        was_decoded(run, i) <==> {
            &&& is_video(run[i])
            &&& marks_keyframe(run[i].opened->Ok_0.0.flags) || exists|j: int|
                0 <= j < i && run[j].from == run[i].from && #[trigger] was_decoded(run, j)
            &&& forall|j: int|
                0 <= j < i && run[j].from == run[i].from && #[trigger] was_decoded(run, j)
                    ==> run[j].opened->Ok_0.0.counter < run[i].opened->Ok_0.0.counter
        },
{
    let front = run.take(i);
    let from = run[i].from;
    assert forall|k: int| 0 <= k < front.len() implies ((#[trigger] front[k]).opened matches Ok((header, _))
        ==> header.counter < u64::MAX) by {
        assert(front[k] == run[k]);
    }
    lemma_lane_after(front, from);
    assert forall|j: int| 0 <= j < i implies #[trigger] was_decoded(run, j) == was_decoded(front, j)
        && run[j] == front[j] by {
        assert(run.take(j) =~= front.take(j));
    }
    let lane = lane_of(after_arrivals(front), from);
    if lane.synced {
        let j = choose|j: int|
            0 <= j < front.len() && front[j].from == from && #[trigger] was_decoded(front, j)
                && front[j].opened->Ok_0.0.counter + 1 == lane.next_counter;
        assert(was_decoded(run, j));
        assert forall|k: int|
            0 <= k < i && run[k].from == from && #[trigger] was_decoded(run, k) implies run[k].opened->Ok_0.0.counter
            < lane.next_counter by {
            assert(was_decoded(front, k));
        }
    } else {
        assert forall|k: int| 0 <= k < i && run[k].from == from implies !#[trigger] was_decoded(run, k) by {
            if was_decoded(run, k) {
                assert(was_decoded(front, k));
            }
        }
    }
}

/// A stream that runs takes every later frame: after a frame was decoded, each
/// authentic frame of the sender with a higher counter is decoded too.
pub proof fn law_later_frames_are_decoded(
    v: VideoReceiverView,
    from: IdentityId,
    header: FrameHeader,
    payload: Seq<u8>,
    later: FrameHeader,
    next: Seq<u8>,
)
    requires
        verdict(v, from, Ok::<(FrameHeader, Seq<u8>), FrameError>((header, payload))) is Decode,
        later.kind == MediaKind::Video,
        later.counter > header.counter,
    ensures
        verdict(
            after_arrival(v, from, Ok::<(FrameHeader, Seq<u8>), FrameError>((header, payload))),
            from,
            Ok::<(FrameHeader, Seq<u8>), FrameError>((later, next)),
        ) is Decode,
{
}

/// What becomes of a frame, by where its sender's stream stands. A keyframe opens a
/// stream that is not running, whatever its counter; a running stream takes every
/// frame from the next counter on, and calls stale what is below it. Nothing that
/// is not authentic video gets that far.
pub proof fn law_authentic_frames_are_admitted(
    v: VideoReceiverView,
    from: IdentityId,
    header: FrameHeader,
    payload: Seq<u8>,
)
    requires
        header.kind == MediaKind::Video,
    ensures
        ({
            let given = verdict(v, from, Ok::<(FrameHeader, Seq<u8>), FrameError>((header, payload)));
            let running = v.lanes.contains_key(from) && v.lanes[from].synced;
            &&& running && header.counter >= v.lanes[from].next_counter ==> given is Decode
            &&& running && header.counter < v.lanes[from].next_counter ==> given is Stale
            &&& !running && header.flags & 2u8 != 0 ==> given is Decode
            &&& !running && header.flags & 2u8 == 0 ==> given is BeforeKeyframe
        }),
{
}

/// A frame that fails to open, or is no video, is rejected, whoever it is from and
/// wherever their stream stands; and only such a frame is.
pub proof fn law_only_foreign_frames_are_rejected(
    v: VideoReceiverView,
    from: IdentityId,
    opened: Result<(FrameHeader, Seq<u8>), FrameError>,
)
    ensures
        verdict(v, from, opened) is Rejected <==> (opened is Err || opened->Ok_0.0.kind
            != MediaKind::Video),
{
}

/// What an arrival counts as: one total moves, by one, and it is that of what became
/// of the frame; a frame that goes to the decoder moves none. Pictures that wait to
/// be shown go on waiting, and what is not decoded moves no stream on.
pub proof fn law_arrivals_are_counted_once(
    v: VideoReceiverView,
    from: IdentityId,
    opened: Result<(FrameHeader, Seq<u8>), FrameError>,
)
    ensures
        ({
            let w = after_arrival(v, from, opened);
            let given = verdict(v, from, opened);
            let plus = |n: u64|
                if n < u64::MAX {
                    n + 1
                } else {
                    n as int
                };
            &&& w.pending == v.pending
            &&& w.stats.presented == v.stats.presented
            &&& w.stats.presented_skipped == v.stats.presented_skipped
            &&& w.stats.rejected == (if given is Rejected {
                plus(v.stats.rejected)
            } else {
                v.stats.rejected as int
            })
            &&& w.stats.stale == (if given is Stale {
                plus(v.stats.stale)
            } else {
                v.stats.stale as int
            })
            &&& w.stats.discarded_pre_keyframe == (if given is BeforeKeyframe {
                plus(v.stats.discarded_pre_keyframe)
            } else {
                v.stats.discarded_pre_keyframe as int
            })
            &&& !(given is Decode) ==> lane_of(w, from) == lane_of(v, from)
            &&& given is Decode && opened->Ok_0.0.counter < u64::MAX ==> w.lanes.contains_key(from)
                && w.lanes[from].synced && w.lanes[from].next_counter == opened->Ok_0.0.counter + 1
        }),
{
}

/// A frame that goes to the decoder.
#[derive(Debug)]
pub struct Admitted {
    pub payload: Vec<u8>,
    pub ts: u32,
}

/// The viewer's side: verify, gate on the first keyframe, decode everything, and
/// present only the newest picture of each sender.
#[derive(Debug)]
pub struct VideoReceiver {
    lanes: SortedMap<IdentityId, RxLane>,
    pending: SortedMap<IdentityId, (DecodedPicture, u32)>,
    stats: VideoReceiverStats,
}

impl View for VideoReceiver {
    type V = VideoReceiverView;

    closed spec fn view(&self) -> VideoReceiverView {
        VideoReceiverView { lanes: self.lanes@, pending: self.pending@, stats: self.stats }
    }
}

impl VideoReceiver {
    pub closed spec fn wf(&self) -> bool {
        self.lanes.wf() && self.pending.wf()
    }

    pub fn new() -> (r: Self)
        ensures
            r.wf(),
            r@ == (VideoReceiverView {
                lanes: Map::empty(),
                pending: Map::empty(),
                stats: no_video_yet(),
            }),
    {
        VideoReceiver {
            lanes: SortedMap::new(),
            pending: SortedMap::new(),
            stats: VideoReceiverStats::default(),
        }
    }

    /// Takes in a frame that was opened, or failed to.
    pub fn on_opened(
        &mut self,
        from: IdentityId,
        opened: Result<(FrameHeader, Vec<u8>), FrameError>,
    ) -> (r: Option<Admitted>)
        requires
            old(self).wf(),
        ensures
            final(self).wf(),
            final(self)@ == after_arrival(old(self)@, from, opened_view(opened)),
            match r {
                Some(a) => {
                    &&& verdict(old(self)@, from, opened_view(opened)) is Decode
                    &&& a.ts == opened->Ok_0.0.ts
                    &&& a.payload@ == opened->Ok_0.1@
                },
                None => verdict(old(self)@, from, opened_view(opened)) !is Decode,
            },
    {
        let (header, payload) = match opened {
            Ok(o) => o,
            Err(_) => {
                self.stats.rejected = self.stats.rejected.saturating_add(1);
                return None;
            },
        };
        if header.kind != MediaKind::Video {
            self.stats.rejected = self.stats.rejected.saturating_add(1);
            return None;
        }
        let lane = match self.lanes.get(&from) {
            Some(l) => *l,
            None => RxLane { synced: false, next_counter: 0 },
        };
        if lane.synced && header.counter < lane.next_counter {
            self.stats.stale = self.stats.stale.saturating_add(1);
            return None;
        }
        if !lane.synced && !is_keyframe(&header) {
            self.lanes.insert(from, lane);
            self.stats.discarded_pre_keyframe = self.stats.discarded_pre_keyframe.saturating_add(1);
            return None;
        }
        self.lanes.insert(
            from,
            RxLane { synced: true, next_counter: header.counter.saturating_add(1) },
        );
        Some(Admitted { payload, ts: header.ts })
    }

    /// Takes in a sealed frame.
    pub fn on_frame(&mut self, key: &CallKey, from: IdentityId, sealed: &[u8]) -> (r: Option<
        Admitted,
    >)
        requires
            old(self).wf(),
        ensures
            final(self).wf(),
            final(self)@ == after_arrival(old(self)@, from, opened_frame(key@, sealed@)),
            match r {
                Some(a) => {
                    &&& verdict(old(self)@, from, opened_frame(key@, sealed@)) is Decode
                    &&& a.ts == opened_frame(key@, sealed@)->Ok_0.0.ts
                    &&& a.payload@ == opened_frame(key@, sealed@)->Ok_0.1
                },
                None => verdict(old(self)@, from, opened_frame(key@, sealed@)) !is Decode,
            },
    {
        self.on_opened(from, open(key, sealed))
    }

    /// Holds a decoded picture until it is presented. One of the same sender that
    /// was still held is superseded.
    pub fn hold(&mut self, from: IdentityId, picture: DecodedPicture, ts: u32)
        requires
            old(self).wf(),
        ensures
            final(self).wf(),
            final(self)@ == (VideoReceiverView {
                pending: old(self)@.pending.insert(from, (picture, ts)),
                stats: if old(self)@.pending.contains_key(from) {
                    VideoReceiverStats {
                        presented_skipped: counted(old(self)@.stats.presented_skipped + 1),
                        ..old(self)@.stats
                    }
                } else {
                    old(self)@.stats
                },
                ..old(self)@
            }),
    {
        if self.pending.contains_key(&from) {
            self.stats.presented_skipped = self.stats.presented_skipped.saturating_add(1);
        }
        self.pending.insert(from, (picture, ts));
    }

    /// Hands out the held pictures, sender by sender.
    pub fn present(&mut self) -> (r: Vec<(IdentityId, (DecodedPicture, u32))>)
        requires
            old(self).wf(),
        ensures
            final(self).wf(),
            r@ == in_order(old(self)@.pending.dom()).map_values(
                |p: IdentityId| (p, old(self)@.pending[p]),
            ),
            final(self)@ == (VideoReceiverView {
                pending: Map::empty(),
                stats: VideoReceiverStats {
                    presented: counted(
                        old(self)@.stats.presented + old(self)@.pending.dom().len(),
                    ),
                    ..old(self)@.stats
                },
                ..old(self)@
            }),
    {
        let keys: Vec<IdentityId> = self.pending.keys();
        let ghost start = self.pending@;
        let mut r: Vec<(IdentityId, (DecodedPicture, u32))> = Vec::new();
        let mut i: usize = 0;
        proof {
            self.pending.lemma_walk();
            lemma_in_order(start.dom(), keys@);
        }
        while i < keys.len()
            invariant
                i <= keys@.len(),
                keys@.no_duplicates(),
                forall|p: IdentityId| keys@.contains(p) <==> start.contains_key(p),
                self.pending.wf(),
                self.lanes == old(self).lanes,
                self.stats == (VideoReceiverStats {
                    presented: counted(old(self)@.stats.presented + i),
                    ..old(self)@.stats
                }),
                r@.len() == i,
                forall|j: int|
                    0 <= j < i ==> #[trigger] r@[j] == (keys@[j], start[keys@[j]]),
                forall|p: IdentityId| #[trigger]
                    self.pending@.contains_key(p) <==> start.contains_key(p) && !keys@.take(
                        i as int,
                    ).contains(p),
                forall|p: IdentityId| #[trigger]
                    self.pending@.contains_key(p) ==> self.pending@[p] == start[p],
            decreases keys@.len() - i,
        {
            let k: IdentityId = keys[i];
            proof {
                let t = keys@.take(i as int);
                let u = keys@.take(i + 1);
                assert(keys@.contains(k));
                assert(!t.contains(k)) by {
                    if t.contains(k) {
                        let j = choose|j: int| 0 <= j < t.len() && t[j] == k;
                        assert(keys@[j] == keys@[i as int]);
                    }
                }
                assert forall|p: IdentityId| u.contains(p) <==> t.contains(p) || p == k by {
                    if t.contains(p) {
                        let j = choose|j: int| 0 <= j < t.len() && t[j] == p;
                        assert(u[j] == p);
                    }
                    if p == k {
                        assert(u[i as int] == p);
                    }
                    if u.contains(p) && p != k {
                        let j = choose|j: int| 0 <= j < u.len() && u[j] == p;
                        assert(t[j] == p);
                    }
                }
            }
            if let Some(held) = self.pending.remove(&k) {
                r.push((k, held));
            }
            self.stats.presented = self.stats.presented.saturating_add(1);
            i = i + 1;
        }
        proof {
            assert(keys@.take(i as int) =~= keys@);
            assert(self.pending@ =~= Map::<IdentityId, (DecodedPicture, u32)>::empty());
            assert(r@ =~= in_order(start.dom()).map_values(|p: IdentityId| (p, start[p])));
        }
        r
    }

    /// Whether as many pictures as expected were presented.
    pub fn has_presented(&self, expected: Option<u64>) -> (r: bool)
        ensures
            r == (expected matches Some(n) && self@.stats.presented >= n),
    {
        match expected {
            Some(n) => self.stats.presented >= n,
            None => false,
        }
    }

    pub fn stats(&self) -> (r: VideoReceiverStats)
        ensures
            r == self@.stats,
    {
        self.stats
    }
}

/// What opening gave, with the payload as bytes.
pub open spec fn opened_view(opened: Result<(FrameHeader, Vec<u8>), FrameError>) -> Result<
    (FrameHeader, Seq<u8>),
    FrameError,
> {
    match opened {
        Ok((header, payload)) => Ok((header, payload@)),
        Err(e) => Err(e),
    }
}

/// A frame that was opened keeps its header and its payload on the way in.
pub proof fn law_opened_frames_come_in_as_they_are(header: FrameHeader, payload: Vec<u8>, e: FrameError)
    ensures
        opened_view(Ok::<(FrameHeader, Vec<u8>), FrameError>((header, payload))) == Ok::<
            (FrameHeader, Seq<u8>),
            FrameError,
        >((header, payload@)),
        opened_view(Err::<(FrameHeader, Vec<u8>), FrameError>(e)) == Err::<
            (FrameHeader, Seq<u8>),
            FrameError,
        >(e),
{
}

/// A picture goes out as video, under its counter, its time and its stream, as the end of a
/// picture, and marked as a keyframe if it is one.
pub proof fn law_pictures_are_marked(counter: u64, ts: u32, ssrc: u32, keyframe: bool)
    ensures
        ({
            let h = picture_header(counter, ts, ssrc, keyframe);
            &&& h.kind == MediaKind::Video
            &&& h.counter == counter
            &&& h.ts == ts
            &&& h.ssrc == ssrc
            &&& h.flags == (if keyframe {
                3u8
            } else {
                1u8
            })
        }),
{
    assert(0b01u8 | 0b10u8 == 3u8) by (bit_vector);
}

} // verus!

//! The screen-share pipeline.

use std::sync::Arc;

use mikall::media::fanout::{LaneStep, VideoFanout};
use mikall::media::frame::{
    open, seal, CallKey, FrameHeader, MediaKind, FLAG_END_OF_PICTURE, FLAG_KEYFRAME,
};
use mikall::media::picture::{
    crop_to_even, downscale_to_max_width, shape_for_encode, CapturedFrame, MAX_WIDTH,
};
use mikall::media::stream::{
    is_keyframe, VideoReceiver, VideoSender, VideoSenderControl, VideoSenderStats,
};
use mikall::media::video::{
    is_shapeable, prepare_for_encode, ts90k_of, video_ssrc_of, DecodedPicture, EncodedPicture, KeyframeCache,
    PushOutcome, SealedVideoFrame, StaticFrameGate, VideoDecoder, VideoEncoder, VideoError,
    VideoSendQueue,
};
use mikall::shared::IdentityId;

fn identity(n: u8) -> IdentityId {
    IdentityId::from_bytes([n; 32])
}

fn bgra(w: u32, h: u32, fill: u8) -> CapturedFrame {
    CapturedFrame {
        width: w,
        height: h,
        bgra: vec![fill; (w * h * 4) as usize],
    }
}

fn sealed_frame(tag: u8, keyframe: bool) -> SealedVideoFrame {
    SealedVideoFrame::new(Arc::new(vec![tag]), keyframe)
}

/// Deterministic fake codec: "encoding" prefixes a byte marking the frame
/// type, "decoding" strips it.
struct FakeEncoder {
    force_all_key: bool,
    frames_seen: u64,
}

impl VideoEncoder for FakeEncoder {
    fn encode(
        &mut self,
        frame: &CapturedFrame,
        force_keyframe: bool,
    ) -> Result<Option<EncodedPicture>, VideoError> {
        let keyframe = self.force_all_key || force_keyframe || self.frames_seen == 0;
        self.frames_seen += 1;
        let mut bytes = vec![u8::from(keyframe)];
        bytes.extend_from_slice(&frame.width.to_be_bytes());
        bytes.extend_from_slice(&frame.height.to_be_bytes());
        bytes.extend_from_slice(&frame.bgra);
        Ok(Some(EncodedPicture { bytes, keyframe }))
    }
}

struct FakeDecoder;

impl VideoDecoder for FakeDecoder {
    fn decode(&mut self, packet: &[u8]) -> Option<DecodedPicture> {
        if packet.len() < 9 {
            return None;
        }
        let width = u32::from_be_bytes(packet[1..5].try_into().ok()?);
        let height = u32::from_be_bytes(packet[5..9].try_into().ok()?);
        Some(DecodedPicture {
            width,
            height,
            rgba: packet[9..].to_vec(),
        })
    }
}

/// One captured frame through gate, encoder, seal and fan-out.
fn share(
    sender: &mut VideoSender,
    fanout: &mut VideoFanout,
    key: &CallKey,
    encoder: &mut FakeEncoder,
    frame: &CapturedFrame,
) {
    let wanted = fanout.keyframe_wanted();
    if sender.consider(frame, wanted) {
        let picture = encoder.encode(frame, wanted).unwrap().unwrap();
        let sealed = sender.seal_picture(key, 7, &picture).unwrap();
        fanout.broadcast(&sealed);
    }
}

/// Everything that is ready for a viewer.
fn drain(fanout: &mut VideoFanout, peer: &IdentityId) -> Vec<Vec<u8>> {
    let mut out = Vec::new();
    while let LaneStep::Send(frame) = fanout.next_step(peer, true) {
        out.push(frame.sealed.to_vec());
        fanout.lane_sent(peer);
    }
    out
}

fn sealed_video(key: &CallKey, ssrc: u32, counter: u64, keyframe: bool, fill: u8) -> Vec<u8> {
    let mut bytes = vec![u8::from(keyframe)];
    bytes.extend_from_slice(&4u32.to_be_bytes());
    bytes.extend_from_slice(&4u32.to_be_bytes());
    bytes.extend_from_slice(&[fill; 64]);
    let header = FrameHeader {
        counter,
        ts: 0,
        ssrc,
        kind: MediaKind::Video,
        flags: FLAG_END_OF_PICTURE | if keyframe { FLAG_KEYFRAME } else { 0 },
    };
    seal(key, header, &bytes).unwrap()
}

#[test]
fn queue_starts_by_demanding_a_keyframe() {
    let mut queue = VideoSendQueue::new(4);
    assert!(queue.awaiting_keyframe());
    assert_eq!(
        queue.push(sealed_frame(1, false)),
        PushOutcome::SkippedAwaitingKeyframe
    );
    assert!(queue.is_empty());
    assert_eq!(queue.push(sealed_frame(2, true)), PushOutcome::Queued);
    assert!(!queue.awaiting_keyframe());
    assert_eq!(queue.push(sealed_frame(3, false)), PushOutcome::Queued);
    assert_eq!(queue.pop().unwrap().sealed[0], 2);
    assert_eq!(queue.pop().unwrap().sealed[0], 3);
    assert!(queue.pop().is_none());
}

#[test]
fn stalled_consumer_drops_the_run_and_resumes_at_a_keyframe() {
    let mut queue = VideoSendQueue::new(2);
    assert_eq!(queue.push(sealed_frame(0, true)), PushOutcome::Queued);
    assert_eq!(queue.push(sealed_frame(1, false)), PushOutcome::Queued);
    // Nobody popped: the third frame overflows — everything goes, the
    // chain is broken, deltas are refused until the next keyframe.
    assert_eq!(
        queue.push(sealed_frame(2, false)),
        PushOutcome::DroppedRun { dropped: 3 }
    );
    assert!(queue.is_empty());
    assert!(queue.awaiting_keyframe());
    assert_eq!(
        queue.push(sealed_frame(3, false)),
        PushOutcome::SkippedAwaitingKeyframe
    );
    assert_eq!(queue.push(sealed_frame(4, true)), PushOutcome::Queued);
    assert_eq!(queue.pop().unwrap().sealed[0], 4);
    assert_eq!(queue.dropped(), 4);
}

#[test]
fn overflow_by_a_keyframe_keeps_the_keyframe() {
    let mut queue = VideoSendQueue::new(2);
    queue.push(sealed_frame(0, true));
    queue.push(sealed_frame(1, false));
    assert_eq!(
        queue.push(sealed_frame(2, true)),
        PushOutcome::DroppedRun { dropped: 2 }
    );
    assert!(!queue.awaiting_keyframe());
    let kept = queue.pop().unwrap();
    assert_eq!(kept.sealed[0], 2);
    assert!(kept.keyframe);
}

#[test]
fn priming_seeds_a_run_that_survives_the_next_broadcast() {
    let mut queue = VideoSendQueue::new(2);
    let run: Vec<SealedVideoFrame> = vec![
        sealed_frame(0, true),
        sealed_frame(1, false),
        sealed_frame(2, false),
        sealed_frame(3, false),
    ];
    queue.prime(&run);
    assert!(!queue.awaiting_keyframe());
    assert_eq!(queue.len(), 4);
    // A live frame lands on top of the primed backlog without nuking
    // it, even though 4 > capacity 2 — the allowance covers the run.
    assert_eq!(queue.push(sealed_frame(4, false)), PushOutcome::Queued);
    let drained: Vec<u8> = std::iter::from_fn(|| queue.pop().map(|f| f.sealed[0])).collect();
    assert_eq!(drained, vec![0, 1, 2, 3, 4]);
    // Fully drained, the allowance is spent: steady-state capacity
    // rules again (keyframe, delta, then overflow on the third).
    queue.push(sealed_frame(5, true));
    queue.push(sealed_frame(6, false));
    assert!(matches!(
        queue.push(sealed_frame(7, false)),
        PushOutcome::DroppedRun { .. }
    ));
}

#[test]
fn priming_refuses_runs_that_do_not_open_with_a_keyframe() {
    let mut queue = VideoSendQueue::new(2);
    queue.prime(&[sealed_frame(1, false)]);
    assert!(queue.is_empty());
    assert!(queue.awaiting_keyframe());
    queue.prime(&[]);
    assert!(queue.awaiting_keyframe());
}

#[test]
fn keyframe_cache_keeps_whole_runs_and_discards_overflow() {
    let mut cache = KeyframeCache::new(20);
    // Deltas before any keyframe: nothing to serve.
    cache.observe(&sealed_frame(1, false));
    assert!(cache.run().is_none());
    // A run forms.
    cache.observe(&sealed_frame(2, true));
    cache.observe(&sealed_frame(3, false));
    let run = cache.run().unwrap();
    assert_eq!(run.len(), 2);
    assert!(run[0].keyframe);
    // A new keyframe restarts the run.
    cache.observe(&sealed_frame(4, true));
    assert_eq!(cache.run().unwrap().len(), 1);
    // Overflow discards the whole run — a partial run is garbage.
    let big = SealedVideoFrame::new(Arc::new(vec![9; 64]), false);
    cache.observe(&big);
    assert!(cache.run().is_none());
    // The next keyframe starts serving again.
    cache.observe(&sealed_frame(5, true));
    assert_eq!(cache.run().unwrap().len(), 1);
}

#[test]
fn static_gate_passes_changes_and_skips_repeats() {
    let mut gate = StaticFrameGate::default();
    let a = bgra(4, 4, 1);
    let b = bgra(4, 4, 2);
    assert!(gate.changed(&a));
    assert!(!gate.changed(&a));
    assert!(gate.changed(&b));
    assert!(!gate.changed(&b));
    assert!(gate.changed(&a));
}

#[test]
fn crop_to_even_trims_the_odd_edge_only() {
    let mut frame = bgra(3, 3, 0);
    // Mark each pixel with its (x, y) so the crop is checkable.
    for y in 0..3u8 {
        for x in 0..3u8 {
            let i = (y as usize * 3 + x as usize) * 4;
            frame.bgra[i] = x;
            frame.bgra[i + 1] = y;
        }
    }
    let cropped = crop_to_even(frame);
    assert_eq!((cropped.width, cropped.height), (2, 2));
    assert_eq!(cropped.bgra.len(), 2 * 2 * 4);
    // Top-left 2×2 survives untouched.
    assert_eq!(&cropped.bgra[0..2], &[0, 0]);
    assert_eq!(&cropped.bgra[4..6], &[1, 0]);
    assert_eq!(&cropped.bgra[8..10], &[0, 1]);
    assert_eq!(&cropped.bgra[12..14], &[1, 1]);

    let even = bgra(4, 2, 9);
    assert_eq!(crop_to_even(even.clone()), even);
}

#[test]
fn downscale_halves_until_the_width_fits() {
    let frame = bgra(8, 4, 100);
    let scaled = downscale_to_max_width(frame, 2);
    assert_eq!((scaled.width, scaled.height), (2, 1));
    // A uniform picture stays uniform under a box filter.
    assert!(scaled.bgra.iter().all(|b| *b == 100));

    let small = bgra(4, 4, 7);
    assert_eq!(downscale_to_max_width(small.clone(), 1280), small);
}

#[test]
fn video_ssrc_differs_from_the_audio_ssrc_of_the_same_identity() {
    let id = identity(0xAB);
    let b = id.as_bytes();
    let audio = u32::from_be_bytes([b[0], b[1], b[2], b[3]]);
    assert_ne!(video_ssrc_of(&id), audio);
}

/// A peer killed silently never errors: its sends stall until the deadline. The
/// stalls count as failures.
#[test]
fn a_silently_dead_peer_becomes_a_failing_lane() {
    let mut fanout = VideoFanout::new();
    fanout.set_peers(&vec![identity(2)]);
    assert!(fanout.failing_peers(3).is_empty());
    for _ in 0..8 {
        fanout.broadcast(&sealed_frame(1, true));
        assert!(matches!(
            fanout.next_step(&identity(2), true),
            LaneStep::Send(_)
        ));
        fanout.lane_failed(&identity(2));
    }
    assert_eq!(
        fanout.failing_peers(3),
        vec![identity(2)],
        "a stalled lane must count as unreachable"
    );
    // A send that gets through makes the peer reachable again.
    fanout.lane_sent(&identity(2));
    assert!(fanout.failing_peers(1).is_empty());
}

#[test]
fn sender_seals_once_and_every_lane_gets_the_same_bytes() {
    let mut fanout = VideoFanout::new();
    let change = fanout.set_peers(&vec![identity(2), identity(3)]);
    assert_eq!(change.opened, vec![identity(2), identity(3)]);
    assert!(change.closed.is_empty());
    let key = CallKey::new([9; 32]);
    let mut sender = VideoSender::new(77, VideoSenderControl::new(1_500_000).bitrate());
    let mut encoder = FakeEncoder {
        force_all_key: false,
        frames_seen: 0,
    };
    share(&mut sender, &mut fanout, &key, &mut encoder, &bgra(4, 4, 1));
    share(&mut sender, &mut fanout, &key, &mut encoder, &bgra(4, 4, 5));
    assert_eq!(sender.totals().encoded, 2);
    assert_eq!(sender.totals().keyframes, 1);

    let to_2 = drain(&mut fanout, &identity(2));
    let to_3 = drain(&mut fanout, &identity(3));
    assert_eq!(to_2.len(), 2);
    // The identical sealed bytes went to both peers: sealed once.
    assert_eq!(to_2, to_3);
    // And the flags say what they must: keyframe first, delta second.
    let (h0, _) = open(&key, &to_2[0]).unwrap();
    assert_eq!(h0.kind, MediaKind::Video);
    assert_ne!(h0.flags & FLAG_KEYFRAME, 0);
    assert_ne!(h0.flags & FLAG_END_OF_PICTURE, 0);
    assert_eq!((h0.counter, h0.ts, h0.ssrc), (0, 7, 77));
    let (h1, _) = open(&key, &to_2[1]).unwrap();
    assert_eq!(h1.flags & FLAG_KEYFRAME, 0);
    assert_eq!(h1.counter, 1);
    assert_eq!(
        sender.totals().encoded_bytes,
        (to_2[0].len() + to_2[1].len()) as u64
    );
}

#[test]
fn static_frames_are_skipped_but_a_late_joiner_forces_a_keyframe() {
    let mut fanout = VideoFanout::new();
    fanout.set_peers(&vec![identity(2)]);
    let key = CallKey::new([9; 32]);
    let mut sender = VideoSender::new(77, 1_500_000);
    let mut encoder = FakeEncoder {
        force_all_key: false,
        frames_seen: 0,
    };
    let same = bgra(4, 4, 1);
    // First frame: encoded as the opening keyframe, viewer 2 gets it.
    share(&mut sender, &mut fanout, &key, &mut encoder, &same);
    assert_eq!(drain(&mut fanout, &identity(2)).len(), 1);

    // Same frame again: static, nobody needs a keyframe, so it is skipped.
    share(&mut sender, &mut fanout, &key, &mut encoder, &same);
    assert_eq!(drain(&mut fanout, &identity(2)).len(), 0);

    // A late joiner's fresh lane demands a keyframe: the very same frame is
    // now encoded as one and reaches both viewers.
    fanout.set_peers(&vec![identity(2), identity(3)]);
    share(&mut sender, &mut fanout, &key, &mut encoder, &same);
    let to_2 = drain(&mut fanout, &identity(2));
    let to_3 = drain(&mut fanout, &identity(3));
    assert_eq!((to_2.len(), to_3.len()), (1, 1));
    let (header, _) = open(&key, &to_3[0]).unwrap();
    assert_ne!(header.flags & FLAG_KEYFRAME, 0);
    assert!(is_keyframe(&header));

    assert_eq!(sender.totals().encoded, 2);
    assert_eq!(sender.totals().keyframes, 2);
    assert_eq!(sender.totals().skipped_static, 1);
}

#[test]
fn receiver_demuxes_interleaved_senders_and_gates_on_keyframes() {
    let key = CallKey::new([5; 32]);
    // Two senders interleaved. Sender 1 starts mid-stream (delta first): its
    // deltas are discarded until its keyframe. Sender 2 opens with a keyframe.
    let frames = vec![
        (identity(1), sealed_video(&key, 1, 5, false, 10)),
        (identity(2), sealed_video(&key, 2, 0, true, 20)),
        (identity(1), sealed_video(&key, 1, 6, true, 11)),
        (identity(2), sealed_video(&key, 2, 1, false, 21)),
        (identity(1), sealed_video(&key, 1, 7, false, 12)),
    ];
    let mut receiver = VideoReceiver::new();
    let mut decoder = FakeDecoder;
    for (from, sealed) in frames {
        if let Some(admitted) = receiver.on_frame(&key, from, &sealed) {
            if let Some(picture) = decoder.decode(&admitted.payload) {
                receiver.hold(from, picture, admitted.ts);
            }
        }
    }
    let pictures = receiver.present();
    // Every frame is decoded, but only the newest picture per sender is shown.
    let stats = receiver.stats();
    assert_eq!(stats.presented, 2);
    assert_eq!(stats.presented_skipped, 2);
    assert_eq!(stats.discarded_pre_keyframe, 1);
    assert_eq!(stats.rejected, 0);
    let shown: Vec<(IdentityId, u8)> = pictures
        .iter()
        .map(|(who, (p, _))| (*who, p.rgba[0]))
        .collect();
    assert_eq!(shown, vec![(identity(1), 12), (identity(2), 21)]);
    assert!(receiver.present().is_empty());
}

#[test]
fn receiver_presents_every_frame_when_none_are_backlogged() {
    let key = CallKey::new([5; 32]);
    let mut receiver = VideoReceiver::new();
    let mut decoder = FakeDecoder;
    let mut fills = Vec::new();
    for (counter, fill) in [(0u64, 10u8), (1, 11), (2, 12)] {
        assert!(!receiver.has_presented(Some(3)));
        let sealed = sealed_video(&key, 1, counter, counter == 0, fill);
        let admitted = receiver.on_frame(&key, identity(1), &sealed).unwrap();
        let picture = decoder.decode(&admitted.payload).unwrap();
        receiver.hold(identity(1), picture, admitted.ts);
        for (_, (picture, _)) in receiver.present() {
            fills.push(picture.rgba[0]);
        }
    }
    assert!(receiver.has_presented(Some(3)));
    assert!(!receiver.has_presented(None));
    assert_eq!(receiver.stats().presented, 3);
    assert_eq!(receiver.stats().presented_skipped, 0);
    assert_eq!(fills, vec![10, 11, 12]);
}

#[test]
fn receiver_rejects_wrong_key_and_audio_frames() {
    let key = CallKey::new([5; 32]);
    // A frame sealed under another key.
    let alien = seal(
        &CallKey::new([6; 32]),
        FrameHeader {
            counter: 0,
            ts: 0,
            ssrc: 1,
            kind: MediaKind::Video,
            flags: FLAG_KEYFRAME,
        },
        b"nope",
    )
    .unwrap();
    // An audio frame that somehow reached the video tap.
    let audio = seal(
        &key,
        FrameHeader {
            counter: 0,
            ts: 0,
            ssrc: 2,
            kind: MediaKind::Audio,
            flags: 0,
        },
        b"opus",
    )
    .unwrap();
    let mut receiver = VideoReceiver::new();
    assert!(receiver.on_frame(&key, identity(1), &alien).is_none());
    assert!(receiver.on_frame(&key, identity(2), &audio).is_none());
    assert_eq!(receiver.stats().presented, 0);
    assert_eq!(receiver.stats().rejected, 2);
}

#[test]
fn a_replayed_video_frame_is_stale() {
    let key = CallKey::new([5; 32]);
    let mut receiver = VideoReceiver::new();
    let first = sealed_video(&key, 1, 3, true, 1);
    assert!(receiver.on_frame(&key, identity(1), &first).is_some());
    assert!(receiver.on_frame(&key, identity(1), &first).is_none());
    let older = sealed_video(&key, 1, 2, true, 1);
    assert!(receiver.on_frame(&key, identity(1), &older).is_none());
    assert_eq!(receiver.stats().stale, 2);
    // Another sender is not disturbed.
    let other = sealed_video(&key, 2, 0, true, 1);
    assert!(receiver.on_frame(&key, identity(2), &other).is_some());
}

#[test]
fn a_dropped_run_is_counted_over_all_lanes() {
    let mut fanout = VideoFanout::new();
    fanout.set_peers(&vec![identity(2), identity(3)]);
    assert_eq!(fanout.peer_count(), 2);
    fanout.broadcast(&sealed_frame(0, true));
    for n in 1..4 {
        fanout.broadcast(&sealed_frame(n, false));
    }
    assert_eq!(fanout.dropped_total(), 0);
    // The fifth frame overflows both lanes of four.
    fanout.broadcast(&sealed_frame(4, false));
    assert_eq!(fanout.dropped_total(), 10);
    assert!(fanout.keyframe_wanted());
    fanout.broadcast(&sealed_frame(5, true));
    assert!(!fanout.keyframe_wanted());
}

#[test]
fn a_keyframe_can_be_demanded_from_outside() {
    let mut fanout = VideoFanout::new();
    assert!(!fanout.keyframe_wanted());
    fanout.demand_keyframe();
    assert!(fanout.keyframe_wanted());
    fanout.broadcast(&sealed_frame(1, false));
    assert!(fanout.keyframe_wanted());
    fanout.broadcast(&sealed_frame(2, true));
    assert!(!fanout.keyframe_wanted());
}

#[test]
fn lanes_follow_the_roster() {
    let mut fanout = VideoFanout::new();
    fanout.set_peers(&vec![identity(4), identity(2), identity(4)]);
    assert_eq!(fanout.peer_count(), 2);
    let change = fanout.set_peers(&vec![identity(9), identity(4), identity(3)]);
    assert_eq!(change.opened, vec![identity(9), identity(3)]);
    assert_eq!(change.closed, vec![identity(2)]);
    assert!(matches!(
        fanout.next_step(&identity(2), true),
        LaneStep::Closed
    ));
    // Nothing is taken from a queue before there is a stream.
    fanout.broadcast(&sealed_frame(1, true));
    assert!(matches!(
        fanout.next_step(&identity(4), false),
        LaneStep::Open
    ));
    assert!(matches!(
        fanout.next_step(&identity(4), true),
        LaneStep::Send(_)
    ));
    assert!(matches!(
        fanout.next_step(&identity(4), true),
        LaneStep::Wait
    ));
}

#[test]
fn a_retargeted_bitrate_is_applied_once() {
    let mut control = VideoSenderControl::new(1_000);
    let mut sender = VideoSender::new(1, control.bitrate());
    assert_eq!(sender.retarget(control.bitrate()), None);
    control.set_bitrate(700);
    assert_eq!(sender.retarget(control.bitrate()), Some(700));
    assert_eq!(sender.retarget(control.bitrate()), None);
    sender.skip_stale();
    assert!(sender.has_counter());
    assert_eq!(
        sender.totals(),
        VideoSenderStats {
            skipped_stale: 1,
            ..VideoSenderStats::default()
        }
    );
}

#[test]
fn box_filter_rounds_to_nearest() {
    // Two blocks: 0,1,1,1 (mean 0.75, rounds to 1) and 0,0,0,1 (0.25, to 0).
    let mut frame = bgra(4, 2, 0);
    for (pixel, value) in [(1, 1u8), (4, 1), (5, 1), (7, 1)] {
        for channel in 0..4 {
            frame.bgra[pixel * 4 + channel] = value;
        }
    }
    let half = downscale_to_max_width(frame, 2);
    assert_eq!((half.width, half.height), (2, 1));
    assert_eq!(half.bgra, vec![1, 1, 1, 1, 0, 0, 0, 0]);
}

#[test]
fn shaping_copies_only_what_changes() {
    let even = bgra(4, 2, 9);
    assert!(matches!(
        shape_for_encode(&even, 1280),
        std::borrow::Cow::Borrowed(_)
    ));
    let odd = bgra(5, 3, 9);
    let shaped = shape_for_encode(&odd, 1280);
    assert!(matches!(shaped, std::borrow::Cow::Owned(_)));
    assert_eq!((shaped.width, shaped.height), (4, 2));
    assert_eq!(MAX_WIDTH, 1280);
}

#[test]
fn frames_without_a_picture_are_refused() {
    assert_eq!(
        prepare_for_encode(&bgra(0, 4, 1)).err(),
        Some(VideoError::BadDimensions(0, 4))
    );
    let torn = CapturedFrame {
        width: 4,
        height: 4,
        bgra: vec![0; 10],
    };
    let error = prepare_for_encode(&torn).err().unwrap();
    assert_eq!(error, VideoError::BadDimensions(4, 4));
    assert_eq!(error.text(), "frame dimensions unsupported: 4x4");
    assert_eq!(
        VideoError::Encode("no session".to_owned()).text(),
        "encoder failure: no session"
    );
    assert_eq!(prepare_for_encode(&bgra(4, 4, 1)).unwrap().width, 4);
}

#[test]
fn the_video_clock_ticks_at_ninety_kilohertz() {
    assert_eq!(ts90k_of(0), 0);
    assert_eq!(ts90k_of(1_000_000_000), 90_000);
    // One lap of the 32-bit clock, and one tick.
    let lap: u128 = 0x1_0000_0000 * 100_000 / 9 + 100_000;
    assert_eq!(ts90k_of(lap), 8);
}

#[test]
fn a_flat_picture_is_halved_until_it_fits() {
    let flat = CapturedFrame {
        width: 8,
        height: 1,
        bgra: vec![7; 8 * 4],
    };
    let narrow = downscale_to_max_width(flat, 2);
    assert_eq!((narrow.width, narrow.height), (2, 0));
    assert!(narrow.bgra.is_empty());
    let tall = CapturedFrame {
        width: 8,
        height: 5,
        bgra: vec![7; 8 * 5 * 4],
    };
    let narrow = downscale_to_max_width(tall, 3);
    assert_eq!((narrow.width, narrow.height), (2, 1));
    assert_eq!(narrow.bgra, vec![7; 2 * 4]);
}

#[test]
fn a_frame_that_is_too_short_cannot_be_shaped() {
    let mut frame = CapturedFrame {
        width: 1282,
        height: 2,
        bgra: vec![7; 1282 * 2 * 4],
    };
    assert!(is_shapeable(&frame));
    frame.bgra.pop();
    assert!(!is_shapeable(&frame));
    frame.width = 1280;
    assert!(is_shapeable(&frame));
}

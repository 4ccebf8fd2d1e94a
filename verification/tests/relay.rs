//! The video pump: routing, relaying and feedback.

use mikall::media::control::{ControlMessage, ControlPlane, ControlStep, FeedbackReport};
use mikall::media::fanout::{LaneStep, VideoFanout};
use mikall::media::frame::{
    open, seal, CallKey, FrameHeader, MediaKind, FLAG_END_OF_PICTURE, FLAG_KEYFRAME,
};
use mikall::media::relay::{PumpEvent, PumpShared, RelayTarget, Routed, VideoPump};
use mikall::media::video::video_ssrc_of;
use mikall::shared::IdentityId;
use mikall::sorted::SortedMap;

fn identity(n: u8) -> IdentityId {
    IdentityId::from_bytes([n; 32])
}

fn sealed_video(key: &CallKey, ssrc: u32, counter: u64, keyframe: bool) -> Vec<u8> {
    let mut flags = FLAG_END_OF_PICTURE;
    if keyframe {
        flags |= FLAG_KEYFRAME;
    }
    let header = FrameHeader {
        counter,
        ts: 0,
        ssrc,
        kind: MediaKind::Video,
        flags,
    };
    seal(key, header, format!("picture-{counter}").as_bytes()).unwrap()
}

fn sealed_control(key: &CallKey, counter: u64, message: &ControlMessage) -> Vec<u8> {
    let header = FrameHeader {
        counter,
        ts: 0,
        ssrc: 42,
        kind: MediaKind::Control,
        flags: 0,
    };
    seal(key, header, &message.encode()).unwrap()
}

fn relay_for(sharer: IdentityId, viewers: Vec<IdentityId>) -> RelayTarget {
    let mut fanout = VideoFanout::new_relay();
    fanout.set_peers(&viewers);
    RelayTarget { sharer, fanout }
}

/// Everything that the relay has ready for a viewer.
fn drain(shared: &mut PumpShared, peer: &IdentityId) -> Vec<Vec<u8>> {
    let mut target = shared.take_relay().unwrap();
    let mut out = Vec::new();
    while let LaneStep::Send(frame) = target.fanout.next_step(peer, true) {
        out.push(frame.sealed.to_vec());
    }
    shared.set_relay(Some(target));
    out
}

/// Frames are sealed under a key that the pump does not hold, and are relayed as
/// they came.
#[test]
fn relay_repeats_sealed_bytes_it_cannot_decrypt() {
    let sharer = identity(1);
    let (viewer_a, viewer_b) = (identity(2), identity(3));
    let sharer_key = CallKey::new([0xAA; 32]);
    let pump_key = CallKey::new([0xBB; 32]); // NOT the sharer's key
    let mut shared = PumpShared::new();
    shared.set_relay(Some(relay_for(sharer, vec![viewer_a, viewer_b])));
    let mut pump = VideoPump::new();

    let ssrc = video_ssrc_of(&sharer);
    let frames: Vec<Vec<u8>> = (0..3)
        .map(|i| sealed_video(&sharer_key, ssrc, i, i == 0))
        .collect();
    for sealed in &frames {
        assert!(open(&pump_key, sealed).is_err());
        // The forwarder still watches locally: the frame is decoded too.
        let routed = pump.route_frame(&mut shared, &pump_key, sharer, sealed);
        assert!(matches!(routed, Routed::Decode(origin) if origin == sharer));
        pump.offered(true);
    }
    for viewer in [viewer_a, viewer_b] {
        let got = drain(&mut shared, &viewer);
        assert_eq!(got.len(), 3);
        assert_eq!(got, frames, "relayed bytes must be the original sealed bytes, untouched");
    }
    let stats = pump.stats();
    assert_eq!(stats.relayed, 3);
    assert_eq!(stats.to_decode, 3);
    assert_eq!(stats.rejected, 0);
}

#[test]
fn only_the_sharers_frames_are_relayed() {
    let key = CallKey::new([1; 32]);
    let mut shared = PumpShared::new();
    shared.set_relay(Some(relay_for(identity(1), vec![identity(5)])));
    let mut pump = VideoPump::new();
    pump.route_frame(&mut shared, &key, identity(3), &sealed_video(&key, 9, 0, true));
    assert_eq!(pump.stats().relayed, 0);
    assert!(drain(&mut shared, &identity(5)).is_empty());
}

#[test]
fn late_lane_is_primed_from_the_keyframe_cache() {
    let key = CallKey::new([1; 32]);
    let sharer = identity(1);
    let mut shared = PumpShared::new();
    shared.set_relay(Some(relay_for(sharer, vec![identity(5)])));
    let mut pump = VideoPump::new();
    let frames = vec![
        sealed_video(&key, 9, 0, true),
        sealed_video(&key, 9, 1, false),
        sealed_video(&key, 9, 2, false),
    ];
    for sealed in &frames {
        pump.route_frame(&mut shared, &key, sharer, sealed);
    }
    // Only now somebody joins: the run comes from the cache, and nobody has to
    // ask the sharer for a keyframe.
    let mut target = shared.take_relay().unwrap();
    target.fanout.set_peers(&vec![identity(5), identity(6)]);
    shared.set_relay(Some(target));
    assert_eq!(drain(&mut shared, &identity(6)), frames);
    assert_eq!(VideoPump::relay_need(&shared), None);
}

#[test]
fn feedback_windows_count_received_and_lost() {
    let sharer = identity(1);
    let key = CallKey::new([5; 32]);
    let ssrc = video_ssrc_of(&sharer);
    let mut shared = PumpShared::new();
    let mut pump = VideoPump::new();

    // Counters 0, 1, then 5: three received, three lost (2, 3, 4).
    for counter in [0, 1, 5] {
        let sealed = sealed_video(&key, ssrc, counter, counter == 0);
        pump.route_frame(&mut shared, &key, sharer, &sealed);
        pump.offered(true);
    }
    assert_eq!(
        pump.flush_reports(),
        vec![PumpEvent::FeedbackDue {
            origin: sharer,
            report: FeedbackReport {
                received: 3,
                lost: 3,
            },
        }]
    );

    // A clean follow-up window.
    pump.route_frame(&mut shared, &key, sharer, &sealed_video(&key, ssrc, 6, false));
    pump.offered(true);
    assert_eq!(
        pump.flush_reports(),
        vec![PumpEvent::FeedbackDue {
            origin: sharer,
            report: FeedbackReport {
                received: 1,
                lost: 0,
            },
        }]
    );

    // Empty windows say nothing.
    assert_eq!(pump.flush_reports(), vec![]);
    assert_eq!(pump.stats().to_decode, 4);
}

#[test]
fn a_replayed_frame_is_no_loss() {
    let key = CallKey::new([1; 32]);
    let mut shared = PumpShared::new();
    let mut pump = VideoPump::new();
    for counter in [0, 1, 4, 1] {
        let sealed = sealed_video(&key, 9, counter, counter == 0);
        pump.route_frame(&mut shared, &key, identity(1), &sealed);
    }
    assert_eq!(
        pump.flush_reports(),
        vec![PumpEvent::FeedbackDue {
            origin: identity(1),
            report: FeedbackReport {
                received: 3,
                lost: 2,
            },
        }]
    );
}

#[test]
fn control_and_origin_attribution() {
    let sharer = identity(1);
    let forwarder = identity(2);
    let key = CallKey::new([5; 32]);
    let ssrc = video_ssrc_of(&sharer);
    let mut shared = PumpShared::new();
    let mut origins = SortedMap::new();
    origins.insert(ssrc, sharer);
    shared.set_origins(origins);
    let mut pump = VideoPump::new();

    // An authenticated assignment from the sharer.
    let assign = ControlMessage::ForwarderAssign {
        viewers: vec![identity(3)],
    };
    match pump.route_frame(&mut shared, &key, sharer, &sealed_control(&key, 0, &assign)) {
        Routed::Event(event) => assert_eq!(
            event,
            PumpEvent::Control {
                from: sharer,
                message: assign,
            }
        ),
        other => panic!("expected a control event, got {other:?}"),
    }

    // A forged one (wrong key) is dropped.
    let forged = sealed_control(&CallKey::new([6; 32]), 0, &ControlMessage::ForwarderRevoke);
    assert!(matches!(
        pump.route_frame(&mut shared, &key, identity(9), &forged),
        Routed::Dropped
    ));

    // A video frame relayed by the forwarder: attributed to the sharer, with the
    // forwarder as "via".
    let relayed = sealed_video(&key, ssrc, 0, true);
    let routed = pump.route_frame(&mut shared, &key, forwarder, &relayed);
    assert!(matches!(routed, Routed::Decode(origin) if origin == sharer));
    assert_eq!(shared.via_of(&sharer), Some(forwarder));

    // Direct delivery clears the via marker.
    let direct = sealed_video(&key, ssrc, 1, false);
    let routed = pump.route_frame(&mut shared, &key, sharer, &direct);
    assert!(matches!(routed, Routed::Decode(origin) if origin == sharer));
    assert_eq!(shared.via_of(&sharer), None);

    let stats = pump.stats();
    assert_eq!(stats.control_in, 1);
    assert_eq!(stats.rejected, 1);
}

#[test]
fn a_torn_frame_is_rejected() {
    let key = CallKey::new([1; 32]);
    let mut shared = PumpShared::new();
    let mut pump = VideoPump::new();
    assert!(matches!(
        pump.route_frame(&mut shared, &key, identity(1), &[0; 4]),
        Routed::Dropped
    ));
    pump.offered(false);
    let stats = pump.stats();
    assert_eq!(stats.rejected, 1);
    assert_eq!((stats.to_decode, stats.decode_dropped), (0, 1));
}

#[test]
fn a_relay_without_a_run_asks_the_sharer_for_a_keyframe() {
    let mut shared = PumpShared::new();
    assert_eq!(VideoPump::relay_need(&shared), None);
    shared.set_relay(Some(relay_for(identity(1), vec![identity(5)])));
    assert_eq!(
        VideoPump::relay_need(&shared),
        Some(PumpEvent::RelayNeedsKeyframe {
            sharer: identity(1)
        })
    );
    assert_eq!(shared.relay().unwrap().sharer, identity(1));
}

#[test]
fn control_frames_never_share_a_counter() {
    let key = CallKey::new([4; 32]);
    let mut plane = ControlPlane::new(key.copied(), &identity(1));
    let first = plane.seal_next(&ControlMessage::ForwarderAck).unwrap();
    let second = plane.seal_next(&ControlMessage::KeyframeRequest).unwrap();
    let (h1, p1) = open(&key, &first).unwrap();
    let (h2, p2) = open(&key, &second).unwrap();
    assert_eq!((h1.counter, h2.counter), (0, 1));
    assert_eq!(h1.kind, MediaKind::Control);
    assert_eq!(ControlMessage::decode(&p1), Some(ControlMessage::ForwarderAck));
    assert_eq!(
        ControlMessage::decode(&p2),
        Some(ControlMessage::KeyframeRequest)
    );
}

#[test]
fn a_stale_control_lane_is_retried_once() {
    let mut plane = ControlPlane::new(CallKey::new([4; 32]), &identity(1));
    let (mut delivery, step) = plane.start(identity(2));
    assert_eq!(step, ControlStep::Open);
    assert_eq!(plane.opened(&delivery, true), ControlStep::Send);
    assert_eq!(plane.sent(&mut delivery, false), ControlStep::Open);
    assert_eq!(plane.opened(&delivery, true), ControlStep::Send);
    assert_eq!(plane.sent(&mut delivery, false), ControlStep::Unreachable);

    let (mut delivery, step) = plane.start(identity(2));
    assert_eq!(step, ControlStep::Open);
    assert_eq!(plane.opened(&delivery, true), ControlStep::Send);
    assert_eq!(plane.sent(&mut delivery, true), ControlStep::Delivered);
    // The lane stays open for the next message.
    assert_eq!(plane.start(identity(2)).1, ControlStep::Send);
    // A lane that does not open ends the delivery.
    let (delivery, _) = plane.start(identity(3));
    assert_eq!(plane.opened(&delivery, false), ControlStep::Unreachable);
}

//! The hardware encoder's byte stream, session and capture loop.

use mikall::media::capture::{CaptureError, CaptureLoop, CaptureTick};
use mikall::media::codec::{annex_b_of, Dimensions, VtAction, VtEmitted, VtEvent, VtState};
use mikall::media::video::{EncodedPicture, VideoError};

const HD: Dimensions = Dimensions {
    width: 1280,
    height: 720,
};

fn picture() -> EncodedPicture {
    EncodedPicture {
        bytes: vec![1, 2],
        keyframe: true,
    }
}

#[test]
fn keyframes_carry_their_parameter_sets() {
    let sets = vec![vec![0x67, 1], vec![0x68]];
    let avcc = [0, 0, 0, 2, 0x65, 9, 0, 0, 0, 1, 0x66];
    let out = annex_b_of(true, &sets, 4, &avcc).unwrap();
    assert!(out.keyframe);
    assert_eq!(
        out.bytes,
        vec![
            0, 0, 0, 1, 0x67, 1, 0, 0, 0, 1, 0x68, 0, 0, 0, 1, 0x65, 9, 0, 0, 0, 1, 0x66
        ]
    );
    let delta = annex_b_of(false, &sets, 4, &avcc).unwrap();
    assert_eq!(
        delta.bytes,
        vec![0, 0, 0, 1, 0x65, 9, 0, 0, 0, 1, 0x66]
    );
}

#[test]
fn torn_samples_end_at_the_tear() {
    // Two-byte lengths; the second unit runs past the end.
    let avcc = [0, 1, 0x41, 0, 9, 1, 2];
    let out = annex_b_of(false, &vec![], 2, &avcc).unwrap();
    assert_eq!(out.bytes, vec![0, 0, 0, 1, 0x41]);
    // A zero length ends the sample.
    assert_eq!(annex_b_of(false, &vec![], 1, &[0, 1, 2]), None);
    // No length field, an empty parameter set, nothing at all.
    assert_eq!(annex_b_of(false, &vec![], 0, &[1, 2]), None);
    assert_eq!(annex_b_of(false, &vec![], 5, &[1, 2]), None);
    assert_eq!(annex_b_of(true, &vec![vec![]], 1, &[1, 2]), None);
    assert_eq!(annex_b_of(false, &vec![], 4, &[]), None);
}

#[test]
fn a_frame_goes_through_the_session() {
    let mut state = VtState::new(HD, 1_000);
    assert!(matches!(state.encode(HD), VtAction::Submit(0)));
    assert!(matches!(state.step(VtEvent::Submitted), VtAction::Complete));
    let done = state.step(VtEvent::Completed(vec![
        VtEmitted::Dropped,
        VtEmitted::Picture(picture()),
    ]));
    assert!(matches!(done, VtAction::Finish(Ok(Some(p))) if p == picture()));
    // The clock ticked; a frame that rate control dropped is no error.
    assert!(matches!(state.encode(HD), VtAction::Submit(1)));
    state.step(VtEvent::Submitted);
    assert!(matches!(
        state.step(VtEvent::Completed(vec![VtEmitted::Dropped])),
        VtAction::Finish(Ok(None))
    ));
}

#[test]
fn a_new_geometry_rebuilds_the_session() {
    let small = Dimensions {
        width: 640,
        height: 360,
    };
    let mut state = VtState::new(HD, 1_000);
    assert!(matches!(state.encode(small), VtAction::Build(d) if d == small));
    assert!(matches!(state.step(VtEvent::Built), VtAction::Submit(0)));
    assert_eq!(state.active, Some(small));
}

#[test]
fn a_bitrate_is_retargeted_without_a_rebuild() {
    let mut state = VtState::new(HD, 1_000);
    state.set_target_bitrate(1_000);
    assert!(matches!(state.encode(HD), VtAction::Submit(_)));
    state.set_target_bitrate(700);
    assert!(matches!(state.encode(HD), VtAction::Retarget(700)));
    assert!(matches!(state.step(VtEvent::Retargeted), VtAction::Submit(_)));
    assert_eq!(state.bitrate_bps, 700);
    assert!(matches!(state.encode(HD), VtAction::Submit(_)));
}

#[test]
fn one_failure_is_mended_and_the_second_surfaces() {
    let mut state = VtState::new(HD, 1_000);
    state.encode(HD);
    state.step(VtEvent::Submitted);
    let retry = state.step(VtEvent::Completed(vec![VtEmitted::Error(-12903)]));
    assert!(matches!(retry, VtAction::Build(d) if d == HD));
    state.step(VtEvent::Built);
    state.step(VtEvent::Submitted);
    match state.step(VtEvent::Completed(vec![VtEmitted::Error(-12903)])) {
        VtAction::Finish(Err(error)) => assert_eq!(
            error,
            VideoError::Encode("VT output callback reported OSStatus -12903".to_owned())
        ),
        other => panic!("expected a failure, got {other:?}"),
    }
}

fn tick(width: i32, height: i32, fill: u8, len: usize) -> CaptureTick {
    CaptureTick {
        width,
        height,
        bgra: vec![fill; len],
    }
}

#[test]
fn a_static_screen_keeps_its_heartbeat() {
    let mut capture = CaptureLoop::new(0);
    // Nothing to repeat yet.
    assert_eq!(capture.on_tick(5_000, tick(0, 0, 0, 0)), None);
    let first = capture.on_tick(5_000, tick(2, 1, 9, 8)).unwrap();
    assert_eq!((first.width, first.height), (2, 1));
    assert_eq!(capture.on_tick(5_999, tick(0, 0, 0, 0)), None);
    assert_eq!(capture.on_tick(6_000, tick(0, 0, 0, 0)), Some(first));
    assert_eq!(capture.on_tick(6_500, tick(0, 0, 0, 0)), None);
    // A picture without area is nothing.
    assert_eq!(capture.on_tick(6_500, tick(0, 4, 1, 8)), None);
    assert_eq!(capture.on_tick(6_500, tick(4, -1, 1, 8)), None);
}

#[test]
fn capture_errors_read_well() {
    assert_eq!(
        CaptureError::PermissionDenied.text(),
        "screen recording permission denied"
    );
    assert_eq!(
        CaptureError::Unsupported.text(),
        "screen capture unsupported on this system"
    );
    assert_eq!(
        CaptureError::Failed("no display".to_owned()).text(),
        "screen capture failed to start: no display"
    );
}

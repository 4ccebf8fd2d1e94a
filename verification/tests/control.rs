//! In-band control and the bitrate controller.

use mikall::media::control::{
    control_ssrc_of, BitrateController, ControlMessage, FeedbackReport, CONTROL_VERSION,
    STEP_DOWN_COOLDOWN_MS, TAG_ACK, TAG_ASSIGN, TAG_FEEDBACK,
};
use mikall::media::video::video_ssrc_of;
use mikall::shared::IdentityId;

fn identity(n: u8) -> IdentityId {
    IdentityId::from_bytes([n; 32])
}

#[test]
fn control_messages_roundtrip() {
    let messages = [
        ControlMessage::ForwarderAssign {
            viewers: vec![identity(3), identity(7)],
        },
        ControlMessage::ForwarderAssign { viewers: vec![] },
        ControlMessage::ForwarderRevoke,
        ControlMessage::ForwarderAck,
        ControlMessage::Feedback(FeedbackReport {
            received: 20,
            lost: 3,
        }),
        ControlMessage::KeyframeRequest,
    ];
    for message in messages {
        let decoded = ControlMessage::decode(&message.encode());
        assert_eq!(decoded, Some(message));
    }
}

#[test]
fn malformed_control_is_none_never_a_panic() {
    assert_eq!(ControlMessage::decode(&[]), None);
    assert_eq!(ControlMessage::decode(&[9, TAG_ACK]), None); // bad version
    assert_eq!(ControlMessage::decode(&[CONTROL_VERSION, 99]), None); // bad tag
    assert_eq!(
        ControlMessage::decode(&[CONTROL_VERSION, TAG_ASSIGN, 2, 0]),
        None
    ); // short ids
    assert_eq!(
        ControlMessage::decode(&[CONTROL_VERSION, TAG_FEEDBACK, 1, 2, 3]),
        None
    );
    // A hostile viewer count is refused outright.
    let mut hostile = vec![CONTROL_VERSION, TAG_ASSIGN, 255];
    hostile.extend(std::iter::repeat_n(0, 255 * 32));
    assert_eq!(ControlMessage::decode(&hostile), None);
}

#[test]
fn what_decodes_is_written_again_as_it_was_read() {
    let mut assign = vec![CONTROL_VERSION, TAG_ASSIGN, 2];
    assign.extend([3u8; 32]);
    assign.extend(0u8..32);
    let payloads = [
        assign,
        vec![CONTROL_VERSION, TAG_ASSIGN, 0],
        vec![CONTROL_VERSION, TAG_ACK],
        vec![CONTROL_VERSION, TAG_FEEDBACK, 0, 0, 1, 2, 255, 254, 253, 252],
    ];
    for payload in payloads {
        let message = ControlMessage::decode(&payload).unwrap();
        assert_eq!(message.encode(), payload);
    }
}

#[test]
fn control_ssrc_is_distinct_from_audio_and_video() {
    let id = identity(0xAB);
    let b = id.as_bytes();
    let audio = u32::from_be_bytes([b[0], b[1], b[2], b[3]]);
    let video = video_ssrc_of(&id);
    let control = control_ssrc_of(&id);
    assert_ne!(control, audio);
    assert_ne!(control, video);
}

#[test]
fn loss_steps_bitrate_down_with_a_cooldown() {
    let mut controller = BitrateController::new(1_500_000, 200_000, 1_500_000);
    let lossy = FeedbackReport {
        received: 18,
        lost: 2,
    }; // 10% loss
    assert_eq!(controller.on_report(0, &lossy), Some(1_050_000));
    // Cooldown holds: an immediate second bad report changes nothing.
    assert_eq!(controller.on_report(2_000, &lossy), None);
    assert_eq!(controller.target(), 1_050_000);
    // After the cooldown the next bad report steps again.
    assert_eq!(controller.on_report(4_100, &lossy), Some(735_000));
}

#[test]
fn bitrate_never_leaves_the_floor_ceiling_band() {
    let mut controller = BitrateController::new(300_000, 200_000, 1_500_000);
    let lossy = FeedbackReport {
        received: 10,
        lost: 10,
    };
    let mut now = 0;
    for _ in 0..10 {
        let _ = controller.on_report(now, &lossy);
        now += STEP_DOWN_COOLDOWN_MS + 1;
    }
    assert_eq!(controller.target(), 200_000, "floor holds");
}

#[test]
fn sustained_clean_windows_recover_bitrate() {
    let mut controller = BitrateController::new(1_500_000, 200_000, 1_500_000);
    let lossy = FeedbackReport {
        received: 10,
        lost: 5,
    };
    assert!(controller.on_report(1_000, &lossy).is_some());
    let clean = FeedbackReport {
        received: 20,
        lost: 0,
    };
    // Clean reports inside the 10 s window: no step up yet.
    assert_eq!(controller.on_report(5_000, &clean), None);
    assert_eq!(controller.on_report(9_000, &clean), None);
    // 10 s of clean air since the last unclean report: recover.
    let recovered = controller.on_report(11_500, &clean);
    assert_eq!(recovered, Some(1_312_500));
    // And the ceiling caps recovery.
    let later = controller.on_report(23_000, &clean);
    assert_eq!(later, Some(1_500_000));
    assert_eq!(controller.on_report(40_000, &clean), None);
}

#[test]
fn empty_windows_and_mild_loss_hold_steady() {
    let mut controller = BitrateController::new(1_000_000, 200_000, 1_500_000);
    assert_eq!(
        controller.on_report(1_000, &FeedbackReport::default()),
        None
    );
    // 3% loss: below the step-down threshold, above clean — holds,
    // but resets the clean clock.
    let mild = FeedbackReport {
        received: 97,
        lost: 3,
    };
    assert_eq!(controller.on_report(2_000, &mild), None);
    assert_eq!(controller.target(), 1_000_000);
}

#[test]
fn a_message_carries_no_more_than_sixteen_viewers() {
    let viewers: Vec<IdentityId> = (0..20).map(identity).collect();
    let wire = ControlMessage::ForwarderAssign {
        viewers: viewers.clone(),
    }
    .encode();
    assert_eq!(wire.len(), 3 + 16 * 32);
    assert_eq!(
        ControlMessage::decode(&wire),
        Some(ControlMessage::ForwarderAssign {
            viewers: viewers[..16].to_vec()
        })
    );
    let report = ControlMessage::Feedback(FeedbackReport {
        received: 258,
        lost: 1,
    });
    assert_eq!(report.encode(), vec![1, 4, 0, 0, 1, 2, 0, 0, 0, 1]);
}

#[test]
fn loss_is_compared_exactly() {
    let five = FeedbackReport {
        received: 19,
        lost: 1,
    };
    assert!(five.loss_reaches(5));
    assert!(!five.loss_exceeds(5));
    let one = FeedbackReport {
        received: 99,
        lost: 1,
    };
    assert!(!one.loss_exceeds(1));
    let full = FeedbackReport {
        received: u32::MAX,
        lost: u32::MAX,
    };
    assert!(full.loss_reaches(50));
    assert!(!full.loss_exceeds(50));
}

#[test]
fn a_target_that_rounds_back_has_not_moved() {
    let clean = FeedbackReport {
        received: 100,
        lost: 0,
    };
    let mut controller = BitrateController::new(3, 0, 100);
    assert_eq!(controller.on_report(20_000, &clean), None);
    assert_eq!(controller.target(), 3);
    // Nothing was stamped: a step down is not held back.
    let lossy = FeedbackReport {
        received: 1,
        lost: 1,
    };
    assert_eq!(controller.on_report(20_001, &lossy), Some(2));
    let mut controller = BitrateController::new(4, 0, 100);
    assert_eq!(controller.on_report(20_000, &clean), Some(5));
}

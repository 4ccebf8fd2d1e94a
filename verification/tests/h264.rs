//! OpenH264 behind the picture shaping.

use mikall::media::h264::{
    encoded_picture, FrameKind, H264Decoder, H264Encoder, INTRA_PERIOD_FRAMES, TARGET_BITRATE_BPS,
};
use mikall::media::picture::CapturedFrame;
use mikall::media::video::VideoError;
use openh264::encoder::{
    BitRate, Encoder, EncoderConfig, FrameRate, IntraFramePeriod, UsageType,
};
use openh264::OpenH264API;

fn encoder(fps: u32) -> H264Encoder {
    let config = EncoderConfig::new()
        .usage_type(UsageType::ScreenContentRealTime)
        .max_frame_rate(FrameRate::from_hz(fps.max(1) as f32))
        .bitrate(BitRate::from_bps(TARGET_BITRATE_BPS))
        .intra_frame_period(IntraFramePeriod::from_num_frames(INTRA_PERIOD_FRAMES));
    let encoder = Encoder::with_api_config(OpenH264API::from_source(), config).unwrap();
    H264Encoder::new(encoder, fps)
}

/// A synthetic gradient so the roundtrip has real luminance structure.
fn gradient(width: u32, height: u32) -> CapturedFrame {
    let mut bgra = Vec::with_capacity((width * height * 4) as usize);
    for y in 0..height {
        for x in 0..width {
            bgra.extend_from_slice(&[
                (x % 256) as u8,
                (y % 256) as u8,
                ((x + y) % 256) as u8,
                255,
            ]);
        }
    }
    CapturedFrame {
        width,
        height,
        bgra,
    }
}

#[test]
fn encode_decode_roundtrip_yields_the_same_picture_shape() {
    let mut encoder = encoder(10);
    let mut decoder = H264Decoder::new().unwrap();
    let frame = gradient(320, 180);

    let first = encoder.encode(&frame, false).unwrap().unwrap();
    assert!(first.keyframe, "the opening frame must be an IDR");
    let picture = decoder.decode(&first.bytes).unwrap();
    assert_eq!((picture.width, picture.height), (320, 180));
    assert_eq!(picture.rgba.len(), 320 * 180 * 4);
    // Lossy, but it must still look like our gradient: the top-left
    // pixel is near-black, the bottom-right is bright.
    let tl = &picture.rgba[0..3];
    let br_at = (180 * 320 - 1) * 4;
    let br = &picture.rgba[br_at..br_at + 3];
    assert!(tl.iter().all(|c| *c < 96), "top-left too bright: {tl:?}");
    let sum = |px: &[u8]| px.iter().map(|c| u32::from(*c)).sum::<u32>();
    assert!(sum(br) > sum(tl), "gradient direction lost");

    // A delta frame follows and decodes too.
    let mut second_frame = frame.clone();
    second_frame.bgra[0] = 200;
    let second = encoder.encode(&second_frame, false).unwrap().unwrap();
    assert!(!second.keyframe);
    assert!(decoder.decode(&second.bytes).is_some());
}

#[test]
fn forcing_a_keyframe_mid_stream_yields_an_idr() {
    let mut encoder = encoder(10);
    let frame = gradient(320, 180);
    let _ = encoder.encode(&frame, false).unwrap().unwrap();
    let forced = encoder.encode(&frame, true).unwrap().unwrap();
    assert!(forced.keyframe, "force_keyframe must produce an IDR");
}

#[test]
fn codec_h264_odd_dimensions_are_cropped_not_fatal() {
    let mut encoder = encoder(10);
    let mut decoder = H264Decoder::new().unwrap();
    let odd = gradient(321, 181);
    let encoded = encoder.encode(&odd, false).unwrap().unwrap();
    let picture = decoder.decode(&encoded.bytes).unwrap();
    assert_eq!((picture.width, picture.height), (320, 180));
}

#[test]
fn wide_pictures_are_halved_first() {
    let mut encoder = encoder(10);
    let mut decoder = H264Decoder::new().unwrap();
    let encoded = encoder.encode(&gradient(1920, 64), false).unwrap().unwrap();
    let picture = decoder.decode(&encoded.bytes).unwrap();
    assert_eq!((picture.width, picture.height), (960, 32));
}

#[test]
fn pictures_that_are_not_whole_are_refused() {
    let mut encoder = encoder(10);
    let torn = CapturedFrame {
        width: 4,
        height: 4,
        bgra: vec![0; 60],
    };
    assert!(matches!(
        encoder.encode(&torn, false),
        Err(VideoError::BadDimensions(4, 4))
    ));
    let empty = CapturedFrame {
        width: 0,
        height: 4,
        bgra: vec![],
    };
    assert!(matches!(
        encoder.encode(&empty, false),
        Err(VideoError::BadDimensions(0, 4))
    ));
}

#[test]
fn too_tall_a_picture_is_the_encoders_to_refuse() {
    let mut encoder = encoder(10);
    let tall = CapturedFrame {
        width: 2,
        height: 4000,
        bgra: vec![0; 2 * 4000 * 4],
    };
    match encoder.encode(&tall, false) {
        Err(VideoError::Encode(why)) => assert!(why.contains("3840x2160"), "{why}"),
        other => panic!("expected a refusal, got {other:?}"),
    }
}

#[test]
fn skipped_frames_stay_off_the_wire() {
    assert_eq!(encoded_picture(FrameKind::Skipped, vec![1]), None);
    assert_eq!(encoded_picture(FrameKind::Invalid, vec![1]), None);
    assert_eq!(encoded_picture(FrameKind::Idr, vec![]), None);
    for (kind, keyframe) in [
        (FrameKind::Idr, true),
        (FrameKind::Intra, true),
        (FrameKind::Predicted, false),
        (FrameKind::Mixed, false),
    ] {
        let picture = encoded_picture(kind, vec![7]).unwrap();
        assert_eq!(picture.bytes, vec![7]);
        assert_eq!(picture.keyframe, keyframe);
    }
}

#[test]
fn garbage_decodes_to_nothing() {
    let mut decoder = H264Decoder::new().unwrap();
    assert!(decoder.decode(&[0xFF; 40]).is_none());
}

#[test]
fn a_picture_without_columns_is_refused() {
    let mut encoder = encoder(10);
    let empty = CapturedFrame {
        width: 0,
        height: 3,
        bgra: vec![1],
    };
    assert!(matches!(
        encoder.encode(&empty, false),
        Err(VideoError::BadDimensions(0, 3))
    ));
}

#[test]
fn a_decoder_that_was_not_made_is_an_error() {
    match H264Decoder::over(Err(openh264::Error::msg("no decoder"))) {
        Err(VideoError::Encode(why)) => assert!(why.contains("no decoder"), "{why}"),
        Err(other) => panic!("expected an encoder error, got {other:?}"),
        Ok(_) => panic!("there is no decoder to hold"),
    }
    assert!(H264Decoder::over(openh264::decoder::Decoder::new()).is_ok());
}

#[test]
fn every_forced_frame_that_is_sent_stands_alone() {
    let mut encoder = encoder(10);
    for (width, height) in [(320, 180), (320, 180), (160, 90), (160, 90)] {
        let frame = gradient(width, height);
        if let Some(forced) = encoder.encode(&frame, true).unwrap() {
            assert!(forced.keyframe);
        }
        let _ = encoder.encode(&frame, false).unwrap();
    }
}

#[test]
fn a_picture_of_one_column_or_row_is_refused() {
    let mut encoder = encoder(10);
    for (width, height) in [(1u32, 8u32), (8, 1), (2000, 1)] {
        let thin = CapturedFrame {
            width,
            height,
            bgra: vec![9; (width * height * 4) as usize],
        };
        match encoder.encode(&thin, false) {
            Err(VideoError::Encode(why)) => assert_eq!(why, "the picture has no pixels"),
            other => panic!("expected a refusal, got {other:?}"),
        }
    }
}

//! H.264 in software, by OpenH264: what an encoder is handed, what becomes of
//! what it hands back, and the decoder.
//!
//! What OpenH264 makes of a picture rests on the pictures before it and on its
//! rate control, so nothing is claimed of the bytes themselves.

use openh264::decoder::Decoder;
use openh264::encoder::{Encoder, FrameType};
use openh264::formats::{BgraSliceU8, YUVBuffer, YUVSource};

use std::borrow::Cow;

use vstd::prelude::*;

use crate::media::picture::{CapturedFrame, PictureView, MAX_WIDTH};
use crate::media::video::{
    prepare_for_encode, shape_fault, shapeable, DecodedPicture, EncodedPicture, VideoError,
    VideoErrorView,
};

verus! {

/// Target bitrate: generous for 1280-wide screen content at 10 fps, small enough
/// for a slow uplink to carry one copy.
pub const TARGET_BITRATE_BPS: u32 = 1_500_000;

/// Safety-net keyframe interval in frames (about 15 s at 10 fps).
pub const INTRA_PERIOD_FRAMES: u32 = 150;

#[verifier::external_type_specification]
#[verifier::external_body]
pub struct ExH264Encoder(openh264::encoder::Encoder);

#[verifier::external_type_specification]
#[verifier::external_body]
pub struct ExH264Decoder(openh264::decoder::Decoder);

#[verifier::external_type_specification]
#[verifier::external_body]
pub struct ExH264Error(openh264::Error);

/// What an encoder calls the frame that it made.
#[derive(Debug, Clone, Copy, PartialEq, Eq, Structural)]
pub enum FrameKind {
    Idr,
    Intra,
    Predicted,
    Mixed,
    Skipped,
    Invalid,
}

impl FrameKind {
    /// The frame stands alone.
    pub open spec fn stands_alone(self) -> bool {
        self is Idr || self is Intra
    }

    /// There is a frame to send.
    pub open spec fn is_sent(self) -> bool {
        !(self is Skipped || self is Invalid)
    }
}

/// `Encoder::encode`, on the planes that `YUVBuffer::from_bgra8_source` makes of
/// the picture, which panics unless both dimensions are even, a row can be counted
/// and there are four bytes for every pixel. The kind of the frame and its bytes,
/// or why there is none, rest on all that the encoder has seen, and nothing is
/// claimed of them.
#[verifier::external_body]
fn h264_encode(encoder: &mut Encoder, bgra: &[u8], width: usize, height: usize) -> (r: Result<
    (FrameKind, Vec<u8>),
    openh264::Error,
>)
    requires
        0 < width <= u32::MAX,
        height > 0,
        width % 2 == 0,
        height % 2 == 0,
        bgra@.len() == width * height * 4,
{
    let yuv = YUVBuffer::from_bgra8_source(BgraSliceU8::new(bgra, (width, height)));
    let stream = encoder.encode(&yuv)?;
    let kind = match stream.frame_type() {
        FrameType::IDR => FrameKind::Idr,
        FrameType::I => FrameKind::Intra,
        FrameType::P => FrameKind::Predicted,
        FrameType::IPMixed => FrameKind::Mixed,
        FrameType::Skip => FrameKind::Skipped,
        FrameType::Invalid => FrameKind::Invalid,
    };
    Ok((kind, stream.to_vec()))
}

/// `Encoder::force_intra_frame` and then `Encoder::encode`, on the planes that
/// `YUVBuffer::from_bgra8_source` makes of the picture: the frame that follows the
/// request stands alone, unless the encoder sends none. Of its bytes, and of
/// whether there is one, nothing is claimed.
#[verifier::external_body]
fn h264_encode_intra(encoder: &mut Encoder, bgra: &[u8], width: usize, height: usize) -> (r: Result<
    (FrameKind, Vec<u8>),
    openh264::Error,
>)
    requires
        0 < width <= u32::MAX,
        height > 0,
        width % 2 == 0,
        height % 2 == 0,
        bgra@.len() == width * height * 4,
    ensures
        r matches Ok((kind, _)) ==> kind.stands_alone() || !kind.is_sent(),
{
    let yuv = YUVBuffer::from_bgra8_source(BgraSliceU8::new(bgra, (width, height)));
    encoder.force_intra_frame();
    let stream = encoder.encode(&yuv)?;
    let kind = match stream.frame_type() {
        FrameType::IDR => FrameKind::Idr,
        FrameType::I => FrameKind::Intra,
        FrameType::P => FrameKind::Predicted,
        FrameType::IPMixed => FrameKind::Mixed,
        FrameType::Skip => FrameKind::Skipped,
        FrameType::Invalid => FrameKind::Invalid,
    };
    Ok((kind, stream.to_vec()))
}

/// `Decoder::new`: a decoder, or why there is none. Nothing is claimed of it.
#[verifier::external_body]
fn h264_decoder() -> (r: Result<Decoder, openh264::Error>) {
    Decoder::new()
}

/// `Decoder::decode`, with the picture written out by `DecodedYUV::write_rgba8`:
/// four bytes for every pixel. What the picture shows rests on the packets
/// before this one.
#[verifier::external_body]
fn h264_decode(decoder: &mut Decoder, packet: &[u8]) -> (r: Result<
    Option<DecodedPicture>,
    openh264::Error,
>)
    ensures
        r matches Ok(Some(p)) ==> p.rgba@.len() == p.width * p.height * 4,
{
    match decoder.decode(packet)? {
        Some(yuv) => {
            let (width, height) = yuv.dimensions();
            let mut rgba = vec![0u8; yuv.rgba8_len()];
            yuv.write_rgba8(&mut rgba);
            Ok(Some(DecodedPicture { width: width as u32, height: height as u32, rgba }))
        },
        None => Ok(None),
    }
}

/// How OpenH264 words an error, by its `Display`. Nothing is claimed of the text.
#[verifier::external_body]
fn h264_error_text(error: &openh264::Error) -> (r: String) {
    error.to_string()
}

/// What goes on the wire of what the encoder made: nothing if it skipped the
/// picture, or has no bytes for it.
pub fn encoded_picture(kind: FrameKind, bytes: Vec<u8>) -> (r: Option<EncodedPicture>)
    ensures
        match r {
            Some(p) => kind.is_sent() && bytes@.len() > 0 && p.bytes@ == bytes@ && p.keyframe
                == kind.stands_alone(),
            None => !kind.is_sent() || bytes@.len() == 0,
        },
{
    let keyframe: bool = match kind {
        FrameKind::Idr | FrameKind::Intra => true,
        FrameKind::Predicted | FrameKind::Mixed => false,
        FrameKind::Skipped | FrameKind::Invalid => {
            return None;
        },
    };
    if bytes.len() == 0 {
        return None;
    }
    Some(EncodedPicture { bytes, keyframe })
}

/// Whether shaping leaves no pixels of a frame: its one row or column goes with
/// the cropping.
pub open spec fn shaped_away(v: PictureView) -> bool {
    let shaped = v.narrowed(MAX_WIDTH as int).cropped();
    !shape_fault(v) && (shaped.width == 0 || shaped.height == 0)
}

/// An OpenH264 encoder behind the picture shaping.
pub struct H264Encoder {
    encoder: Encoder,
    fps: u32,
}

impl H264Encoder {
    pub closed spec fn fps(&self) -> u32 {
        self.fps
    }

    /// `fps` is what `encoder` was set up for; it is recorded for later rate
    /// adaptation.
    pub fn new(encoder: Encoder, fps: u32) -> (r: H264Encoder)
        ensures
            r.fps() == fps,
    {
        H264Encoder { encoder, fps }
    }

    /// Encodes one picture, shaped first. A picture without pixels, or one that
    /// is not whole, is refused by its dimensions. One that shaping leaves no
    /// pixels of is a failure to encode. What comes of any other is up to the
    /// encoder: see [`encoded_picture`]. With `force_keyframe`, what is sent
    /// stands alone.
    pub fn encode(&mut self, frame: &CapturedFrame, force_keyframe: bool) -> (r: Result<
        Option<EncodedPicture>,
        VideoError,
    >)
        requires
            shapeable(frame@),
        ensures
            final(self).fps() == old(self).fps(),
            shape_fault(frame@) <==> r matches Err(VideoError::BadDimensions(..)),
            shape_fault(frame@) ==> r->Err_0@ == VideoErrorView::BadDimensions(
                frame.width,
                frame.height,
            ),
            shaped_away(frame@) ==> (r matches Err(e) && e@ == VideoErrorView::Encode(
                "the picture has no pixels"@,
            )),
            r matches Ok(Some(p)) ==> p.bytes@.len() > 0,
            force_keyframe ==> (r matches Ok(Some(p)) ==> p.keyframe),
    {
        let shaped: Cow<'_, CapturedFrame> = match prepare_for_encode(frame) {
            Ok(shaped) => shaped,
            Err(e) => {
                return Err(e);
            },
        };
        let picture: &CapturedFrame = match &shaped {
            Cow::Borrowed(f) => f,
            Cow::Owned(f) => f,
        };
        if picture.width == 0 || picture.height == 0 {
            return Err(VideoError::Encode("the picture has no pixels".to_owned()));
        }
        let (width, height): (usize, usize) = (picture.width as usize, picture.height as usize);
        let made: Result<(FrameKind, Vec<u8>), openh264::Error> = if force_keyframe {
            h264_encode_intra(&mut self.encoder, &picture.bgra, width, height)
        } else {
            h264_encode(&mut self.encoder, &picture.bgra, width, height)
        };
        match made {
            Ok((kind, bytes)) => Ok(encoded_picture(kind, bytes)),
            Err(e) => Err(VideoError::Encode(h264_error_text(&e))),
        }
    }
}

/// An OpenH264 decoder. Trouble with one frame is not fatal: the caller skips
/// until the stream recovers.
pub struct H264Decoder {
    decoder: Decoder,
}

impl H264Decoder {
    /// The OpenH264 decoder that does the work.
    pub closed spec fn inner(&self) -> Decoder {
        self.decoder
    }

    /// A decoder over what OpenH264 gave: the one it made, or an error where it
    /// made none.
    pub fn over(made: Result<Decoder, openh264::Error>) -> (r: Result<H264Decoder, VideoError>)
        ensures
            match made {
                Ok(decoder) => r matches Ok(d) && d.inner() == decoder,
                Err(_) => r matches Err(e) && e is Encode,
            },
    {
        match made {
            Ok(decoder) => Ok(H264Decoder { decoder }),
            Err(e) => Err(VideoError::Encode(h264_error_text(&e))),
        }
    }

    /// A decoder that has seen nothing. Whether OpenH264 has one to give is not
    /// up to this library: see [`H264Decoder::over`].
    pub fn new() -> (r: Result<H264Decoder, VideoError>)
        ensures
            r matches Err(e) ==> e is Encode,
    {
        Self::over(h264_decoder())
    }

    /// The picture that `packet` completes, if it completes one. A picture is
    /// whole; a packet that cannot be decoded gives none.
    pub fn decode(&mut self, packet: &[u8]) -> (r: Option<DecodedPicture>)
        ensures
            r matches Some(p) ==> p.rgba@.len() == p.width * p.height * 4,
    {
        match h264_decode(&mut self.decoder, packet) {
            Ok(picture) => picture,
            Err(_) => None,
        }
    }
}

/// Every frame that the encoder made is sent, but for those that it skipped or that are
/// none; and those that stand alone are keyframes.
pub proof fn law_frames_are_sent_unless_skipped(kind: FrameKind)
    ensures
        kind.is_sent() <==> kind == FrameKind::Idr || kind == FrameKind::Intra || kind
            == FrameKind::Predicted || kind == FrameKind::Mixed,
        kind.stands_alone() <==> kind == FrameKind::Idr || kind == FrameKind::Intra,
        kind.stands_alone() ==> kind.is_sent(),
{
}

/// A picture of two by two pixels or more is never shaped away, as long as it is no wider
/// than the widest that is encoded.
pub proof fn law_pictures_are_not_shaped_away(v: PictureView)
    requires
        2 <= v.width <= 1280,
        2 <= v.height,
        v.is_whole(),
    ensures
        !shaped_away(v),
        !shape_fault(v),
{
    crate::media::video::law_whole_pictures_can_be_shaped(v);
}

} // verus!

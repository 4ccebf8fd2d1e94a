//! The voice pipeline.

use mikall::media::engine::{
    AudioCodec, AudioSink, CollectSink, PcmCodec, SenderControl, VoiceReceiver,
};
use mikall::media::frame::{open, seal, CallKey, FrameHeader, MediaKind};
use mikall::media::pcm::FRAME_SAMPLES;
use mikall::shared::IdentityId;

fn identity(n: u8) -> IdentityId {
    IdentityId::from_bytes([n; 32])
}

fn tone() -> Vec<i16> {
    (0..FRAME_SAMPLES)
        .map(|n| ((n as f32 * 0.1).sin() * 8000.0) as i16)
        .collect()
}

fn ship(control: &mut SenderControl, key: &CallKey, ssrc: u32, pcm: Vec<i16>) -> Vec<u8> {
    let packet = PcmCodec.encode(&control.shape(pcm));
    control.seal_packet(key, ssrc, &packet).unwrap()
}

/// Ships one frame to every peer, as it is asked for just then.
fn ship_to_all(control: &mut SenderControl, key: &CallKey, log: &mut Vec<(IdentityId, Vec<u8>)>) {
    let sealed = ship(control, key, 7, vec![1; FRAME_SAMPLES]);
    for peer in control.peers() {
        log.push((peer, sealed.clone()));
    }
}

/// Plays everything that is due from a sender.
fn play(receiver: &mut VoiceReceiver, from: &IdentityId, sink: &mut CollectSink) {
    while let Some(packet) = receiver.next_packet(from) {
        sink.play(&PcmCodec.decode(packet.as_deref()));
    }
}

#[test]
fn muted_sender_ships_silence_not_mic_audio() {
    let key = CallKey::new([3; 32]);
    let mut control = SenderControl::new(vec![identity(2)]);
    control.set_muted(true);
    assert!(control.muted());
    let mut receiver = VoiceReceiver::new();
    let mut sink = CollectSink::default();
    for _ in 0..5 {
        let sealed = ship(&mut control, &key, 7, tone());
        receiver.on_frame(&key, identity(1), &sealed);
        play(&mut receiver, &identity(1), &mut sink);
    }
    assert_eq!(control.frames_sent(), 5);
    assert_eq!(receiver.stats().played, 5);
    assert_eq!(receiver.stats().rejected, 0);
    // The tone was zeroed before encoding: pure silence on the wire.
    assert!(sink.samples.iter().all(|s| *s == 0));
    assert_eq!(sink.samples.len(), 5 * FRAME_SAMPLES);
}

#[test]
fn unmuting_mid_stream_resumes_real_audio() {
    let key = CallKey::new([3; 32]);
    let mut control = SenderControl::new(vec![identity(2)]);
    control.set_muted(true);
    let silent = ship(&mut control, &key, 7, tone());
    control.set_muted(false);
    let loud = ship(&mut control, &key, 7, tone());
    let (h0, p0) = open(&key, &silent).unwrap();
    let (h1, p1) = open(&key, &loud).unwrap();
    assert_eq!(PcmCodec.decode(Some(&p0)), vec![0; FRAME_SAMPLES]);
    assert_eq!(PcmCodec.decode(Some(&p1)), tone());
    // The stream stays paced through the mute.
    assert_eq!((h0.counter, h1.counter), (0, 1));
    assert_eq!((h0.ts, h1.ts), (0, FRAME_SAMPLES as u32));
    assert_eq!(h1.kind, MediaKind::Audio);
}

#[test]
fn sender_follows_live_peer_changes() {
    let key = CallKey::new([3; 32]);
    let mut control = SenderControl::new(vec![identity(2)]);
    let mut log = Vec::new();
    ship_to_all(&mut control, &key, &mut log);
    assert_eq!(control.frames_sent(), 1);
    control.set_peers(vec![identity(2), identity(3)]);
    ship_to_all(&mut control, &key, &mut log);
    assert_eq!(control.frames_sent(), 2);
    let sent_to: Vec<IdentityId> = log.iter().map(|(to, _)| *to).collect();
    assert_eq!(sent_to, vec![identity(2), identity(2), identity(3)]);
    // Both peers of the second frame got the same sealed bytes.
    assert_eq!(log[1].1, log[2].1);
    assert_eq!(open(&key, &log[2].1).unwrap().0.counter, 1);
}

#[test]
fn receiver_demuxes_interleaved_senders() {
    let key = CallKey::new([5; 32]);
    let mut receiver = VoiceReceiver::new();
    let mut sink = CollectSink::default();
    // Two mesh peers, same shared call key, independent counters: their frames
    // interleave on the tap.
    for counter in 0..4u64 {
        for (n, ssrc) in [(1u8, 10u32), (2u8, 20u32)] {
            let pcm = vec![i16::from(n); FRAME_SAMPLES];
            let packet = PcmCodec.encode(&pcm);
            let header = FrameHeader {
                counter,
                ts: 0,
                ssrc,
                kind: MediaKind::Audio,
                flags: 0,
            };
            let sealed = seal(&key, header, &packet).unwrap();
            receiver.on_frame(&key, identity(n), &sealed);
            play(&mut receiver, &identity(n), &mut sink);
        }
    }
    // With per-sender jitter buffers the identical counters never collide: all 8
    // frames play, none concealed, none dropped late.
    let stats = receiver.stats();
    assert_eq!(stats.played, 8);
    assert_eq!(stats.concealed, 0);
    assert_eq!(stats.rejected, 0);
    let ones = sink.samples.iter().filter(|s| **s == 1).count();
    let twos = sink.samples.iter().filter(|s| **s == 2).count();
    assert_eq!(ones, 4 * FRAME_SAMPLES);
    assert_eq!(twos, 4 * FRAME_SAMPLES);
    assert!(receiver.has_played(Some(8)));
    assert!(!receiver.has_played(Some(9)));
}

#[test]
fn a_lost_voice_frame_is_concealed() {
    let key = CallKey::new([3; 32]);
    let mut control = SenderControl::new(vec![]);
    let frames: Vec<Vec<u8>> = (0..6)
        .map(|n| ship(&mut control, &key, 1, vec![n; FRAME_SAMPLES]))
        .collect();
    let mut receiver = VoiceReceiver::new();
    let mut sink = CollectSink::default();
    for (n, sealed) in frames.iter().enumerate() {
        if n != 2 {
            receiver.on_frame(&key, identity(1), sealed);
            play(&mut receiver, &identity(1), &mut sink);
        }
    }
    assert_eq!(receiver.stats().played, 5);
    assert_eq!(receiver.stats().concealed, 1);
    assert_eq!(sink.samples[2 * FRAME_SAMPLES], 0);
    // A frame that fails authentication is only counted.
    receiver.on_frame(&CallKey::new([9; 32]), identity(1), &frames[0]);
    assert_eq!(receiver.stats().rejected, 1);
    assert_eq!(receiver.next_packet(&identity(7)), None);
}

#[test]
fn uncompressed_samples_read_back() {
    let samples = vec![0, 1, -1, 255, 256, -256, i16::MAX, i16::MIN];
    let bytes = PcmCodec.encode(&samples);
    assert_eq!(bytes[..6], [0, 0, 1, 0, 0xFF, 0xFF]);
    assert_eq!(PcmCodec.decode(Some(&bytes)), samples);
    assert_eq!(PcmCodec.decode(None), vec![0; FRAME_SAMPLES]);
}

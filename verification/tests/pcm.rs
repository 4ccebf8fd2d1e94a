//! Frames of samples.

use mikall::media::pcm::{FrameChunker, PlaybackQueue, FRAME_SAMPLES, MAX_QUEUED_SAMPLES};

fn to_pcm(s: f32) -> i16 {
    (s.clamp(-1.0, 1.0) * 32767.0) as i16
}

#[test]
fn chunker_emits_exact_frames() {
    let mut chunker = FrameChunker::default();
    let mut frames = Vec::new();
    let samples = vec![to_pcm(0.25_f32); FRAME_SAMPLES + FRAME_SAMPLES / 2];
    frames.extend(chunker.push(&samples));
    assert_eq!(frames.len(), 1);
    assert_eq!(frames[0].len(), FRAME_SAMPLES);
    frames.extend(chunker.push(&samples[..FRAME_SAMPLES / 2]));
    assert_eq!(frames.len(), 2);
}

#[test]
fn chunking_loses_no_sample() {
    let samples: Vec<i16> = (0..2500).map(|n| n as i16).collect();
    let mut chunker = FrameChunker::default();
    let mut all = Vec::new();
    for piece in samples.chunks(77) {
        for frame in chunker.push(piece) {
            assert_eq!(frame.len(), FRAME_SAMPLES);
            all.extend(frame);
        }
    }
    assert_eq!(all[..], samples[..2 * FRAME_SAMPLES]);
    // What is left comes out with the samples that fill the frame.
    let rest = chunker.push(&vec![-1; 3 * FRAME_SAMPLES - 2500]);
    assert_eq!(rest.len(), 1);
    assert_eq!(rest[0][..2500 - 2 * FRAME_SAMPLES], samples[2 * FRAME_SAMPLES..]);
}

#[test]
fn playback_drops_the_oldest_beyond_the_cap() {
    let mut queue = PlaybackQueue::new();
    let old: Vec<i16> = vec![1; MAX_QUEUED_SAMPLES];
    assert_eq!(queue.play(&old), 0);
    assert_eq!(queue.play(&[2, 3]), 2);
    let mut heard = Vec::new();
    for _ in 0..MAX_QUEUED_SAMPLES / FRAME_SAMPLES {
        heard.extend(queue.take_frame());
    }
    assert_eq!(heard.len(), MAX_QUEUED_SAMPLES);
    assert_eq!(heard[heard.len() - 3..], [1, 2, 3]);
    // An empty queue is silence, and a short one is filled up with it.
    assert_eq!(queue.take_frame(), vec![0; FRAME_SAMPLES]);
    queue.play(&[7]);
    let frame = queue.take_frame();
    assert_eq!((frame[0], frame[1], frame.len()), (7, 0, FRAME_SAMPLES));
}

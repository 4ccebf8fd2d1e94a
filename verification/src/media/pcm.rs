//! Sample runs of any size, cut into the frames of the pipeline, and the queue
//! that a playback device drains.

use std::collections::VecDeque;

use vstd::prelude::*;

verus! {

/// The pipeline's sample rate.
pub const PIPELINE_RATE: u32 = 48_000;

/// 20 ms of mono audio at 48 kHz.
pub const FRAME_SAMPLES: usize = 960;

/// Samples queued beyond this are dropped, the oldest first, so that a stalled
/// device never grows unbounded delay: 400 ms at 48 kHz.
pub const MAX_QUEUED_SAMPLES: usize = 19_200;

/// The whole frames at the front of a run of samples.
pub open spec fn whole_frames(s: Seq<i16>) -> Seq<Seq<i16>>
    decreases s.len(),
{
    if s.len() < FRAME_SAMPLES {
        seq![]
    } else {
        seq![s.take(FRAME_SAMPLES as int)] + whole_frames(s.skip(FRAME_SAMPLES as int))
    }
}

/// What is left behind the whole frames.
pub open spec fn leftover(s: Seq<i16>) -> Seq<i16>
    decreases s.len(),
{
    if s.len() < FRAME_SAMPLES {
        s
    } else {
        leftover(s.skip(FRAME_SAMPLES as int))
    }
}

pub open spec fn frame_views(frames: Seq<Vec<i16>>) -> Seq<Seq<i16>> {
    frames.map_values(|f: Vec<i16>| f@)
}

proof fn lemma_one_sample_more(s: Seq<i16>, x: i16)
    ensures
        leftover(s).len() < FRAME_SAMPLES,
        leftover(s).len() + 1 < FRAME_SAMPLES ==> whole_frames(s.push(x)) == whole_frames(s)
            && leftover(s.push(x)) == leftover(s).push(x),
        leftover(s).len() + 1 == FRAME_SAMPLES ==> whole_frames(s.push(x)) == whole_frames(s).push(
            leftover(s).push(x),
        ) && leftover(s.push(x)) == Seq::<i16>::empty(),
    decreases s.len(),
{
    let t = s.push(x);
    if s.len() < FRAME_SAMPLES {
        if t.len() == FRAME_SAMPLES {
            assert(t.take(FRAME_SAMPLES as int) =~= t);
            assert(t.skip(FRAME_SAMPLES as int) =~= Seq::<i16>::empty());
            reveal_with_fuel(whole_frames, 2);
            reveal_with_fuel(leftover, 2);
            assert(whole_frames(t) =~= seq![t]);
            assert(whole_frames(s).push(t) =~= seq![t]);
        }
    } else {
        let rest = s.skip(FRAME_SAMPLES as int);
        lemma_one_sample_more(rest, x);
        assert(t.skip(FRAME_SAMPLES as int) =~= rest.push(x));
        assert(t.take(FRAME_SAMPLES as int) =~= s.take(FRAME_SAMPLES as int));
        let first = seq![s.take(FRAME_SAMPLES as int)];
        assert(first + whole_frames(rest).push(leftover(rest).push(x)) =~= (first + whole_frames(
            rest,
        )).push(leftover(rest).push(x)));
    }
}

/// Cutting loses nothing: the frames and the leftover, one after the other, are
/// the samples, and every frame is full.
pub proof fn law_cutting_loses_nothing(s: Seq<i16>)
    ensures
        whole_frames(s).flatten() + leftover(s) == s,
        leftover(s).len() < FRAME_SAMPLES,
        forall|i: int|
            0 <= i < whole_frames(s).len() ==> (#[trigger] whole_frames(s)[i]).len()
                == FRAME_SAMPLES,
    decreases s.len(),
{
    let frames = whole_frames(s);
    if s.len() < FRAME_SAMPLES {
        assert(frames.flatten() + leftover(s) =~= s);
    } else {
        let rest = s.skip(FRAME_SAMPLES as int);
        law_cutting_loses_nothing(rest);
        assert(frames.first() == s.take(FRAME_SAMPLES as int));
        assert(frames.drop_first() =~= whole_frames(rest));
        assert(s.take(FRAME_SAMPLES as int) + rest =~= s);
        assert(frames.flatten() + leftover(s) =~= s.take(FRAME_SAMPLES as int) + (whole_frames(
            rest,
        ).flatten() + leftover(rest)));
        assert forall|i: int| 0 <= i < frames.len() implies (#[trigger] frames[i]).len()
            == FRAME_SAMPLES by {
            if i > 0 {
                assert(frames[i] == whole_frames(rest)[i - 1]);
            }
        }
    }
}

/// Accumulates sample runs of any size into exact frames.
#[derive(Debug)]
pub struct FrameChunker {
    pending: Vec<i16>,
}

impl View for FrameChunker {
    type V = Seq<i16>;

    closed spec fn view(&self) -> Seq<i16> {
        self.pending@
    }
}

impl Default for FrameChunker {
    fn default() -> (r: Self)
        ensures
            r@ == Seq::<i16>::empty(),
            r.wf(),
    {
        FrameChunker { pending: Vec::new() }
    }
}

impl FrameChunker {
    /// Less than a frame is pending.
    pub open spec fn wf(&self) -> bool {
        self@.len() < FRAME_SAMPLES
    }

    /// Takes in samples and gives out the frames that are full.
    pub fn push(&mut self, samples: &[i16]) -> (frames: Vec<Vec<i16>>)
        requires
            old(self).wf(),
        ensures
            final(self).wf(),
            frame_views(frames@) == whole_frames(old(self)@ + samples@),
            final(self)@ == leftover(old(self)@ + samples@),
    {
        let ghost start = self.pending@;
        let mut frames: Vec<Vec<i16>> = Vec::new();
        let mut i: usize = 0;
        proof {
            assert(start + samples@.take(0) =~= start);
            assert(frame_views(frames@) =~= whole_frames(start));
        }
        while i < samples.len()
            invariant
                i <= samples@.len(),
                frame_views(frames@) == whole_frames(start + samples@.take(i as int)),
                self.pending@ == leftover(start + samples@.take(i as int)),
                self.pending@.len() < FRAME_SAMPLES,
            decreases samples@.len() - i,
        {
            let ghost seen = start + samples@.take(i as int);
            let x: i16 = samples[i];
            proof {
                lemma_one_sample_more(seen, x);
                assert(start + samples@.take(i + 1) =~= seen.push(x));
            }
            self.pending.push(x);
            if self.pending.len() == FRAME_SAMPLES {
                let mut full: Vec<i16> = Vec::new();
                std::mem::swap(&mut full, &mut self.pending);
                let ghost before = frame_views(frames@);
                frames.push(full);
                assert(frame_views(frames@) =~= before.push(full@));
            }
            i = i + 1;
        }
        assert(samples@.take(i as int) =~= samples@);
        frames
    }
}

/// The samples without the oldest ones beyond the latency cap.
pub open spec fn capped(s: Seq<i16>) -> Seq<i16> {
    if s.len() > MAX_QUEUED_SAMPLES {
        s.skip(s.len() - MAX_QUEUED_SAMPLES)
    } else {
        s
    }
}

/// The first frame of a run of samples, filled up with silence.
pub open spec fn padded_frame(s: Seq<i16>) -> Seq<i16> {
    Seq::new(
        FRAME_SAMPLES as nat,
        |i: int|
            if i < s.len() {
                s[i]
            } else {
                0
            },
    )
}

/// Decoded samples on their way to a playback device. Audio older than the
/// latency cap is dropped rather than played late.
#[derive(Debug)]
pub struct PlaybackQueue {
    queue: VecDeque<i16>,
}

impl View for PlaybackQueue {
    type V = Seq<i16>;

    closed spec fn view(&self) -> Seq<i16> {
        self.queue@
    }
}

impl PlaybackQueue {
    pub fn new() -> (r: Self)
        ensures
            r@ == Seq::<i16>::empty(),
    {
        PlaybackQueue { queue: VecDeque::new() }
    }

    /// Queues samples; gives the number of old ones that were dropped.
    pub fn play(&mut self, pcm: &[i16]) -> (dropped: usize)
        requires
            old(self)@.len() + pcm@.len() <= usize::MAX,
        ensures
            final(self)@ == capped(old(self)@ + pcm@),
            dropped == old(self)@.len() + pcm@.len() - final(self)@.len(),
    {
        let ghost start = self.queue@;
        let mut i: usize = 0;
        assert(start + pcm@.take(0) =~= start);
        while i < pcm.len()
            invariant
                i <= pcm@.len(),
                self.queue@ == start + pcm@.take(i as int),
            decreases pcm@.len() - i,
        {
            self.queue.push_back(pcm[i]);
            assert(self.queue@ =~= start + pcm@.take(i + 1));
            i = i + 1;
        }
        assert(pcm@.take(i as int) =~= pcm@);
        let ghost all = start + pcm@;
        let mut dropped: usize = 0;
        assert(all.skip(0) =~= all);
        while self.queue.len() > MAX_QUEUED_SAMPLES
            invariant
                self.queue@ == all.skip(dropped as int),
                dropped <= all.len() <= usize::MAX,
                dropped > 0 ==> all.len() - dropped >= MAX_QUEUED_SAMPLES,
            decreases self.queue@.len(),
        {
            let _ = self.queue.pop_front();
            assert(self.queue@ =~= all.skip(dropped + 1));
            dropped = dropped + 1;
        }
        dropped
    }

    /// One frame for the device; an empty queue is silence.
    pub fn take_frame(&mut self) -> (r: Vec<i16>)
        ensures
            r@ == padded_frame(old(self)@),
            final(self)@ == (if old(self)@.len() <= FRAME_SAMPLES {
                Seq::<i16>::empty()
            } else {
                old(self)@.skip(FRAME_SAMPLES as int)
            }),
    {
        let ghost start = self.queue@;
        let mut r: Vec<i16> = Vec::new();
        let mut i: usize = 0;
        assert(start.skip(0) =~= start);
        while i < FRAME_SAMPLES
            invariant
                i <= FRAME_SAMPLES,
                r@.len() == i,
                forall|j: int|
                    0 <= j < i ==> #[trigger] r@[j] == (if j < start.len() {
                        start[j]
                    } else {
                        0
                    }),
                self.queue@ == (if start.len() <= i {
                    Seq::<i16>::empty()
                } else {
                    start.skip(i as int)
                }),
            decreases FRAME_SAMPLES - i,
        {
            match self.queue.pop_front() {
                Some(sample) => {
                    r.push(sample);
                    assert(start.skip(i as int).drop_first() =~= start.skip(i + 1));
                    assert(start.len() <= i + 1 ==> start.skip(i + 1) =~= Seq::<i16>::empty());
                },
                None => {
                    r.push(0);
                },
            }
            i = i + 1;
        }
        assert(r@ =~= padded_frame(start));
        r
    }
}

/// A queue that grows beyond its cap forgets the oldest samples, and only those: what is
/// left is the newest, in order, as many as the cap.
pub proof fn law_the_newest_samples_stay(s: Seq<i16>, i: int)
    ensures
        s.len() <= 19_200 ==> capped(s) == s,
        s.len() > 19_200 ==> capped(s).len() == 19_200,
        s.len() > 19_200 && 0 <= i < 19_200 ==> capped(s)[i] == s[s.len() - 19_200 + i],
{
}

/// A frame played is the oldest samples, as many as a frame has; where there are fewer,
/// silence follows them.
pub proof fn law_frames_are_filled_with_silence(s: Seq<i16>, i: int)
    requires
        0 <= i < 960,
    ensures
        padded_frame(s).len() == 960,
        i < s.len() ==> padded_frame(s)[i] == s[i],
        i >= s.len() ==> padded_frame(s)[i] == 0,
{
}

/// Samples are cut into as many frames as they fill.
pub proof fn law_every_full_frame_is_cut(s: Seq<i16>)
    ensures
        whole_frames(s).len() == s.len() as int / 960,
        leftover(s).len() == s.len() as int % 960,
    decreases s.len(),
{
    if s.len() >= FRAME_SAMPLES {
        law_every_full_frame_is_cut(s.skip(FRAME_SAMPLES as int));
    }
}

/// Every frame of a list is heard, in order, as it is.
pub proof fn law_every_frame_is_heard(list: Seq<Vec<i16>>, i: int)
    ensures
        frame_views(list).len() == list.len(),
        0 <= i < list.len() ==> frame_views(list)[i] == list[i]@,
{
}

} // verus!

//! What surrounds a hardware H.264 encoder: the byte stream that decoders take,
//! and the session that encodes one frame after the other.

use vstd::prelude::*;

use crate::bytes::{append_bytes, big_endian_value, bytes_between, read_big_endian};
use crate::media::video::{EncodedPicture, VideoError, VideoErrorView};
use crate::text::{decimal, decimal_of};

verus! {

/// What stands before every unit of the byte stream.
pub open spec fn start_code() -> Seq<u8> {
    seq![0, 0, 0, 1]
}

/// The units of a stream in which each is preceded by its length, in `field`
/// bytes. The stream ends where a length is zero or runs past the end.
pub open spec fn units(s: Seq<u8>, field: nat) -> Seq<Seq<u8>>
    decreases s.len(),
{
    if field == 0 || s.len() < field {
        seq![]
    } else {
        let n = big_endian_value(s.take(field as int));
        if n == 0 || field + n > s.len() {
            seq![]
        } else {
            seq![s.subrange(field as int, (field + n) as int)] + units(
                s.skip((field + n) as int),
                field,
            )
        }
    }
}

/// The units, each behind a start code.
pub open spec fn delimited(units: Seq<Seq<u8>>) -> Seq<u8>
    decreases units.len(),
{
    if units.len() == 0 {
        seq![]
    } else {
        start_code() + units[0] + delimited(units.drop_first())
    }
}

pub open spec fn set_views(sets: Seq<Vec<u8>>) -> Seq<Seq<u8>> {
    sets.map_values(|s: Vec<u8>| s@)
}

/// The byte stream of a sample: the parameter sets stand before every keyframe,
/// so that a keyframe alone is decodable.
pub open spec fn annex_b_bytes(
    keyframe: bool,
    sets: Seq<Seq<u8>>,
    field: nat,
    avcc: Seq<u8>,
) -> Seq<u8> {
    (if keyframe {
        delimited(sets)
    } else {
        seq![]
    }) + delimited(units(avcc, field))
}

/// Whether a sample has no byte stream: the length field is none, a keyframe
/// lacks a parameter set, or there is nothing in it.
pub open spec fn annex_b_fault(
    keyframe: bool,
    sets: Seq<Seq<u8>>,
    field: int,
    avcc: Seq<u8>,
) -> bool {
    ||| !(1 <= field <= 4)
    ||| keyframe && exists|i: int| 0 <= i < sets.len() && (#[trigger] sets[i]).len() == 0
    ||| annex_b_bytes(keyframe, sets, field as nat, avcc).len() == 0
}

/// A keyframe's byte stream opens with the parameter sets.
pub proof fn law_keyframes_carry_their_parameter_sets(
    sets: Seq<Seq<u8>>,
    field: nat,
    avcc: Seq<u8>,
)
    ensures
        delimited(sets).is_prefix_of(annex_b_bytes(true, sets, field, avcc)),
{
    assert(annex_b_bytes(true, sets, field, avcc).take(delimited(sets).len() as int) =~= delimited(
        sets,
    ));
}

fn push_unit(out: &mut Vec<u8>, unit: &[u8])
    ensures
        final(out)@ == old(out)@ + (start_code() + unit@),
{
    out.push(0);
    out.push(0);
    out.push(0);
    out.push(1);
    append_bytes(out, unit);
    assert(out@ =~= old(out)@ + (start_code() + unit@));
}

fn push_sets(out: &mut Vec<u8>, sets: &Vec<Vec<u8>>) -> (ok: bool)
    ensures
        ok ==> final(out)@ == old(out)@ + delimited(set_views(sets@)),
        ok == !exists|i: int|
            0 <= i < sets@.len() && (#[trigger] set_views(sets@)[i]).len() == 0,
{
    let ghost views = set_views(sets@);
    let mut i: usize = 0;
    assert(views.skip(0) =~= views);
    while i < sets.len()
        invariant
            i <= sets@.len(),
            views == set_views(sets@),
            out@ + delimited(views.skip(i as int)) == old(out)@ + delimited(views),
            forall|j: int| 0 <= j < i ==> (#[trigger] views[j]).len() > 0,
        decreases sets@.len() - i,
    {
        if sets[i].len() == 0 {
            assert(views[i as int].len() == 0);
            return false;
        }
        let ghost before = out@;
        push_unit(out, &sets[i]);
        proof {
            let rest = views.skip(i as int);
            assert(rest.drop_first() =~= views.skip(i + 1));
            assert(rest[0] == sets@[i as int]@);
            assert(out@ + delimited(views.skip(i + 1)) =~= before + delimited(rest));
        }
        i = i + 1;
    }
    assert(views.skip(i as int) =~= Seq::<Seq<u8>>::empty());
    assert(out@ =~= old(out)@ + delimited(views));
    true
}

fn push_units(out: &mut Vec<u8>, avcc: &[u8], field: usize)
    requires
        1 <= field <= 4,
    ensures
        final(out)@ == old(out)@ + delimited(units(avcc@, field as nat)),
{
    let len: usize = avcc.len();
    let ghost total = old(out)@ + delimited(units(avcc@, field as nat));
    let mut offset: usize = 0;
    assert(avcc@.skip(0) =~= avcc@);
    while len - offset >= field
        invariant_except_break
            offset <= len == avcc@.len(),
            1 <= field <= 4,
            out@ + delimited(units(avcc@.skip(offset as int), field as nat)) == total,
        ensures
            out@ == total,
        decreases len - offset,
    {
        let ghost rest = avcc@.skip(offset as int);
        let n: u64 = read_big_endian(avcc, offset, field);
        let after: usize = offset + field;
        proof {
            assert(rest.take(field as int) =~= avcc@.subrange(
                offset as int,
                offset + field,
            ));
        }
        if n == 0 || n > (len - after) as u64 {
            assert(out@ =~= out@ + delimited(units(rest, field as nat)));
            break;
        }
        let end: usize = after + n as usize;
        let unit: Vec<u8> = bytes_between(avcc, after, end);
        let ghost before = out@;
        push_unit(out, &unit);
        proof {
            let us = units(rest, field as nat);
            assert(unit@ =~= rest.subrange(field as int, field + n as int));
            assert(rest.skip(field + n as int) =~= avcc@.skip(end as int));
            assert(us.drop_first() =~= units(avcc@.skip(end as int), field as nat));
            assert(us[0] == unit@);
            assert(out@ + delimited(units(avcc@.skip(end as int), field as nat)) =~= before
                + delimited(us));
        }
        offset = end;
        if len - offset < field {
            assert(out@ =~= out@ + delimited(
                units(avcc@.skip(offset as int), field as nat),
            ));
        }
    }
}

/// The byte stream of one compressed sample, whose units come with their
/// lengths and whose parameter sets come apart.
pub fn annex_b_of(
    keyframe: bool,
    parameter_sets: &Vec<Vec<u8>>,
    nal_length_field: i32,
    avcc: &[u8],
) -> (r: Option<EncodedPicture>)
    ensures
        match r {
            Some(p) => {
                &&& !annex_b_fault(
                    keyframe,
                    set_views(parameter_sets@),
                    nal_length_field as int,
                    avcc@,
                )
                &&& p.keyframe == keyframe
                &&& p.bytes@ == annex_b_bytes(
                    keyframe,
                    set_views(parameter_sets@),
                    nal_length_field as nat,
                    avcc@,
                )
            },
            None => annex_b_fault(
                keyframe,
                set_views(parameter_sets@),
                nal_length_field as int,
                avcc@,
            ),
        },
{
    if nal_length_field < 1 || nal_length_field > 4 {
        return None;
    }
    let mut bytes: Vec<u8> = Vec::new();
    if keyframe {
        if !push_sets(&mut bytes, parameter_sets) {
            return None;
        }
        assert(bytes@ =~= delimited(set_views(parameter_sets@)));
    }
    push_units(&mut bytes, avcc, nal_length_field as usize);
    assert(bytes@ =~= annex_b_bytes(
        keyframe,
        set_views(parameter_sets@),
        nal_length_field as nat,
        avcc@,
    ));
    if bytes.len() == 0 {
        return None;
    }
    Some(EncodedPicture { bytes, keyframe })
}

/// What the encoder put out for a submitted frame.
#[derive(Debug)]
pub enum VtEmitted {
    Picture(EncodedPicture),
    /// Rate control dropped the frame: nothing goes on the wire.
    Dropped,
    /// Encoding failed with this status.
    Error(i32),
}

/// A number with its sign.
pub open spec fn signed_decimal(n: int) -> Seq<char> {
    if n < 0 {
        "-"@ + decimal((-n) as nat)
    } else {
        decimal(n as nat)
    }
}

fn signed_decimal_of(n: i32) -> (r: String)
    ensures
        r@ == signed_decimal(n as int),
{
    if n < 0 {
        let mut out: String = "-".to_owned();
        out.append(decimal_of((-(n as i64)) as u64).as_str());
        out
    } else {
        decimal_of(n as u64)
    }
}

/// How a failed status reads.
pub open spec fn status_text(status: int) -> Seq<char> {
    "VT output callback reported OSStatus "@ + signed_decimal(status)
}

#[derive(Debug, Clone, Copy, PartialEq, Eq, Structural)]
pub struct Dimensions {
    pub width: u32,
    pub height: u32,
}

/// The state of the encoder between the calls into it.
#[derive(Debug, Clone, Copy, PartialEq, Eq, Structural)]
pub struct VtState {
    /// The geometry that the session was built for, while there is one.
    pub active: Option<Dimensions>,
    pub bitrate_bps: u32,
    pub pending_bitrate_bps: Option<u32>,
    /// Frames encoded, also the presentation clock in frame intervals.
    pub counter: i64,
    /// The frame that is being encoded, and whether it is its second try.
    pub frame: Dimensions,
    pub retried: bool,
    /// The bitrate that is being applied.
    pub retargeting: Option<u32>,
}

/// What to do next.
#[derive(Debug)]
pub enum VtAction {
    /// Tear down the session there may be and build one.
    Build(Dimensions),
    Retarget(u32),
    /// Submit the frame, stamped so many intervals after the first.
    Submit(i64),
    /// Wait for the output.
    Complete,
    Finish(Result<Option<EncodedPicture>, VideoError>),
}

/// What came of it.
#[derive(Debug)]
pub enum VtEvent {
    Built,
    Retargeted,
    Submitted,
    Completed(Vec<VtEmitted>),
    Failed(VideoError),
}

#[verifier::ext_equal]
pub ghost enum VtActionView {
    Build(Dimensions),
    Retarget(u32),
    Submit(i64),
    Complete,
    Finish(Result<Option<EncodedPicture>, VideoErrorView>),
}

impl View for VtAction {
    type V = VtActionView;

    open spec fn view(&self) -> VtActionView {
        match self {
            VtAction::Build(d) => VtActionView::Build(*d),
            VtAction::Retarget(b) => VtActionView::Retarget(*b),
            VtAction::Submit(t) => VtActionView::Submit(*t),
            VtAction::Complete => VtActionView::Complete,
            VtAction::Finish(Ok(p)) => VtActionView::Finish(Ok(*p)),
            VtAction::Finish(Err(e)) => VtActionView::Finish(Err(e@)),
        }
    }
}

/// A session is there for the frame: a changed bitrate is applied first. A
/// bitrate that is in force already is taken off the list.
pub open spec fn with_session(v: VtState) -> (VtState, VtActionView) {
    match v.pending_bitrate_bps {
        Some(bps) => if bps != v.bitrate_bps {
            (
                VtState { pending_bitrate_bps: None, retargeting: Some(bps), ..v },
                VtActionView::Retarget(bps),
            )
        } else {
            (VtState { pending_bitrate_bps: None, ..v }, VtActionView::Submit(v.counter))
        },
        None => (v, VtActionView::Submit(v.counter)),
    }
}

/// The first step of a try: a session of another geometry is rebuilt.
pub open spec fn tried(v: VtState) -> (VtState, VtActionView) {
    if v.active == Some(v.frame) {
        with_session(v)
    } else {
        (VtState { active: None, ..v }, VtActionView::Build(v.frame))
    }
}

/// A failure: the session is rebuilt and the frame tried once more; the second
/// failure surfaces.
pub open spec fn after_failure(v: VtState, e: VideoErrorView) -> (VtState, VtActionView) {
    if v.retried {
        (v, VtActionView::Finish(Err(e)))
    } else {
        tried(VtState { retried: true, active: None, ..v })
    }
}

pub open spec fn ticked(counter: i64) -> i64 {
    if counter < i64::MAX {
        (counter + 1) as i64
    } else {
        counter
    }
}

/// The step that follows an event. Of what the encoder put out the last counts.
pub open spec fn vt_step(v: VtState, event: VtEvent) -> (VtState, VtActionView) {
    match event {
        VtEvent::Built => with_session(VtState { active: Some(v.frame), ..v }),
        VtEvent::Retargeted => (
            VtState {
                bitrate_bps: match v.retargeting {
                    Some(bps) => bps,
                    None => v.bitrate_bps,
                },
                retargeting: None,
                ..v
            },
            VtActionView::Submit(v.counter),
        ),
        VtEvent::Submitted => (v, VtActionView::Complete),
        VtEvent::Completed(emitted) => {
            let w = VtState { counter: ticked(v.counter), ..v };
            if emitted@.len() == 0 {
                (w, VtActionView::Finish(Ok(None)))
            } else {
                match emitted@.last() {
                    VtEmitted::Picture(p) => (w, VtActionView::Finish(Ok(Some(p)))),
                    VtEmitted::Dropped => (w, VtActionView::Finish(Ok(None))),
                    VtEmitted::Error(status) => after_failure(
                        w,
                        VideoErrorView::Encode(status_text(status as int)),
                    ),
                }
            }
        },
        VtEvent::Failed(e) => after_failure(v, e@),
    }
}

/// One failure is mended by a fresh session, and only one.
pub proof fn law_one_failure_is_mended(v: VtState, first: VideoError, second: VideoError)
    requires
        !v.retried,
    ensures
        vt_step(v, VtEvent::Failed(first)).1 == VtActionView::Build(v.frame),
        vt_step(vt_step(v, VtEvent::Failed(first)).0, VtEvent::Failed(second)).1
            == VtActionView::Finish(
            Err::<Option<EncodedPicture>, VideoErrorView>(second@),
        ),
{
}

/// A new bitrate takes effect without a rebuild, once.
pub proof fn law_bitrate_is_applied_live(v: VtState, bps: u32)
    requires
        v.active == Some(v.frame),
        bps != v.bitrate_bps,
        v.pending_bitrate_bps == Some(bps),
    ensures
        tried(v).1 == VtActionView::Retarget(bps),
        vt_step(tried(v).0, VtEvent::Retargeted).0.bitrate_bps == bps,
        vt_step(tried(v).0, VtEvent::Retargeted).0.active == v.active,
        vt_step(tried(v).0, VtEvent::Retargeted).0.pending_bitrate_bps is None,
{
}

impl VtState {
    /// The encoder after its session was probed at `probe`.
    pub fn new(probe: Dimensions, bitrate_bps: u32) -> (r: Self)
        ensures
            r == (VtState {
                active: Some(probe),
                bitrate_bps,
                pending_bitrate_bps: None,
                counter: 0,
                frame: probe,
                retried: false,
                retargeting: None,
            }),
    {
        VtState {
            active: Some(probe),
            bitrate_bps,
            pending_bitrate_bps: None,
            counter: 0,
            frame: probe,
            retried: false,
            retargeting: None,
        }
    }

    /// Asks for a bitrate, to be applied with the next frame.
    pub fn set_target_bitrate(&mut self, bps: u32)
        ensures
            *final(self) == (VtState { pending_bitrate_bps: Some(bps), ..*old(self) }),
    {
        self.pending_bitrate_bps = Some(bps);
    }

    fn on_session(&mut self) -> (r: VtAction)
        ensures
            (*final(self), r@) == with_session(*old(self)),
    {
        if let Some(bps) = self.pending_bitrate_bps {
            self.pending_bitrate_bps = None;
            if bps != self.bitrate_bps {
                self.retargeting = Some(bps);
                return VtAction::Retarget(bps);
            }
        }
        VtAction::Submit(self.counter)
    }

    fn try_frame(&mut self) -> (r: VtAction)
        ensures
            (*final(self), r@) == tried(*old(self)),
    {
        let fits: bool = match self.active {
            Some(d) => d == self.frame,
            None => false,
        };
        if fits {
            self.on_session()
        } else {
            self.active = None;
            VtAction::Build(self.frame)
        }
    }

    fn on_failure(&mut self, e: VideoError) -> (r: VtAction)
        ensures
            (*final(self), r@) == after_failure(*old(self), e@),
    {
        if self.retried {
            return VtAction::Finish(Err(e));
        }
        self.retried = true;
        self.active = None;
        self.try_frame()
    }

    /// Starts to encode a shaped frame.
    pub fn encode(&mut self, frame: Dimensions) -> (r: VtAction)
        ensures
            (*final(self), r@) == tried(
                VtState { frame, retried: false, retargeting: None, ..*old(self) },
            ),
    {
        self.frame = frame;
        self.retried = false;
        self.retargeting = None;
        self.try_frame()
    }

    /// Goes on with the frame.
    pub fn step(&mut self, event: VtEvent) -> (r: VtAction)
        ensures
            (*final(self), r@) == vt_step(*old(self), event),
    {
        match event {
            VtEvent::Built => {
                self.active = Some(self.frame);
                self.on_session()
            },
            VtEvent::Retargeted => {
                if let Some(bps) = self.retargeting {
                    self.bitrate_bps = bps;
                }
                self.retargeting = None;
                VtAction::Submit(self.counter)
            },
            VtEvent::Submitted => VtAction::Complete,
            VtEvent::Completed(emitted) => {
                let mut emitted = emitted;
                if self.counter < i64::MAX {
                    self.counter = self.counter + 1;
                }
                match emitted.pop() {
                    None => VtAction::Finish(Ok(None)),
                    Some(VtEmitted::Picture(p)) => VtAction::Finish(Ok(Some(p))),
                    Some(VtEmitted::Dropped) => VtAction::Finish(Ok(None)),
                    Some(VtEmitted::Error(status)) => {
                        let mut why: String = "VT output callback reported OSStatus ".to_owned();
                        why.append(signed_decimal_of(status).as_str());
                        self.on_failure(VideoError::Encode(why))
                    },
                }
            },
            VtEvent::Failed(e) => self.on_failure(e),
        }
    }
}

/// The stream in which each unit is preceded by its length, in `field` bytes.
pub open spec fn measured_stream(parts: Seq<Seq<u8>>, field: nat) -> Seq<u8>
    decreases parts.len(),
{
    if parts.len() == 0 {
        seq![]
    } else {
        crate::bytes::big_endian(parts[0].len(), field) + parts[0] + measured_stream(parts.drop_first(), field)
    }
}

/// Every unit of a sample is found, whole and in order: reading a stream of measured units
/// gives back the units.
pub proof fn law_every_unit_is_found(parts: Seq<Seq<u8>>, field: nat)
    requires
        1 <= field <= 4,
        forall|i: int|
            0 <= i < parts.len() ==> 0 < (#[trigger] parts[i]).len() < crate::bytes::pow256(field),
    ensures
        units(measured_stream(parts, field), field) == parts,
    decreases parts.len(),
{
    let s = measured_stream(parts, field);
    if parts.len() > 0 {
        let first = parts[0];
        let rest = parts.drop_first();
        assert forall|i: int| 0 <= i < rest.len() implies 0 < (#[trigger] rest[i]).len()
            < crate::bytes::pow256(field) by {
            assert(rest[i] == parts[i + 1]);
        }
        law_every_unit_is_found(rest, field);
        crate::bytes::lemma_lens(first.len(), field);
        crate::bytes::lemma_big_endian_reads_back(first.len(), field);
        assert(s.take(field as int) =~= crate::bytes::big_endian(first.len(), field));
        assert(s.subrange(field as int, (field + first.len()) as int) =~= first);
        assert(s.skip((field + first.len()) as int) =~= measured_stream(rest, field));
        assert(seq![first] + rest =~= parts);
    } else {
        assert(units(s, field) =~= parts);
    }
}

/// A byte stream holds each unit behind a start code, in order.
pub proof fn law_units_stand_behind_start_codes(parts: Seq<Seq<u8>>, last: Seq<u8>)
    ensures
        delimited(Seq::<Seq<u8>>::empty()).len() == 0,
        delimited(parts.push(last)) == delimited(parts) + seq![0u8, 0u8, 0u8, 1u8] + last,
    decreases parts.len(),
{
    let all = parts.push(last);
    if parts.len() > 0 {
        law_units_stand_behind_start_codes(parts.drop_first(), last);
        assert(all.drop_first() =~= parts.drop_first().push(last));
        assert(delimited(all) =~= delimited(parts) + seq![0u8, 0u8, 0u8, 1u8] + last);
    } else {
        assert(all.drop_first() =~= Seq::<Seq<u8>>::empty());
        assert(delimited(all.drop_first()) =~= Seq::<u8>::empty());
        assert(delimited(parts) =~= Seq::<u8>::empty());
        assert(all[0] == last);
        assert(delimited(all) =~= delimited(parts) + seq![0u8, 0u8, 0u8, 1u8] + last);
    }
}

/// A sample that has something in it has a byte stream: with a length field of one to four
/// bytes, and, for a keyframe, with parameter sets that are there.
pub proof fn law_sound_samples_have_a_stream(
    keyframe: bool,
    sets: Seq<Seq<u8>>,
    field: int,
    avcc: Seq<u8>,
)
    requires
        1 <= field <= 4,
        units(avcc, field as nat).len() > 0,
        keyframe ==> forall|i: int| 0 <= i < sets.len() ==> (#[trigger] sets[i]).len() > 0,
    ensures
        !annex_b_fault(keyframe, sets, field, avcc),
        !keyframe ==> annex_b_bytes(keyframe, sets, field as nat, avcc) == delimited(
            units(avcc, field as nat),
        ),
        keyframe ==> annex_b_bytes(keyframe, sets, field as nat, avcc) == delimited(sets)
            + delimited(units(avcc, field as nat)),
{
    let body = delimited(units(avcc, field as nat));
    assert(body.len() >= 4);
    if !keyframe {
        assert(Seq::<u8>::empty() + body =~= body);
    }
}

/// A frame goes its way: with a session for its size it is handed in under the present
/// count; handed in, it is awaited; and what the encoder put out last is what comes of it.
/// A session of another size is built anew first.
pub proof fn law_a_frame_goes_its_way(v: VtState, emitted: Vec<VtEmitted>, p: EncodedPicture)
    ensures
        v.active == Some(v.frame) && v.pending_bitrate_bps is None ==> tried(v) == (
            v,
            VtActionView::Submit(v.counter),
        ),
        v.active != Some(v.frame) ==> tried(v).1 == VtActionView::Build(v.frame) && tried(
            v,
        ).0.active is None,
        v.pending_bitrate_bps is None ==> vt_step(v, VtEvent::Built) == (
            VtState { active: Some(v.frame), ..v },
            VtActionView::Submit(v.counter),
        ),
        vt_step(v, VtEvent::Submitted) == (v, VtActionView::Complete),
        vt_step(v, VtEvent::Retargeted).1 == VtActionView::Submit(v.counter),
        emitted@.len() > 0 && emitted@.last() == VtEmitted::Picture(p) ==> vt_step(
            v,
            VtEvent::Completed(emitted),
        ).1 == VtActionView::Finish(Ok::<Option<EncodedPicture>, VideoErrorView>(Some(p))),
        emitted@.len() == 0 || emitted@.last() is Dropped ==> vt_step(
            v,
            VtEvent::Completed(emitted),
        ).1 == VtActionView::Finish(
            Ok::<Option<EncodedPicture>, VideoErrorView>(None::<EncodedPicture>),
        ),
        v.counter < i64::MAX && (emitted@.len() == 0 || !(emitted@.last() is Error)) ==> vt_step(
            v,
            VtEvent::Completed(emitted),
        ).0.counter == v.counter + 1,
        v.counter < i64::MAX && (emitted@.len() == 0 || !(emitted@.last() is Error)) ==> vt_step(
            v,
            VtEvent::Completed(emitted),
        ).0.active == v.active,
{
}

/// A bitrate that is in force already is not applied again, and a frame that failed in the
/// encoder is tried once more with a fresh session; then the failure surfaces.
pub proof fn law_second_failures_surface(v: VtState, emitted: Vec<VtEmitted>)
    requires
        emitted@.len() > 0,
        emitted@.last() is Error,
    ensures
        v.active == Some(v.frame) && v.pending_bitrate_bps == Some(v.bitrate_bps) ==> tried(v).1
            == VtActionView::Submit(v.counter) && tried(v).0.pending_bitrate_bps is None,
        !v.retried ==> vt_step(v, VtEvent::Completed(emitted)).1 == VtActionView::Build(v.frame)
            && vt_step(v, VtEvent::Completed(emitted)).0.retried,
        v.retried ==> (vt_step(v, VtEvent::Completed(emitted)).1 matches VtActionView::Finish(r)
            && r is Err),
{
}

/// A new bitrate is not lost to a rebuild: whether the session is new or mended, it is asked
/// for before the frame is submitted.
pub proof fn law_bitrates_outlive_sessions(v: VtState, bps: u32, e: VideoError)
    requires
        bps != v.bitrate_bps,
        v.pending_bitrate_bps == Some(bps),
    ensures
        vt_step(v, VtEvent::Built) == (
            VtState {
                active: Some(v.frame),
                pending_bitrate_bps: None,
                retargeting: Some(bps),
                ..v
            },
            VtActionView::Retarget(bps),
        ),
        v.active != Some(v.frame) ==> vt_step(tried(v).0, VtEvent::Built).1
            == VtActionView::Retarget(bps),
        !v.retried ==> vt_step(vt_step(v, VtEvent::Failed(e)).0, VtEvent::Built).1
            == VtActionView::Retarget(bps),
{
}

/// A frame that is through leaves the encoder as it was, but for the counter.
pub proof fn law_frames_leave_only_their_count(v: VtState, emitted: Vec<VtEmitted>)
    requires
        v.counter < i64::MAX,
        emitted@.len() == 0 || !(emitted@.last() is Error),
    ensures
        vt_step(v, VtEvent::Completed(emitted)).0 == (VtState {
            counter: (v.counter + 1) as i64,
            ..v
        }),
        vt_step(v, VtEvent::Retargeted).0 == (VtState {
            bitrate_bps: if v.retargeting is Some {
                v.retargeting->0
            } else {
                v.bitrate_bps
            },
            retargeting: None,
            ..v
        }),
{
}

} // verus!

//! A small reorder buffer per sender stream.
//!
//! Frames arrive keyed by their monotonic counter. [`JitterBuffer::pop_next`]
//! releases them in order, and reports a gap as missing once enough has arrived
//! beyond it, so that the codec can conceal the loss instead of stalling.

use vstd::prelude::*;

use crate::media::video::counted;
use crate::sorted::SortedMap;

verus! {

#[derive(Debug, Clone, PartialEq, Eq)]
pub enum Popped {
    /// The next in-order frame.
    Frame(Vec<u8>),
    /// The next slot never arrived within the reorder window: conceal it.
    Missing,
    /// Nothing ready yet.
    Waiting,
}

#[verifier::ext_equal]
pub ghost enum PoppedView {
    Frame(Seq<u8>),
    Missing,
    Waiting,
}

impl View for Popped {
    type V = PoppedView;

    open spec fn view(&self) -> PoppedView {
        match self {
            Popped::Frame(f) => PoppedView::Frame(f@),
            Popped::Missing => PoppedView::Missing,
            Popped::Waiting => PoppedView::Waiting,
        }
    }
}

/// The frames at hand by counter, the playhead once there is one, how far the
/// stream may run ahead of a gap, and what was lost on the way.
#[verifier::ext_equal]
pub ghost struct JitterView {
    pub frames: Map<u64, Seq<u8>>,
    pub next: Option<u64>,
    pub depth: u64,
    pub dropped_late: u64,
    pub concealed: u64,
}

/// `k` is the lowest counter at hand.
pub open spec fn is_earliest(frames: Map<u64, Seq<u8>>, k: u64) -> bool {
    &&& frames.contains_key(k)
    &&& forall|x: u64| frames.contains_key(x) ==> k <= x
}

pub open spec fn earliest(frames: Map<u64, Seq<u8>>) -> u64 {
    choose|k: u64| is_earliest(frames, k)
}

impl JitterView {
    /// Nothing at hand lies behind the playhead.
    pub open spec fn ordered(self) -> bool {
        &&& self.depth >= 1
        &&& self.frames.dom().finite()
        &&& self.next matches Some(n) ==> forall|x: u64|
            self.frames.contains_key(x) ==> n <= x
    }

    /// The counter that is due: the playhead, or where the stream starts.
    pub open spec fn due(self) -> u64 {
        match self.next {
            Some(n) => n,
            None => earliest(self.frames),
        }
    }

    /// Enough has arrived beyond the due frame to give it up.
    pub open spec fn given_up(self) -> bool {
        self.frames.len() >= self.depth || earliest(self.frames) - self.due() > self.depth
    }

    pub open spec fn is_late(self, counter: u64) -> bool {
        self.next matches Some(n) && counter < n
    }
}

/// The buffer after a frame arrived.
pub open spec fn after_push(v: JitterView, counter: u64, payload: Seq<u8>) -> JitterView {
    if v.is_late(counter) {
        JitterView { dropped_late: counted(v.dropped_late + 1), ..v }
    } else {
        JitterView { frames: v.frames.insert(counter, payload), ..v }
    }
}

/// What the next slot gives.
pub open spec fn next_slot(v: JitterView) -> PoppedView {
    if v.frames.is_empty() {
        PoppedView::Waiting
    } else if v.frames.contains_key(v.due()) {
        PoppedView::Frame(v.frames[v.due()])
    } else if v.given_up() {
        PoppedView::Missing
    } else {
        PoppedView::Waiting
    }
}

/// The buffer after its next slot was asked for.
pub open spec fn after_pop(v: JitterView) -> JitterView {
    match next_slot(v) {
        PoppedView::Waiting => v,
        PoppedView::Frame(_) => JitterView {
            frames: v.frames.remove(v.due()),
            next: Some((v.due() + 1) as u64),
            ..v
        },
        PoppedView::Missing => JitterView {
            next: Some((v.due() + 1) as u64),
            concealed: counted(v.concealed + 1),
            ..v
        },
    }
}

proof fn lemma_earliest(frames: Map<u64, Seq<u8>>, k: u64)
    requires
        is_earliest(frames, k),
    ensures
        earliest(frames) == k,
{
    assert(is_earliest(frames, earliest(frames)));
}

/// A frame that comes after its slot has been played is only counted.
pub proof fn law_late_frame_leaves_no_trace(v: JitterView, counter: u64, payload: Seq<u8>)
    requires
        v.is_late(counter),
    ensures
        after_push(v, counter, payload).frames == v.frames,
        after_push(v, counter, payload).next == v.next,
        next_slot(after_push(v, counter, payload)) == next_slot(v),
{
}

/// In what order two frames arrive does not matter.
pub proof fn law_arrival_order_does_not_matter(
    v: JitterView,
    a: u64,
    pa: Seq<u8>,
    b: u64,
    pb: Seq<u8>,
)
    requires
        a != b,
    ensures
        after_push(after_push(v, a, pa), b, pb) == after_push(after_push(v, b, pb), a, pa),
{
    assert(v.frames.insert(a, pa).insert(b, pb) =~= v.frames.insert(b, pb).insert(a, pa));
}

/// Slots come out one after the other: once a slot was played or concealed, the
/// playhead stands right behind it, and no frame of an earlier slot is ever
/// played.
pub proof fn law_slots_come_in_order(v: JitterView)
    requires
        v.ordered(),
        !v.frames.is_empty() ==> v.due() < u64::MAX,
    ensures
        after_pop(v).ordered(),
        next_slot(v) !is Waiting ==> after_pop(v).next == Some((v.due() + 1) as u64)
            && after_pop(v).due() == v.due() + 1,
        next_slot(v) is Waiting ==> after_pop(v) == v,
        v.next is Some ==> after_pop(v).next is Some && v.next->0 <= after_pop(v).next->0,
{
    if next_slot(v) !is Waiting && v.next is None {
        lemma_earliest_exists(v.frames);
    }
}

proof fn lemma_earliest_exists(frames: Map<u64, Seq<u8>>)
    requires
        frames.dom().finite(),
        !frames.is_empty(),
    ensures
        is_earliest(frames, earliest(frames)),
    decreases frames.dom().len(),
{
    let k = frames.dom().choose();
    assert(frames.dom().contains(k)) by {
        assert(exists|x: u64| frames.dom().contains(x)) by {
            if forall|x: u64| !frames.dom().contains(x) {
                assert(frames.dom() =~= Set::empty());
                assert(frames =~= Map::empty());
            }
        }
    }
    let rest = frames.remove(k);
    if rest.is_empty() {
        assert(forall|x: u64| frames.contains_key(x) ==> x == k) by {
            assert forall|x: u64| frames.contains_key(x) implies x == k by {
                if x != k {
                    assert(rest.contains_key(x));
                }
            }
        }
        assert(is_earliest(frames, k));
    } else {
        lemma_earliest_exists(rest);
        let e = earliest(rest);
        let m = if e <= k { e } else { k };
        assert forall|x: u64| frames.contains_key(x) implies m <= x by {
            if x != k {
                assert(rest.contains_key(x));
            }
        }
        assert(is_earliest(frames, m));
    }
}

/// What is done to a buffer.
pub ghost enum JitterStep {
    Push { counter: u64, payload: Seq<u8> },
    Pop,
}

/// A slot that came out: its counter, and its frame unless it was concealed.
pub ghost struct Slot {
    pub counter: u64,
    pub payload: Option<Seq<u8>>,
}

/// A buffer that nothing was done to yet.
pub open spec fn fresh_buffer(depth: u64) -> JitterView {
    JitterView {
        frames: Map::empty(),
        next: None,
        depth: if depth >= 1 {
            depth
        } else {
            1
        },
        dropped_late: 0,
        concealed: 0,
    }
}

/// The buffer after a run of pushes and pops.
pub open spec fn after_run(depth: u64, steps: Seq<JitterStep>) -> JitterView
    decreases steps.len(),
{
    if steps.len() == 0 {
        fresh_buffer(depth)
    } else {
        let v = after_run(depth, steps.drop_last());
        match steps.last() {
            JitterStep::Push { counter, payload } => after_push(v, counter, payload),
            JitterStep::Pop => after_pop(v),
        }
    }
}

/// The slots that a run released, in the order in which they came.
pub open spec fn released(depth: u64, steps: Seq<JitterStep>) -> Seq<Slot>
    decreases steps.len(),
{
    if steps.len() == 0 {
        seq![]
    } else {
        let v = after_run(depth, steps.drop_last());
        let before = released(depth, steps.drop_last());
        match (steps.last(), next_slot(v)) {
            (JitterStep::Pop, PoppedView::Frame(f)) => before.push(
                Slot { counter: v.due(), payload: Some(f) },
            ),
            (JitterStep::Pop, PoppedView::Missing) => before.push(
                Slot { counter: v.due(), payload: None },
            ),
            _ => before,
        }
    }
}

/// The last payload that a run pushed for a slot before the slot was over.
pub open spec fn pushed_in_time(depth: u64, steps: Seq<JitterStep>, slot: u64) -> Option<Seq<u8>>
    decreases steps.len(),
{
    if steps.len() == 0 {
        None
    } else {
        let before = pushed_in_time(depth, steps.drop_last(), slot);
        match steps.last() {
            JitterStep::Push { counter, payload } => if counter == slot && !after_run(
                depth,
                steps.drop_last(),
            ).is_late(counter) {
                Some(payload)
            } else {
                before
            },
            JitterStep::Pop => before,
        }
    }
}

/// How many slots were concealed.
pub open spec fn losses(slots: Seq<Slot>) -> nat
    decreases slots.len(),
{
    if slots.len() == 0 {
        0
    } else {
        losses(slots.drop_last()) + if slots.last().payload is None {
            1nat
        } else {
            0
        }
    }
}

/// No counter is the last that there is.
pub open spec fn countable(steps: Seq<JitterStep>) -> bool {
    forall|i: int|
        0 <= i < steps.len() ==> ((#[trigger] steps[i]) matches JitterStep::Push { counter, .. }
            ==> counter < u64::MAX)
}

/// What a run leaves at hand: every frame that was pushed in time for a slot that
/// is not over, and nothing else.
pub open spec fn holds_what_is_due(depth: u64, steps: Seq<JitterStep>) -> bool {
    let v = after_run(depth, steps);
    &&& forall|k: u64| #[trigger]
        v.frames.contains_key(k) <==> !v.is_late(k) && pushed_in_time(depth, steps, k) is Some
    &&& forall|k: u64| #[trigger]
        v.frames.contains_key(k) ==> pushed_in_time(depth, steps, k) == Some(v.frames[k])
}

/// Over a whole run of pushes and pops each slot is played or concealed once, in
/// order. The slots released are consecutive, from the lowest one at hand when
/// the first was; a released slot gives the last payload that was pushed in time
/// for it, and is concealed if there is none. The playhead stands behind the last
/// slot released, what is at hand is what was pushed in time for the slots to
/// come, and the buffer counts what it concealed.
pub proof fn law_every_slot_comes_once(depth: u64, steps: Seq<JitterStep>)
    requires
        countable(steps),
    ensures
        after_run(depth, steps).ordered(),
        !after_run(depth, steps).frames.is_empty() ==> after_run(depth, steps).due() < u64::MAX,
        ({
            let slots = released(depth, steps);
            let v = after_run(depth, steps);
            &&& forall|i: int|
                0 <= i < slots.len() ==> (#[trigger] slots[i]).counter == slots[0].counter + i
            &&& forall|i: int|
                0 <= i < slots.len() ==> (#[trigger] slots[i]).payload == pushed_in_time(
                    depth,
                    steps,
                    slots[i].counter,
                )
            &&& match v.next {
                None => slots.len() == 0,
                Some(n) => slots.len() > 0 && slots.last().counter + 1 == n,
            }
            &&& v.concealed == counted(losses(slots) as int)
        }),
        holds_what_is_due(depth, steps),
    decreases steps.len(),
{
    let v1 = after_run(depth, steps);
    if steps.len() > 0 {
        let front = steps.drop_last();
        assert(countable(front)) by {
            assert forall|i: int| 0 <= i < front.len() implies ((#[trigger] front[i]) matches JitterStep::Push {
                counter,
                ..
            } ==> counter < u64::MAX) by {
                assert(front[i] == steps[i]);
            }
        }
        law_every_slot_comes_once(depth, front);
        let v = after_run(depth, front);
        let before = released(depth, front);
        let slots = released(depth, steps);
        assert(steps.last() == steps[steps.len() - 1]);
        match steps.last() {
            JitterStep::Push { counter, payload } => {
                assert forall|k: u64| pushed_in_time(depth, steps, k) == if k == counter && !v.is_late(counter) {
                    Some(payload)
                } else {
                    pushed_in_time(depth, front, k)
                } by {}
                assert forall|i: int| 0 <= i < slots.len() implies (#[trigger] slots[i]).payload
                    == pushed_in_time(depth, steps, slots[i].counter) by {
                    assert(before[i].counter == before[0].counter + i);
                    assert(v.is_late(slots[i].counter));
                }
                assert forall|k: u64| #[trigger] v1.frames.contains_key(k) <==> !v1.is_late(k)
                    && pushed_in_time(depth, steps, k) is Some by {
                    assert(v.frames.contains_key(k) <==> !v.is_late(k) && pushed_in_time(
                        depth,
                        front,
                        k,
                    ) is Some);
                }
                lemma_due_is_below(v1, depth, steps);
            },
            JitterStep::Pop => {
                assert forall|k: u64| pushed_in_time(depth, steps, k) == pushed_in_time(depth, front, k) by {}
                if next_slot(v) !is Waiting {
                    lemma_earliest_exists(v.frames);
                    law_slots_come_in_order(v);
                    let due = v.due();
                    assert(v.frames.contains_key(due) <==> !v.is_late(due) && pushed_in_time(
                        depth,
                        front,
                        due,
                    ) is Some);
                    assert(slots.drop_last() =~= before);
                    assert forall|i: int| 0 <= i < slots.len() implies (#[trigger] slots[i]).counter
                        == slots[0].counter + i by {
                        if i < before.len() {
                            assert(slots[i] == before[i]);
                        } else if before.len() > 0 {
                            assert(before.last() == before[before.len() - 1]);
                        }
                    }
                    assert forall|i: int| 0 <= i < slots.len() implies (#[trigger] slots[i]).payload
                        == pushed_in_time(depth, steps, slots[i].counter) by {
                        if i < before.len() {
                            assert(slots[i] == before[i]);
                        }
                    }
                    assert forall|k: u64| #[trigger] v1.frames.contains_key(k) <==> !v1.is_late(k)
                        && pushed_in_time(depth, steps, k) is Some by {
                        assert(v.frames.contains_key(k) <==> !v.is_late(k) && pushed_in_time(
                            depth,
                            front,
                            k,
                        ) is Some);
                    }
                    assert forall|k: u64| #[trigger] v1.frames.contains_key(k) implies pushed_in_time(
                        depth,
                        steps,
                        k,
                    ) == Some(v1.frames[k]) by {
                        assert(v.frames.contains_key(k));
                    }
                }
                lemma_due_is_below(v1, depth, steps);
            },
        }
    }
}

/// Whatever was pushed in time has a counter that is not the last there is.
proof fn lemma_pushed_is_countable(depth: u64, steps: Seq<JitterStep>, slot: u64)
    requires
        countable(steps),
        pushed_in_time(depth, steps, slot) is Some,
    ensures
        slot < u64::MAX,
    decreases steps.len(),
{
    if steps.len() > 0 {
        let front = steps.drop_last();
        assert(steps.last() == steps[steps.len() - 1]);
        assert forall|i: int| 0 <= i < front.len() implies ((#[trigger] front[i]) matches JitterStep::Push {
            counter,
            ..
        } ==> counter < u64::MAX) by {
            assert(front[i] == steps[i]);
        }
        if pushed_in_time(depth, front, slot) is Some {
            lemma_pushed_is_countable(depth, front, slot);
        }
    }
}

proof fn lemma_due_is_below(v: JitterView, depth: u64, steps: Seq<JitterStep>)
    requires
        countable(steps),
        v == after_run(depth, steps),
        v.ordered(),
        holds_what_is_due(depth, steps),
    ensures
        !v.frames.is_empty() ==> v.due() < u64::MAX,
{
    if !v.frames.is_empty() {
        lemma_earliest_exists(v.frames);
        let k = earliest(v.frames);
        assert(v.frames.contains_key(k));
        lemma_pushed_is_countable(depth, steps, k);
    }
}

/// The first slot that a buffer releases is the lowest at hand, and it is played.
/// From then on a slot is concealed only while its frame is not at hand, and only
/// once as many frames are as the buffer is deep, or the gap is wider than that.
pub proof fn law_losses_are_given_up_only(depth: u64, steps: Seq<JitterStep>)
    requires
        countable(steps),
    ensures
        ({
            let v = after_run(depth, steps);
            let d: int = if depth >= 1 {
                depth as int
            } else {
                1
            };
            &&& released(depth, steps).len() == 0 && !v.frames.is_empty() ==> is_earliest(
                v.frames,
                v.due(),
            ) && next_slot(v) == PoppedView::Frame(v.frames[v.due()])
            &&& next_slot(v) is Missing ==> !v.frames.contains_key(v.due()) && (v.frames.len() >= d
                || earliest(v.frames) - v.due() > d)
            &&& next_slot(v) is Waiting ==> after_pop(v) == v
        }),
{
    law_every_slot_comes_once(depth, steps);
    lemma_depth_stays(depth, steps);
    let v = after_run(depth, steps);
    if !v.frames.is_empty() {
        lemma_earliest_exists(v.frames);
    }
}

proof fn lemma_depth_stays(depth: u64, steps: Seq<JitterStep>)
    ensures
        after_run(depth, steps).depth == fresh_buffer(depth).depth,
    decreases steps.len(),
{
    if steps.len() > 0 {
        lemma_depth_stays(depth, steps.drop_last());
    }
}

/// A frame that is not behind the playhead is taken in as it is, and nothing else
/// changes: the playhead stays, what was at hand stays, and nothing counts as late.
/// One behind it counts as late, and changes nothing else.
pub proof fn law_frames_in_time_are_kept(v: JitterView, counter: u64, payload: Seq<u8>)
    ensures
        ({
            let w = after_push(v, counter, payload);
            let late = v.next matches Some(n) && counter < n;
            &&& w.next == v.next
            &&& w.depth == v.depth
            &&& w.concealed == v.concealed
            &&& !late ==> w.dropped_late == v.dropped_late && w.frames.contains_key(counter)
                && w.frames[counter] == payload
            &&& late ==> w.frames == v.frames && w.dropped_late == (if v.dropped_late < u64::MAX {
                v.dropped_late + 1
            } else {
                u64::MAX as int
            })
            &&& forall|k: u64|
                k != counter ==> (#[trigger] w.frames.contains_key(k) <==> v.frames.contains_key(k))
            &&& forall|k: u64|
                k != counter && #[trigger] v.frames.contains_key(k) ==> w.frames[k] == v.frames[k]
        }),
{
}

/// A buffer stalls only while too little is at hand. The frame at the playhead is
/// played as soon as it is there. Without it, the slot is given up as soon as as
/// many frames are at hand as the buffer is deep, or all that is at hand lies
/// further beyond the playhead than that; until then the buffer waits.
pub proof fn law_a_buffer_never_stalls(v: JitterView, n: u64)
    requires
        v.ordered(),
        !v.frames.is_empty(),
        v.next == Some(n),
    ensures
        v.frames.contains_key(n) ==> next_slot(v) == PoppedView::Frame(v.frames[n]),
        !v.frames.contains_key(n) && v.frames.dom().len() >= v.depth ==> next_slot(v) is Missing,
        !v.frames.contains_key(n) && (forall|x: u64|
            #[trigger] v.frames.contains_key(x) ==> x > n + v.depth) ==> next_slot(v) is Missing,
        !v.frames.contains_key(n) && v.frames.dom().len() < v.depth && (exists|x: u64|
            #[trigger] v.frames.contains_key(x) && x <= n + v.depth) ==> next_slot(v) is Waiting,
{
    lemma_earliest_exists(v.frames);
    assert(v.frames.contains_key(earliest(v.frames)));
}

/// A stream starts with the lowest frame at hand, without waiting for more.
pub proof fn law_a_stream_starts_at_once(v: JitterView, first: u64)
    requires
        v.ordered(),
        v.next is None,
        v.frames.contains_key(first),
        forall|x: u64| #[trigger] v.frames.contains_key(x) ==> first <= x,
    ensures
        next_slot(v) == PoppedView::Frame(v.frames[first]),
        after_pop(v).next == Some((first + 1) as u64),
        after_pop(v).frames == v.frames.remove(first),
{
    assert(is_earliest(v.frames, first));
    lemma_earliest(v.frames, first);
    assert(!v.frames.is_empty()) by {
        assert(v.frames.dom().contains(first));
    }
}

/// The buffer after its next slot was asked for `n` times.
pub open spec fn after_pops(v: JitterView, n: nat) -> JitterView
    decreases n,
{
    if n == 0 {
        v
    } else {
        after_pop(after_pops(v, (n - 1) as nat))
    }
}

/// Asking a buffer for its next slot releases frames only in order, and loses
/// none: a frame that is at hand stays until its own slot is asked for.
pub proof fn law_a_frame_waits_for_its_slot(v: JitterView, k: u64)
    requires
        v.ordered(),
        v.frames.contains_key(k),
    ensures
        v.next matches Some(n) && n == k ==> next_slot(v) == PoppedView::Frame(v.frames[k])
            && !after_pop(v).frames.contains_key(k),
        v.next matches Some(n) && n != k ==> after_pop(v).frames.contains_key(k)
            && after_pop(v).frames[k] == v.frames[k],
{
    assert(!v.frames.is_empty()) by {
        assert(v.frames.dom().contains(k));
    }
}

/// However many frames in a row are lost, the stream is heard again: with as many
/// frames at hand as the buffer is deep, each lost slot before the first of them
/// is concealed, one at a time, and then that frame is played.
pub proof fn law_a_stream_is_heard_again(v: JitterView, n: u64, first: u64, k: nat)
    requires
        v.ordered(),
        v.next == Some(n),
        v.frames.dom().len() >= v.depth,
        v.frames.contains_key(first),
        forall|x: u64| #[trigger] v.frames.contains_key(x) ==> first <= x,
        n + k <= first,
    ensures
        after_pops(v, k).frames == v.frames,
        after_pops(v, k).next == Some((n + k) as u64),
        after_pops(v, k).depth == v.depth,
        n + k < first ==> next_slot(after_pops(v, k)) is Missing,
        n + k == first ==> next_slot(after_pops(v, k)) == PoppedView::Frame(v.frames[first]),
    decreases k,
{
    assert(!v.frames.is_empty()) by {
        assert(v.frames.dom().contains(first));
    }
    if k > 0 {
        law_a_stream_is_heard_again(v, n, first, (k - 1) as nat);
    }
    let w = after_pops(v, k);
    assert(w.ordered()) by {
        assert forall|x: u64| w.frames.contains_key(x) implies n + k <= x by {}
    }
    law_a_buffer_never_stalls(w, (n + k) as u64);
    if n + k < first {
        assert(!w.frames.contains_key((n + k) as u64));
    }
}

#[derive(Debug)]
pub struct JitterBuffer {
    frames: SortedMap<u64, Vec<u8>>,
    next: Option<u64>,
    depth: u64,
    dropped_late: u64,
    concealed: u64,
}

impl View for JitterBuffer {
    type V = JitterView;

    closed spec fn view(&self) -> JitterView {
        JitterView {
            frames: self.frames@.map_values(|f: Vec<u8>| f@),
            next: self.next,
            depth: self.depth,
            dropped_late: self.dropped_late,
            concealed: self.concealed,
        }
    }
}

impl JitterBuffer {
    pub closed spec fn wf(&self) -> bool {
        &&& self.frames.wf()
        &&& self@.ordered()
    }

    /// `depth` is how many frames beyond the expected one are let in before it
    /// is given up, at least one.
    pub fn new(depth: u64) -> (r: Self)
        ensures
            r.wf(),
            r@ == fresh_buffer(depth),
    {
        let depth: u64 = if depth >= 1 { depth } else { 1 };
        let r = JitterBuffer {
            frames: SortedMap::new(),
            next: None,
            depth,
            dropped_late: 0,
            concealed: 0,
        };
        assert(r@.frames =~= Map::<u64, Seq<u8>>::empty());
        r
    }

    /// Takes in a frame; one behind the playhead is too late.
    pub fn push(&mut self, counter: u64, payload: Vec<u8>)
        requires
            old(self).wf(),
        ensures
            final(self).wf(),
            final(self)@ == after_push(old(self)@, counter, payload@),
    {
        if let Some(next) = self.next {
            if counter < next {
                self.dropped_late = self.dropped_late.saturating_add(1);
                return;
            }
        }
        self.frames.insert(counter, payload);
        proof {
            assert(self@.frames =~= old(self)@.frames.insert(counter, payload@));
            self.frames.lemma_walk();
            assert(self@.frames.dom() =~= self.frames@.dom());
        }
    }

    /// Whether the playhead has room for one more slot.
    pub fn has_room(&self) -> (r: bool)
        requires
            self.wf(),
        ensures
            r == (!self@.frames.is_empty() ==> self@.due() < u64::MAX),
    {
        let due: u64 = match self.next {
            Some(n) => n,
            None => {
                if self.frames.len() == 0 {
                    0
                } else {
                    self.earliest()
                }
            },
        };
        proof {
            self.frames.lemma_walk();
            assert(self@.frames.dom() =~= self.frames@.dom());
            assert(self.frames@.dom().len() == 0 ==> self@.frames =~= Map::empty()) by {
                if self@.frames.dom().len() == 0 {
                    assert(self@.frames.dom() =~= Set::empty());
                }
            }
        }
        self.frames.len() == 0 || due < u64::MAX
    }

    fn earliest(&self) -> (r: u64)
        requires
            self.frames.wf(),
            self.frames@.dom().len() > 0,
        ensures
            is_earliest(self@.frames, r),
            r == earliest(self@.frames),
    {
        proof {
            self.frames.lemma_walk();
        }
        let k: u64 = self.frames.key_at(0);
        proof {
            let walk = self.frames.walk();
            assert(walk.contains(k)) by {
                assert(walk[0] == k);
            }
            assert forall|x: u64| self@.frames.contains_key(x) implies k <= x by {
                assert(self.frames@.contains_key(x));
                let i = choose|i: int| 0 <= i < walk.len() && walk[i] == x;
                if i > 0 {
                    assert(crate::order::Key::before(walk[0], walk[i]));
                }
            }
            lemma_earliest(self@.frames, k);
        }
        k
    }

    /// The next slot: its frame if it is there, a loss to conceal if it is given
    /// up, and otherwise nothing yet.
    pub fn pop_next(&mut self) -> (r: Popped)
        requires
            old(self).wf(),
            !old(self)@.frames.is_empty() ==> old(self)@.due() < u64::MAX,
        ensures
            final(self).wf(),
            r@ == next_slot(old(self)@),
            final(self)@ == after_pop(old(self)@),
    {
        proof {
            self.frames.lemma_walk();
            assert(self@.frames.dom() =~= self.frames@.dom());
            assert(self@.frames.len() == self.frames@.dom().len());
        }
        if self.frames.len() == 0 {
            proof {
                assert(self@.frames.dom() =~= Set::empty());
                assert(self@.frames =~= Map::empty());
            }
            return Popped::Waiting;
        }
        let earliest: u64 = self.earliest();
        assert(!self@.frames.is_empty());
        let next: u64 = match self.next {
            Some(n) => n,
            None => earliest,
        };
        assert(next == self@.due());
        let buffered: usize = self.frames.len();
        match self.frames.remove(&next) {
            Some(frame) => {
                self.next = Some(next + 1);
                proof {
                    assert(self@.frames =~= old(self)@.frames.remove(next));
                }
                Popped::Frame(frame)
            },
            None => {
                assert(self@.frames =~= old(self)@.frames);
                if buffered as u64 >= self.depth || earliest - next > self.depth {
                    self.next = Some(next + 1);
                    self.concealed = self.concealed.saturating_add(1);
                    return Popped::Missing;
                }
                Popped::Waiting
            },
        }
    }

    pub fn concealed(&self) -> (r: u64)
        ensures
            r == self@.concealed,
    {
        self.concealed
    }

    pub fn dropped_late(&self) -> (r: u64)
        ensures
            r == self@.dropped_late,
    {
        self.dropped_late
    }
}

} // verus!

//! The video pump of a call: it routes every sealed frame by its plaintext
//! header to the local decoder, to the fan-out of a forwarder, or to the control
//! handler.
//!
//! The relay path never decrypts. A forwarder repeats the sealed bytes as they
//! came; the key serves only to open control frames. The pump also runs the
//! viewer's half of the feedback loop: it counts received frames and counter
//! gaps per origin.

use std::sync::Arc;

use vstd::prelude::*;

use crate::bytes::copy_bytes;
use crate::media::control::{control_meaning, ControlMessage, ControlView, FeedbackReport};
use crate::media::fanout::{after_broadcast, wants_keyframe, FanoutView, VideoFanout};
use crate::media::frame::{
    header_of, open, opened_frame, peek_header, CallKey, FrameError, FrameHeader, MediaKind,
};
use crate::media::stream::{is_keyframe, marks_keyframe, opened_view};
use crate::media::video::{counted, SealedVideoFrame, SealedView};
use crate::order::Key;
use crate::shared::IdentityId;
use crate::sorted::{in_order, lemma_in_order, SortedMap};

verus! {

/// The forwarder role, while assigned: relay the sealed video frames of `sharer`
/// through `fanout` to the viewers.
#[derive(Debug)]
pub struct RelayTarget {
    pub sharer: IdentityId,
    pub fanout: VideoFanout,
}

#[verifier::ext_equal]
pub ghost struct RelayView {
    pub sharer: IdentityId,
    pub fanout: FanoutView,
}

impl View for RelayTarget {
    type V = RelayView;

    open spec fn view(&self) -> RelayView {
        RelayView { sharer: self.sharer, fanout: self.fanout@ }
    }
}

/// What the pump and those who reconfigure it share: roles change while a call
/// runs, and the pump never restarts.
#[verifier::ext_equal]
pub ghost struct SharedView {
    /// Whose video an ssrc is: a viewer attributes relayed frames to the sharer,
    /// not to the forwarder that carried them.
    pub origins: Map<u32, IdentityId>,
    pub relay: Option<RelayView>,
    /// Who carried an origin's frames here, where that was somebody else.
    pub via: Map<IdentityId, IdentityId>,
}

#[derive(Debug)]
pub struct PumpShared {
    origins: SortedMap<u32, IdentityId>,
    relay: Option<RelayTarget>,
    via: SortedMap<IdentityId, IdentityId>,
}

impl View for PumpShared {
    type V = SharedView;

    closed spec fn view(&self) -> SharedView {
        SharedView {
            origins: self.origins@,
            relay: match self.relay {
                Some(t) => Some(t@),
                None => None,
            },
            via: self.via@,
        }
    }
}

/// Whose frames carry an ssrc, by the roster, or the sender's for want of better
/// knowledge.
pub open spec fn origin_of(v: SharedView, ssrc: u32, from: IdentityId) -> IdentityId {
    if v.origins.contains_key(ssrc) {
        v.origins[ssrc]
    } else {
        from
    }
}

/// Who carried what, after frames of `origin` came from `from`.
pub open spec fn carried_by(
    via: Map<IdentityId, IdentityId>,
    origin: IdentityId,
    from: IdentityId,
) -> Map<IdentityId, IdentityId> {
    if origin == from {
        via.remove(origin)
    } else {
        via.insert(origin, from)
    }
}

impl PumpShared {
    pub closed spec fn wf(&self) -> bool {
        &&& self.origins.wf()
        &&& self.via.wf()
        &&& self.relay matches Some(t) ==> t.fanout.wf()
    }

    pub fn new() -> (r: Self)
        ensures
            r.wf(),
            r@ == (SharedView { origins: Map::empty(), relay: None, via: Map::empty() }),
    {
        PumpShared { origins: SortedMap::new(), relay: None, via: SortedMap::new() }
    }

    /// The origins as the roster gives them, one entry per ssrc.
    pub fn set_origins(&mut self, map: SortedMap<u32, IdentityId>)
        requires
            old(self).wf(),
            map.wf(),
        ensures
            final(self).wf(),
            final(self)@ == (SharedView { origins: map@, ..old(self)@ }),
    {
        self.origins = map;
    }

    pub fn set_relay(&mut self, target: Option<RelayTarget>)
        requires
            old(self).wf(),
            target matches Some(t) ==> t.fanout.wf(),
        ensures
            final(self).wf(),
            final(self)@ == (SharedView {
                relay: match target {
                    Some(t) => Some(t@),
                    None => None,
                },
                ..old(self)@
            }),
    {
        self.relay = target;
    }

    /// The relay assignment in force.
    pub fn relay(&self) -> (r: Option<&RelayTarget>)
        requires
            self.wf(),
        ensures
            match r {
                Some(t) => self@.relay == Some(t@) && t.fanout.wf(),
                None => self@.relay is None,
            },
    {
        self.relay.as_ref()
    }

    /// The relay assignment in force, taken out to be changed and put back.
    pub fn take_relay(&mut self) -> (r: Option<RelayTarget>)
        requires
            old(self).wf(),
        ensures
            final(self).wf(),
            final(self)@ == (SharedView { relay: None, ..old(self)@ }),
            match r {
                Some(t) => old(self)@.relay == Some(t@) && t.fanout.wf(),
                None => old(self)@.relay is None,
            },
    {
        self.relay.take()
    }

    /// Who carried the frames of `origin` here, when it was not `origin`.
    pub fn via_of(&self, origin: &IdentityId) -> (r: Option<IdentityId>)
        requires
            self.wf(),
        ensures
            match r {
                Some(p) => self@.via.contains_key(*origin) && p == self@.via[*origin],
                None => !self@.via.contains_key(*origin),
            },
    {
        match self.via.get(origin) {
            Some(p) => Some(*p),
            None => None,
        }
    }

    fn origin_for(&self, ssrc: u32, from: IdentityId) -> (r: IdentityId)
        requires
            self.wf(),
        ensures
            r == origin_of(self@, ssrc, from),
    {
        match self.origins.get(&ssrc) {
            Some(origin) => *origin,
            None => from,
        }
    }

    fn note_via(&mut self, origin: IdentityId, from: IdentityId)
        requires
            old(self).wf(),
        ensures
            final(self).wf(),
            final(self)@ == (SharedView {
                via: carried_by(old(self)@.via, origin, from),
                ..old(self)@
            }),
    {
        if origin.same(&from) {
            let _ = self.via.remove(&origin);
        } else {
            self.via.insert(origin, from);
        }
    }
}

/// What the pump surfaces.
#[derive(Debug, Clone, PartialEq, Eq)]
pub enum PumpEvent {
    /// An authenticated control message arrived from `from`.
    Control { from: IdentityId, message: ControlMessage },
    /// A report window closed for the stream of `origin`: send it to the sharer.
    FeedbackDue { origin: IdentityId, report: FeedbackReport },
    /// The relay has a lane that the cache could not prime: ask the sharer for a
    /// keyframe.
    RelayNeedsKeyframe { sharer: IdentityId },
}

#[verifier::ext_equal]
pub ghost enum PumpEventView {
    Control { from: IdentityId, message: ControlView },
    FeedbackDue { origin: IdentityId, report: FeedbackReport },
    RelayNeedsKeyframe { sharer: IdentityId },
}

impl View for PumpEvent {
    type V = PumpEventView;

    open spec fn view(&self) -> PumpEventView {
        match self {
            PumpEvent::Control { from, message } => PumpEventView::Control {
                from: *from,
                message: message@,
            },
            PumpEvent::FeedbackDue { origin, report } => PumpEventView::FeedbackDue {
                origin: *origin,
                report: *report,
            },
            PumpEvent::RelayNeedsKeyframe { sharer } => PumpEventView::RelayNeedsKeyframe {
                sharer: *sharer,
            },
        }
    }
}

#[derive(Debug, Clone, Copy, PartialEq, Eq, Structural)]
pub struct PumpStats {
    /// Sealed video frames repeated into the relay fan-out.
    pub relayed: u64,
    /// Video frames handed to the local decode path.
    pub to_decode: u64,
    /// Video frames dropped because the local decoder lagged.
    pub decode_dropped: u64,
    /// Authenticated control messages surfaced.
    pub control_in: u64,
    /// Frames that failed the header, control authentication, or came with a
    /// kind that the video tap never carries.
    pub rejected: u64,
}

pub open spec fn idle_pump() -> PumpStats {
    PumpStats { relayed: 0, to_decode: 0, decode_dropped: 0, control_in: 0, rejected: 0 }
}

impl Default for PumpStats {
    fn default() -> (r: Self)
        ensures
            r == idle_pump(),
    {
        PumpStats { relayed: 0, to_decode: 0, decode_dropped: 0, control_in: 0, rejected: 0 }
    }
}

/// The feedback account of one origin. Streams are ordered, so a counter gap is
/// a frame lost upstream.
#[derive(Debug, Clone, Copy, PartialEq, Eq, Structural)]
pub struct OriginWindow {
    pub next_counter: Option<u64>,
    pub received: u32,
    pub lost: u32,
}

/// A count of frames that stops at the largest there is.
pub open spec fn tallied(n: int) -> u32 {
    if n <= u32::MAX {
        n as u32
    } else {
        u32::MAX
    }
}

pub open spec fn window_of(
    windows: Map<IdentityId, OriginWindow>,
    origin: IdentityId,
) -> OriginWindow {
    if windows.contains_key(origin) {
        windows[origin]
    } else {
        OriginWindow { next_counter: None, received: 0, lost: 0 }
    }
}

/// The window after a frame with `counter`. One from behind is a replay or comes
/// after a change of path: not a loss.
pub open spec fn after_count(w: OriginWindow, counter: u64) -> OriginWindow {
    match w.next_counter {
        Some(next) => if counter < next {
            w
        } else {
            OriginWindow {
                next_counter: Some(counted(counter + 1)),
                received: tallied(w.received + 1),
                lost: tallied(w.lost + tallied(counter - next)),
            }
        },
        None => OriginWindow {
            next_counter: Some(counted(counter + 1)),
            received: tallied(w.received + 1),
            ..w
        },
    }
}

#[verifier::ext_equal]
pub ghost struct PumpView {
    pub windows: Map<IdentityId, OriginWindow>,
    pub stats: PumpStats,
}

/// What a frame is to the pump.
pub ghost enum Route {
    Reject,
    Control(ControlView),
    Video(FrameHeader),
}

/// Where a frame goes, given its header and, for a control frame alone, what
/// opening it gave.
pub open spec fn route_of(
    header: Result<FrameHeader, FrameError>,
    opened: Result<(FrameHeader, Seq<u8>), FrameError>,
) -> Route {
    match header {
        Err(_) => Route::Reject,
        Ok(h) => match h.kind {
            MediaKind::Control => match opened {
                Ok((_, payload)) => match control_meaning(payload) {
                    Some(m) => Route::Control(m),
                    None => Route::Reject,
                },
                Err(_) => Route::Reject,
            },
            MediaKind::Video => Route::Video(h),
            MediaKind::Audio => Route::Reject,
        },
    }
}

/// Whether the pump relays the frames of `from`.
pub open spec fn relays(v: SharedView, from: IdentityId) -> bool {
    v.relay matches Some(t) && t.sharer == from
}

/// The pump after a frame was routed.
pub open spec fn pump_after(
    v: PumpView,
    shared: SharedView,
    from: IdentityId,
    route: Route,
) -> PumpView {
    match route {
        Route::Reject => PumpView {
            stats: PumpStats { rejected: counted(v.stats.rejected + 1), ..v.stats },
            ..v
        },
        Route::Control(_) => PumpView {
            stats: PumpStats { control_in: counted(v.stats.control_in + 1), ..v.stats },
            ..v
        },
        Route::Video(h) => {
            let origin = origin_of(shared, h.ssrc, from);
            PumpView {
                windows: v.windows.insert(
                    origin,
                    after_count(window_of(v.windows, origin), h.counter),
                ),
                stats: if relays(shared, from) {
                    PumpStats { relayed: counted(v.stats.relayed + 1), ..v.stats }
                } else {
                    v.stats
                },
            }
        },
    }
}

/// What the pump shares, after a frame was routed: a forwarder repeats the
/// sealed bytes as they came.
pub open spec fn shared_after(
    v: SharedView,
    from: IdentityId,
    sealed: Seq<u8>,
    route: Route,
) -> SharedView {
    match route {
        Route::Video(h) => SharedView {
            relay: match v.relay {
                Some(t) => Some(
                    RelayView {
                        fanout: if t.sharer == from {
                            after_broadcast(
                                t.fanout,
                                SealedView { sealed, keyframe: marks_keyframe(h.flags) },
                            )
                        } else {
                            t.fanout
                        },
                        ..t
                    },
                ),
                None => None,
            },
            via: carried_by(v.via, origin_of(v, h.ssrc, from), from),
            ..v
        },
        _ => v,
    }
}

/// Relaying needs no key: what a video frame does depends on its plaintext
/// header alone.
pub proof fn law_relay_needs_no_key(sealed: Seq<u8>, one: Seq<u8>, other: Seq<u8>)
    requires
        header_of(sealed) matches Ok(h) && h.kind == MediaKind::Video,
    ensures
        route_of(header_of(sealed), opened_frame(one, sealed)) == route_of(
            header_of(sealed),
            opened_frame(other, sealed),
        ),
        route_of(header_of(sealed), opened_frame(one, sealed)) == Route::Video(
            header_of(sealed)->Ok_0,
        ),
{
}

/// A control frame that does not authenticate changes no role.
pub proof fn law_forged_control_is_rejected(header: FrameHeader, e: FrameError)
    requires
        header.kind == MediaKind::Control,
    ensures
        route_of(
            Ok::<FrameHeader, FrameError>(header),
            Err::<(FrameHeader, Seq<u8>), FrameError>(e),
        ) is Reject,
{
}

/// A forwarder repeats what it got, bytes and all, to every lane.
pub proof fn law_forwarder_repeats_the_sealed_bytes(
    v: SharedView,
    from: IdentityId,
    sealed: Seq<u8>,
    header: FrameHeader,
)
    requires
        relays(v, from),
    ensures
        shared_after(v, from, sealed, Route::Video(header)).relay->0.fanout == after_broadcast(
            v.relay->0.fanout,
            SealedView { sealed, keyframe: marks_keyframe(header.flags) },
        ),
{
}

/// What is left to do with a frame.
#[derive(Debug)]
pub enum Routed {
    /// Nothing.
    Dropped,
    /// Surface the event.
    Event(PumpEvent),
    /// Offer the frame, as the origin's, to the local decoder.
    Decode(IdentityId),
}

#[derive(Debug)]
pub struct VideoPump {
    windows: SortedMap<IdentityId, OriginWindow>,
    stats: PumpStats,
}

impl View for VideoPump {
    type V = PumpView;

    closed spec fn view(&self) -> PumpView {
        PumpView { windows: self.windows@, stats: self.stats }
    }
}

/// The origins with something to report, in key order.
pub open spec fn reporting(windows: Map<IdentityId, OriginWindow>) -> Seq<IdentityId> {
    in_order(windows.dom()).filter(
        |p: IdentityId| windows[p].received != 0 || windows[p].lost != 0,
    )
}

pub open spec fn emptied(w: OriginWindow) -> OriginWindow {
    OriginWindow { received: 0, lost: 0, ..w }
}

pub open spec fn report_on(windows: Map<IdentityId, OriginWindow>, p: IdentityId) -> PumpEventView {
    PumpEventView::FeedbackDue {
        origin: p,
        report: FeedbackReport { received: windows[p].received, lost: windows[p].lost },
    }
}

pub open spec fn event_views(events: Seq<PumpEvent>) -> Seq<PumpEventView> {
    events.map_values(|e: PumpEvent| e@)
}

impl VideoPump {
    pub closed spec fn wf(&self) -> bool {
        self.windows.wf()
    }

    pub fn new() -> (r: Self)
        ensures
            r.wf(),
            r@ == (PumpView { windows: Map::empty(), stats: idle_pump() }),
    {
        VideoPump { windows: SortedMap::new(), stats: PumpStats::default() }
    }

    /// Counts a frame toward the report on its origin.
    fn count(&mut self, origin: IdentityId, counter: u64)
        requires
            old(self).wf(),
        ensures
            final(self).wf(),
            final(self)@ == (PumpView {
                windows: old(self)@.windows.insert(
                    origin,
                    after_count(window_of(old(self)@.windows, origin), counter),
                ),
                ..old(self)@
            }),
    {
        let mut window = match self.windows.get(&origin) {
            Some(w) => *w,
            None => OriginWindow { next_counter: None, received: 0, lost: 0 },
        };
        match window.next_counter {
            Some(next) => {
                if counter >= next {
                    let gap: u64 = counter - next;
                    let gap: u32 = if gap <= u32::MAX as u64 { gap as u32 } else { u32::MAX };
                    window.lost = window.lost.saturating_add(gap);
                    window.received = window.received.saturating_add(1);
                    window.next_counter = Some(counter.saturating_add(1));
                }
            },
            None => {
                window.received = window.received.saturating_add(1);
                window.next_counter = Some(counter.saturating_add(1));
            },
        }
        self.windows.insert(origin, window);
    }

    fn on_video(
        &mut self,
        shared: &mut PumpShared,
        from: IdentityId,
        sealed: &[u8],
        header: FrameHeader,
    ) -> (r: IdentityId)
        requires
            old(self).wf(),
            old(shared).wf(),
        ensures
            final(self).wf(),
            final(shared).wf(),
            final(self)@ == pump_after(old(self)@, old(shared)@, from, Route::Video(header)),
            final(shared)@ == shared_after(old(shared)@, from, sealed@, Route::Video(header)),
            r == origin_of(old(shared)@, header.ssrc, from),
    {
        if let Some(target) = shared.relay.take() {
            let mut target = target;
            if target.sharer.same(&from) {
                let frame = SealedVideoFrame::new(
                    Arc::new(copy_bytes(sealed)),
                    is_keyframe(&header),
                );
                target.fanout.broadcast(&frame);
                self.stats.relayed = self.stats.relayed.saturating_add(1);
            }
            shared.relay = Some(target);
        }
        let origin: IdentityId = shared.origin_for(header.ssrc, from);
        shared.note_via(origin, from);
        self.count(origin, header.counter);
        origin
    }

    /// Routes a frame whose header was read and that was, where it is a control
    /// frame, opened.
    pub fn route(
        &mut self,
        shared: &mut PumpShared,
        from: IdentityId,
        sealed: &[u8],
        header: Result<FrameHeader, FrameError>,
        opened: Result<(FrameHeader, Vec<u8>), FrameError>,
    ) -> (r: Routed)
        requires
            old(self).wf(),
            old(shared).wf(),
        ensures
            final(self).wf(),
            final(shared).wf(),
            final(self)@ == pump_after(
                old(self)@,
                old(shared)@,
                from,
                route_of(header, opened_view(opened)),
            ),
            final(shared)@ == shared_after(
                old(shared)@,
                from,
                sealed@,
                route_of(header, opened_view(opened)),
            ),
            match r {
                Routed::Dropped => route_of(header, opened_view(opened)) is Reject,
                Routed::Event(e) => route_of(header, opened_view(opened)) matches Route::Control(m)
                    && e@ == (PumpEventView::Control { from, message: m }),
                Routed::Decode(origin) => route_of(header, opened_view(opened)) matches Route::Video(
                    h,
                ) && origin == origin_of(old(shared)@, h.ssrc, from),
            },
    {
        let header = match header {
            Ok(h) => h,
            Err(_) => {
                self.stats.rejected = self.stats.rejected.saturating_add(1);
                return Routed::Dropped;
            },
        };
        match header.kind {
            MediaKind::Control => {
                let message = match opened {
                    Ok((_, payload)) => ControlMessage::decode(&payload),
                    Err(_) => None,
                };
                match message {
                    Some(message) => {
                        self.stats.control_in = self.stats.control_in.saturating_add(1);
                        Routed::Event(PumpEvent::Control { from, message })
                    },
                    None => {
                        self.stats.rejected = self.stats.rejected.saturating_add(1);
                        Routed::Dropped
                    },
                }
            },
            MediaKind::Video => Routed::Decode(self.on_video(shared, from, sealed, header)),
            MediaKind::Audio => {
                self.stats.rejected = self.stats.rejected.saturating_add(1);
                Routed::Dropped
            },
        }
    }

    /// Routes a frame as it came. Only a control frame is opened: authenticity
    /// gates every change of roles.
    pub fn route_frame(
        &mut self,
        shared: &mut PumpShared,
        key: &CallKey,
        from: IdentityId,
        sealed: &[u8],
    ) -> (r: Routed)
        requires
            old(self).wf(),
            old(shared).wf(),
        ensures
            final(self).wf(),
            final(shared).wf(),
            final(self)@ == pump_after(
                old(self)@,
                old(shared)@,
                from,
                route_of(header_of(sealed@), opened_frame(key@, sealed@)),
            ),
            final(shared)@ == shared_after(
                old(shared)@,
                from,
                sealed@,
                route_of(header_of(sealed@), opened_frame(key@, sealed@)),
            ),
            match r {
                Routed::Dropped => route_of(
                    header_of(sealed@),
                    opened_frame(key@, sealed@),
                ) is Reject,
                Routed::Event(e) => route_of(
                    header_of(sealed@),
                    opened_frame(key@, sealed@),
                ) matches Route::Control(m) && e@ == (PumpEventView::Control { from, message: m }),
                Routed::Decode(origin) => route_of(
                    header_of(sealed@),
                    opened_frame(key@, sealed@),
                ) matches Route::Video(h) && origin == origin_of(old(shared)@, h.ssrc, from),
            },
    {
        let header = peek_header(sealed);
        let is_control: bool = match &header {
            Ok(h) => h.kind == MediaKind::Control,
            Err(_) => false,
        };
        let opened = if is_control {
            open(key, sealed)
        } else {
            Err(FrameError::Decrypt)
        };
        self.route(shared, from, sealed, header, opened)
    }

    /// The local decoder took a frame, or lagged.
    pub fn offered(&mut self, taken: bool)
        requires
            old(self).wf(),
        ensures
            final(self).wf(),
            final(self)@ == (PumpView {
                stats: if taken {
                    PumpStats {
                        to_decode: counted(old(self)@.stats.to_decode + 1),
                        ..old(self)@.stats
                    }
                } else {
                    PumpStats {
                        decode_dropped: counted(old(self)@.stats.decode_dropped + 1),
                        ..old(self)@.stats
                    }
                },
                ..old(self)@
            }),
    {
        if taken {
            self.stats.to_decode = self.stats.to_decode.saturating_add(1);
        } else {
            self.stats.decode_dropped = self.stats.decode_dropped.saturating_add(1);
        }
    }

    /// Closes the report windows. An empty window is silence, not a report.
    pub fn flush_reports(&mut self) -> (r: Vec<PumpEvent>)
        requires
            old(self).wf(),
        ensures
            final(self).wf(),
            event_views(r@) == reporting(old(self)@.windows).map_values(
                |p: IdentityId| report_on(old(self)@.windows, p),
            ),
            final(self)@ == (PumpView {
                windows: old(self)@.windows.map_values(|w: OriginWindow| emptied(w)),
                ..old(self)@
            }),
    {
        let keys: Vec<IdentityId> = self.windows.keys();
        let ghost start = self.windows@;
        let ghost due = |p: IdentityId| start[p].received != 0 || start[p].lost != 0;
        let ghost report = |p: IdentityId| report_on(start, p);
        let mut events: Vec<PumpEvent> = Vec::new();
        let mut i: usize = 0;
        proof {
            self.windows.lemma_walk();
            lemma_in_order(start.dom(), keys@);
            reveal(Seq::filter);
            assert(keys@.take(0).filter(due) =~= Seq::<IdentityId>::empty());
            assert(event_views(events@) =~= keys@.take(0).filter(due).map_values(report));
        }
        while i < keys.len()
            invariant
                i <= keys@.len(),
                keys@.no_duplicates(),
                forall|p: IdentityId| keys@.contains(p) <==> start.contains_key(p),
                due == (|p: IdentityId| start[p].received != 0 || start[p].lost != 0),
                report == (|p: IdentityId| report_on(start, p)),
                self.windows.wf(),
                self.stats == old(self).stats,
                event_views(events@) == keys@.take(i as int).filter(due).map_values(report),
                self.windows@.dom() == start.dom(),
                forall|j: int|
                    0 <= j < i ==> self.windows@[#[trigger] keys@[j]] == emptied(start[keys@[j]]),
                forall|j: int|
                    i <= j < keys@.len() ==> self.windows@[#[trigger] keys@[j]] == start[keys@[j]],
            decreases keys@.len() - i,
        {
            let k: IdentityId = keys[i];
            let ghost before = self.windows@;
            let ghost told = event_views(events@);
            proof {
                assert(keys@.contains(k));
                reveal(Seq::filter);
                assert(keys@.take(i + 1).drop_last() =~= keys@.take(i as int));
                assert(keys@.take(i + 1).last() == k);
            }
            if let Some(window) = self.windows.get_mut(&k) {
                if window.received != 0 || window.lost != 0 {
                    let report = FeedbackReport { received: window.received, lost: window.lost };
                    window.received = 0;
                    window.lost = 0;
                    events.push(PumpEvent::FeedbackDue { origin: k, report });
                }
            }
            proof {
                let f = keys@.take(i as int).filter(due);
                assert(self.windows@[k] == emptied(start[k]));
                assert(self.windows@ =~= before.insert(k, self.windows@[k]));
                if due(k) {
                    assert(event_views(events@) =~= told.push(report_on(start, k)));
                    assert(f.push(k).map_values(report) =~= f.map_values(report).push(report(k)));
                }
                assert forall|j: int| 0 <= j < keys@.len() && j != i implies self.windows@[#[trigger] keys@[j]]
                    == before[keys@[j]] by {
                    assert(keys@[j] != keys@[i as int]);
                }
            }
            i = i + 1;
        }
        proof {
            assert(keys@.take(i as int) =~= keys@);
            assert forall|p: IdentityId| start.contains_key(p) implies self.windows@[p] == emptied(
                start[p],
            ) by {
                assert(keys@.contains(p));
                let j = choose|j: int| 0 <= j < keys@.len() && keys@[j] == p;
                assert(self.windows@[keys@[j]] == emptied(start[keys@[j]]));
            }
            assert(self@.windows =~= start.map_values(|w: OriginWindow| emptied(w)));
        }
        events
    }

    /// The keyframe that the relay has to ask the sharer for, if any.
    pub fn relay_need(shared: &PumpShared) -> (r: Option<PumpEvent>)
        requires
            shared.wf(),
        ensures
            match r {
                Some(e) => shared@.relay matches Some(t) && wants_keyframe(t.fanout) && e@ == (
                PumpEventView::RelayNeedsKeyframe { sharer: t.sharer }),
                None => !(shared@.relay matches Some(t) && wants_keyframe(t.fanout)),
            },
    {
        match &shared.relay {
            Some(target) => {
                if target.fanout.keyframe_wanted() {
                    Some(PumpEvent::RelayNeedsKeyframe { sharer: target.sharer })
                } else {
                    None
                }
            },
            None => None,
        }
    }

    pub fn stats(&self) -> (r: PumpStats)
        ensures
            r == self@.stats,
    {
        self.stats
    }
}

/// A viewer's report counts what came and what did not: the first frame of a sender
/// counts as received, each later one as received too, and every counter skipped before
/// it as lost; one from behind counts as nothing.
pub proof fn law_gaps_are_counted_as_lost(w: OriginWindow, counter: u64)
    requires
        w.received < u32::MAX,
        counter < u64::MAX,
    ensures
        ({
            let after = after_count(w, counter);
            match w.next_counter {
                None => after.received == w.received + 1 && after.lost == w.lost
                    && after.next_counter == Some((counter + 1) as u64),
                Some(next) => {
                    &&& counter < next ==> after == w
                    &&& counter >= next && w.lost + (counter - next) <= u32::MAX ==> after.received
                        == w.received + 1 && after.lost == w.lost + (counter - next)
                        && after.next_counter == Some((counter + 1) as u64)
                },
            }
        }),
{
}

/// The window after frames with the given counters.
pub open spec fn after_counts(w: OriginWindow, counters: Seq<u64>) -> OriginWindow
    decreases counters.len(),
{
    if counters.len() == 0 {
        w
    } else {
        after_count(after_counts(w, counters.drop_last()), counters.last())
    }
}

/// Over a stream in order, what was received and what was lost make up all that was sent
/// from the first frame to the last.
pub proof fn law_reports_account_for_every_frame(counters: Seq<u64>)
    requires
        counters.len() > 0,
        forall|i: int, j: int| 0 <= i < j < counters.len() ==> counters[i] < counters[j],
        counters.last() < u64::MAX,
        counters.last() - counters[0] < u32::MAX,
    ensures
        ({
            let fresh = OriginWindow { next_counter: None, received: 0, lost: 0 };
            let w = after_counts(fresh, counters);
            &&& w.received == counters.len()
            &&& w.received + w.lost == counters.last() - counters[0] + 1
            &&& w.next_counter == Some((counters.last() + 1) as u64)
        }),
    decreases counters.len(),
{
    let fresh = OriginWindow { next_counter: None, received: 0, lost: 0 };
    let front = counters.drop_last();
    assert(counters.last() == counters[counters.len() - 1]);
    if front.len() > 0 {
        assert forall|i: int, j: int| 0 <= i < j < front.len() implies front[i] < front[j] by {
            assert(counters[i] < counters[j]);
        }
        assert(front.last() == counters[front.len() - 1]);
        assert(front[0] == counters[0]);
        law_reports_account_for_every_frame(front);
        let before = after_counts(fresh, front);
        assert(before.lost >= 0);
    } else {
        assert(after_counts(fresh, front) == fresh);
    }
}

/// Where frames go: video is passed on unopened, whatever its key; a control message that
/// opens and means something is acted on; everything else is rejected.
pub proof fn law_frames_are_routed_by_kind(
    header: FrameHeader,
    opened: Result<(FrameHeader, Seq<u8>), FrameError>,
)
    ensures
        ({
            let route = route_of(Ok::<FrameHeader, FrameError>(header), opened);
            &&& header.kind == MediaKind::Video ==> route == Route::Video(header)
            &&& header.kind == MediaKind::Audio ==> route is Reject
            &&& header.kind == MediaKind::Control && opened is Ok && control_meaning(
                opened->Ok_0.1,
            ) is Some ==> route == Route::Control(control_meaning(opened->Ok_0.1)->0)
            &&& header.kind == MediaKind::Control && (opened is Err || control_meaning(
                opened->Ok_0.1,
            ) is None) ==> route is Reject
        }),
        forall|e: FrameError|
            route_of(Err::<FrameHeader, FrameError>(e), opened) is Reject,
{
}

/// Every frame is counted once: as relayed if it was repeated, as control, or as
/// rejected. A video frame is counted for whoever it is of, and for nobody else.
pub proof fn law_pumped_frames_are_counted(
    v: PumpView,
    shared: SharedView,
    from: IdentityId,
    route: Route,
    other: IdentityId,
)
    requires
        v.stats.rejected < u64::MAX,
        v.stats.control_in < u64::MAX,
        v.stats.relayed < u64::MAX,
    ensures
        ({
            let w = pump_after(v, shared, from, route);
            let relayed = shared.relay matches Some(t) && t.sharer == from;
            match route {
                Route::Reject => w == (PumpView {
                    stats: PumpStats { rejected: (v.stats.rejected + 1) as u64, ..v.stats },
                    ..v
                }),
                Route::Control(_) => w == (PumpView {
                    stats: PumpStats { control_in: (v.stats.control_in + 1) as u64, ..v.stats },
                    ..v
                }),
                Route::Video(h) => {
                    let origin = if shared.origins.contains_key(h.ssrc) {
                        shared.origins[h.ssrc]
                    } else {
                        from
                    };
                    &&& w.windows.contains_key(origin)
                    &&& w.windows[origin] == after_count(
                        if v.windows.contains_key(origin) {
                            v.windows[origin]
                        } else {
                            OriginWindow { next_counter: None, received: 0, lost: 0 }
                        },
                        h.counter,
                    )
                    &&& other != origin ==> (w.windows.contains_key(other)
                        <==> v.windows.contains_key(other))
                    &&& other != origin && v.windows.contains_key(other) ==> w.windows[other]
                        == v.windows[other]
                    &&& relayed ==> w.stats == (PumpStats {
                        relayed: (v.stats.relayed + 1) as u64,
                        ..v.stats
                    })
                    &&& !relayed ==> w.stats == v.stats
                },
            }
        }),
{
}

/// Frames are shown as their sharer's, whoever carried them; and it is remembered who
/// carried them, unless it was the sharer.
pub proof fn law_frames_belong_to_their_sharer(
    v: SharedView,
    from: IdentityId,
    sealed: Seq<u8>,
    header: FrameHeader,
    other: IdentityId,
)
    ensures
        v.origins.contains_key(header.ssrc) ==> origin_of(v, header.ssrc, from)
            == v.origins[header.ssrc],
        !v.origins.contains_key(header.ssrc) ==> origin_of(v, header.ssrc, from) == from,
        ({
            let after = shared_after(v, from, sealed, Route::Video(header));
            let origin = origin_of(v, header.ssrc, from);
            &&& after.origins == v.origins
            &&& origin != from ==> after.via.contains_key(origin) && after.via[origin] == from
            &&& origin == from ==> !after.via.contains_key(origin)
            &&& other != origin ==> (after.via.contains_key(other) <==> v.via.contains_key(other))
            &&& other != origin && v.via.contains_key(other) ==> after.via[other] == v.via[other]
        }),
{
}

/// A relay repeats the frames of its sharer to every lane, as they came, with whether each
/// is a keyframe; and nobody else's. What is not video it leaves alone.
pub proof fn law_only_the_sharer_is_relayed(
    v: SharedView,
    from: IdentityId,
    sealed: Seq<u8>,
    header: FrameHeader,
    relay: RelayView,
)
    requires
        v.relay == Some(relay),
    ensures
        ({
            let after = shared_after(v, from, sealed, Route::Video(header));
            &&& after.relay matches Some(t) && t.sharer == relay.sharer
            &&& from == relay.sharer ==> after.relay->0.fanout == after_broadcast(
                relay.fanout,
                SealedView { sealed, keyframe: header.flags & 2u8 != 0 },
            )
            &&& from != relay.sharer ==> after.relay == v.relay
        }),
        shared_after(v, from, sealed, Route::Reject) == v,
        relays(v, from) <==> from == relay.sharer,
{
}

/// Whoever was heard of since the last report is reported on, with what was received and
/// lost; nobody else is. A report empties the window, and moves no counter.
pub proof fn law_everyone_heard_is_reported_on(
    windows: Map<IdentityId, OriginWindow>,
    p: IdentityId,
)
    requires
        windows.dom().finite(),
    ensures
        reporting(windows).contains(p) <==> windows.contains_key(p) && (windows[p].received > 0
            || windows[p].lost > 0),
        report_on(windows, p) == (PumpEventView::FeedbackDue {
            origin: p,
            report: FeedbackReport { received: windows[p].received, lost: windows[p].lost },
        }),
        emptied(windows[p]).received == 0,
        emptied(windows[p]).lost == 0,
        emptied(windows[p]).next_counter == windows[p].next_counter,
{
    let f = |q: IdentityId| windows[q].received != 0 || windows[q].lost != 0;
    let walk = in_order(windows.dom());
    crate::sorted::law_in_order_lists_each_once(windows.dom(), p);
    walk.filter_lemma(f);
    let kept = walk.filter(f);
    if kept.contains(p) {
        let i = choose|i: int| 0 <= i < kept.len() && kept[i] == p;
        assert(f(kept[i]));
        walk.lemma_filter_contains_rev(f, p);
    }
    if windows.contains_key(p) && (windows[p].received > 0 || windows[p].lost > 0) {
        assert(walk.contains(p));
        let i = choose|i: int| 0 <= i < walk.len() && walk[i] == p;
        assert(f(walk[i]));
        assert(kept.contains(walk[i]));
    }
}

/// Every event of a list is reported, in order, as what it is.
pub proof fn law_every_pump_event_is_reported(list: Seq<PumpEvent>, i: int)
    ensures
        event_views(list).len() == list.len(),
        0 <= i < list.len() ==> event_views(list)[i] == list[i]@,
{
}

} // verus!

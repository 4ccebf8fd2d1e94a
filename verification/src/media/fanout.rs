//! The single fan-out point of a share: each sealed frame is pushed once, and
//! every viewer has an independent lane. Electing forwarders means following
//! them instead of all viewers; encoding and sealing never learn the
//! difference.

use vstd::prelude::*;

use crate::media::video::{
    after_observe, after_prime, after_queue_pop, after_queue_push, after_reset, fresh_queue,
    push_outcome, CacheView, KeyframeCache, PushOutcome, QueueView, SealedVideoFrame,
    SealedView, VideoSendQueue,
};
use crate::shared::IdentityId;
use crate::sorted::{in_order, lemma_in_order, lists, SortedMap};

verus! {

/// Frames a lane may fall behind; beyond that the viewer is better served by a
/// fresh keyframe run.
pub const LANE_QUEUE_DEPTH: usize = 4;

/// How large a keyframe run a relay keeps.
pub const RELAY_CACHE_BYTES: usize = 4_194_304;

/// One viewer's lane: its queue and the consecutive failures to open or send.
#[derive(Debug)]
pub struct Lane {
    queue: VideoSendQueue,
    failures: u32,
}

#[verifier::ext_equal]
pub ghost struct LaneView {
    pub queue: QueueView,
    pub failures: u32,
}

impl View for Lane {
    type V = LaneView;

    closed spec fn view(&self) -> LaneView {
        LaneView { queue: self.queue@, failures: self.failures }
    }
}

#[verifier::ext_equal]
pub ghost struct FanoutView {
    pub lanes: Map<IdentityId, LaneView>,
    /// Frames lost with dropped runs, over all lanes, modulo `2^64`.
    pub dropped_total: u64,
    /// The keyframe-run cache of a relay.
    pub cache: Option<CacheView>,
    /// A keyframe was asked for from outside.
    pub keyframe_demanded: bool,
}

pub open spec fn lane_views(lanes: Map<IdentityId, Lane>) -> Map<IdentityId, LaneView> {
    lanes.map_values(|l: Lane| l@)
}

/// A lane as it opens: primed with the cached run if there is one.
pub open spec fn opening_lane(cache: Option<CacheView>) -> LaneView {
    let empty = fresh_queue(LANE_QUEUE_DEPTH as int);
    LaneView {
        queue: match cache {
            Some(c) => match c.run {
                Some(run) => after_prime(empty, run),
                None => empty,
            },
            None => empty,
        },
        failures: 0,
    }
}

/// The fan-out when it follows `peers`: leavers lose their lane, the others keep
/// theirs, newcomers get one.
pub open spec fn following(v: FanoutView, peers: Seq<IdentityId>) -> FanoutView {
    FanoutView {
        lanes: Map::new(
            |p: IdentityId| peers.contains(p),
            |p: IdentityId|
                if v.lanes.contains_key(p) {
                    v.lanes[p]
                } else {
                    opening_lane(v.cache)
                },
        ),
        ..v
    }
}

/// Those of `peers` that are not known yet, each once, in the order given.
pub open spec fn newcomers(peers: Seq<IdentityId>, known: Set<IdentityId>) -> Seq<IdentityId>
    decreases peers.len(),
{
    if peers.len() == 0 {
        seq![]
    } else {
        let before = newcomers(peers.drop_last(), known);
        if known.contains(peers.last()) || peers.drop_last().contains(peers.last()) {
            before
        } else {
            before.push(peers.last())
        }
    }
}

/// What a lane loses when a frame overflows it.
pub open spec fn run_lost(lane: LaneView, frame: SealedView) -> int {
    match push_outcome(lane.queue, frame) {
        PushOutcome::DroppedRun { dropped } => dropped as int,
        _ => 0,
    }
}

/// What the lanes lose together.
pub open spec fn runs_lost(
    lanes: Map<IdentityId, LaneView>,
    walk: Seq<IdentityId>,
    frame: SealedView,
) -> int
    decreases walk.len(),
{
    if walk.len() == 0 {
        0
    } else {
        runs_lost(lanes, walk.drop_last(), frame) + run_lost(lanes[walk.last()], frame)
    }
}

pub open spec fn lane_after(lane: LaneView, frame: SealedView) -> LaneView {
    LaneView { queue: after_queue_push(lane.queue, frame), ..lane }
}

/// The fan-out after a frame was pushed toward every lane.
pub open spec fn after_broadcast(v: FanoutView, frame: SealedView) -> FanoutView {
    FanoutView {
        lanes: v.lanes.map_values(|l: LaneView| lane_after(l, frame)),
        dropped_total: ((v.dropped_total + runs_lost(v.lanes, in_order(v.lanes.dom()), frame)) % (
        u64::MAX + 1)) as u64,
        cache: match v.cache {
            Some(c) => Some(after_observe(c, frame)),
            None => None,
        },
        keyframe_demanded: v.keyframe_demanded && !frame.keyframe,
    }
}

proof fn lemma_take_one_more(s: Seq<IdentityId>, i: int)
    requires
        0 <= i < s.len(),
    ensures
        s.take(i + 1).drop_last() == s.take(i),
        s.take(i + 1).last() == s[i],
        forall|p: IdentityId| #[trigger]
            s.take(i + 1).contains(p) <==> s.take(i).contains(p) || p == s[i],
{
    let t = s.take(i);
    let u = s.take(i + 1);
    assert(u.drop_last() =~= t);
    assert forall|p: IdentityId| #[trigger] u.contains(p) <==> t.contains(p) || p == s[i] by {
        if t.contains(p) {
            let j = choose|j: int| 0 <= j < t.len() && t[j] == p;
            assert(u[j] == p);
        }
        if p == s[i] {
            assert(u[i] == p);
        }
        if u.contains(p) && p != s[i] {
            let j = choose|j: int| 0 <= j < u.len() && u[j] == p;
            assert(t[j] == p);
        }
    }
}

/// The fan-out with one lane changed.
pub open spec fn with_lane(v: FanoutView, peer: IdentityId, lane: LaneView) -> FanoutView {
    FanoutView { lanes: v.lanes.insert(peer, lane), ..v }
}

/// A lane after a frame was taken from its queue.
pub open spec fn taken(lane: LaneView) -> LaneView {
    LaneView { queue: after_queue_pop(lane.queue), ..lane }
}

/// A lane after its stream failed.
pub open spec fn failed(lane: LaneView) -> LaneView {
    LaneView { queue: after_reset(lane.queue), failures: lane.failures.wrapping_add(1) }
}

/// Whether some lane waits for a keyframe, or one was asked for.
pub open spec fn wants_keyframe(v: FanoutView) -> bool {
    v.keyframe_demanded || exists|p: IdentityId| #[trigger]
        v.lanes.contains_key(p) && v.lanes[p].queue.awaiting_keyframe
}

/// Every lane gets the same frame: where it is queued, it is queued as it is,
/// behind what was there.
pub proof fn law_every_lane_gets_the_same_frame(
    v: FanoutView,
    frame: SealedView,
    peer: IdentityId,
)
    requires
        v.lanes.contains_key(peer),
    ensures
        after_broadcast(v, frame).lanes.dom() == v.lanes.dom(),
        push_outcome(v.lanes[peer].queue, frame) is Queued ==> after_broadcast(
            v,
            frame,
        ).lanes[peer].queue.frames == v.lanes[peer].queue.frames.push(frame),
        after_broadcast(v, frame).lanes[peer] == lane_after(v.lanes[peer], frame),
{
    assert(after_broadcast(v, frame).lanes.dom() =~= v.lanes.dom());
}

/// After a keyframe went out, nobody waits for one any more.
pub proof fn law_keyframe_answers_every_demand(v: FanoutView, frame: SealedView)
    requires
        frame.keyframe,
    ensures
        !wants_keyframe(after_broadcast(v, frame)),
{
}

/// Whoever joins a share without a cached run makes it want a keyframe; a relay
/// with a run serves the joiner from it.
pub proof fn law_late_joiner_gets_a_picture(
    v: FanoutView,
    peers: Seq<IdentityId>,
    peer: IdentityId,
)
    requires
        peers.contains(peer),
        !v.lanes.contains_key(peer),
        v.cache matches Some(c) ==> (c.run matches Some(run) ==> run.len() > 0 && run[0].keyframe),
    ensures
        match v.cache {
            Some(CacheView { run: Some(run), .. }) => following(
                v,
                peers,
            ).lanes[peer].queue.frames == run,
            _ => wants_keyframe(following(v, peers)),
        },
{
    assert(following(v, peers).lanes.contains_key(peer));
}

/// What a lane does next.
#[derive(Debug)]
pub enum LaneStep {
    /// There is no stream: open one before anything is taken from the queue.
    Open,
    Send(SealedVideoFrame),
    /// Nothing to send yet.
    Wait,
    /// The viewer left.
    Closed,
}

/// The lanes that came and went with a change of peers.
#[derive(Debug)]
pub struct LaneChange {
    pub opened: Vec<IdentityId>,
    pub closed: Vec<IdentityId>,
}

#[derive(Debug)]
pub struct VideoFanout {
    lanes: SortedMap<IdentityId, Lane>,
    dropped_total: u64,
    cache: Option<KeyframeCache>,
    keyframe_demanded: bool,
}

impl View for VideoFanout {
    type V = FanoutView;

    closed spec fn view(&self) -> FanoutView {
        FanoutView {
            lanes: lane_views(self.lanes@),
            dropped_total: self.dropped_total,
            cache: match self.cache {
                Some(c) => Some(c@),
                None => None,
            },
            keyframe_demanded: self.keyframe_demanded,
        }
    }
}

impl VideoFanout {
    pub closed spec fn wf(&self) -> bool {
        &&& self.lanes.wf()
        &&& forall|p: IdentityId| #[trigger]
            self.lanes@.contains_key(p) ==> self.lanes@[p].queue.wf()
        &&& self.cache matches Some(c) ==> c.wf()
    }

    /// The sharer's fan-out.
    pub fn new() -> (r: Self)
        ensures
            r.wf(),
            r@ == (FanoutView {
                lanes: Map::empty(),
                dropped_total: 0,
                cache: None,
                keyframe_demanded: false,
            }),
    {
        let r = VideoFanout {
            lanes: SortedMap::new(),
            dropped_total: 0,
            cache: None,
            keyframe_demanded: false,
        };
        assert(r@.lanes =~= Map::<IdentityId, LaneView>::empty());
        r
    }

    /// A relay's fan-out: the same lanes, and the cache that serves late joiners
    /// without the sharer.
    pub fn new_relay() -> (r: Self)
        ensures
            r.wf(),
            r@ == (FanoutView {
                lanes: Map::empty(),
                dropped_total: 0,
                cache: Some(CacheView { run: None, max_bytes: RELAY_CACHE_BYTES as int }),
                keyframe_demanded: false,
            }),
    {
        let r = VideoFanout {
            lanes: SortedMap::new(),
            dropped_total: 0,
            cache: Some(KeyframeCache::new(RELAY_CACHE_BYTES)),
            keyframe_demanded: false,
        };
        assert(r@.lanes =~= Map::<IdentityId, LaneView>::empty());
        r
    }

    fn opening(&self) -> (r: Lane)
        requires
            self.wf(),
        ensures
            r@ == opening_lane(self@.cache),
            r.queue.wf(),
    {
        let mut queue = VideoSendQueue::new(LANE_QUEUE_DEPTH);
        if let Some(cache) = &self.cache {
            if let Some(run) = cache.run() {
                queue.prime(run);
            }
        }
        Lane { queue, failures: 0 }
    }

    fn close_leavers(&mut self, peers: &Vec<IdentityId>) -> (closed: Vec<IdentityId>)
        requires
            old(self).wf(),
        ensures
            final(self).wf(),
            final(self)@ == (FanoutView {
                lanes: old(self)@.lanes.restrict(peers@.to_set()),
                ..old(self)@
            }),
            closed@ == in_order(old(self)@.lanes.dom()).filter(
                |p: IdentityId| !peers@.contains(p),
            ),
    {
        let keys: Vec<IdentityId> = self.lanes.keys();
        let ghost start = self.lanes@;
        let ghost gone = |p: IdentityId| !peers@.contains(p);
        let mut closed: Vec<IdentityId> = Vec::new();
        let mut i: usize = 0;
        proof {
            self.lanes.lemma_walk();
            lemma_in_order(start.dom(), keys@);
            assert(lane_views(start).dom() =~= start.dom());
            reveal(Seq::filter);
            assert(keys@.take(0).filter(gone) =~= Seq::<IdentityId>::empty());
        }
        while i < keys.len()
            invariant
                i <= keys@.len(),
                keys@.no_duplicates(),
                keys@.to_set() == start.dom(),
                gone == (|p: IdentityId| !peers@.contains(p)),
                closed@ == keys@.take(i as int).filter(gone),
                self.lanes.wf(),
                self.cache == old(self).cache,
                self.dropped_total == old(self).dropped_total,
                self.keyframe_demanded == old(self).keyframe_demanded,
                forall|p: IdentityId| #[trigger]
                    self.lanes@.contains_key(p) <==> start.contains_key(p) && (peers@.contains(p)
                        || !keys@.take(i as int).contains(p)),
                forall|p: IdentityId| #[trigger]
                    self.lanes@.contains_key(p) ==> self.lanes@[p] == start[p],
            decreases keys@.len() - i,
        {
            let k: IdentityId = keys[i];
            proof {
                reveal(Seq::filter);
                lemma_take_one_more(keys@, i as int);
            }
            if !lists(peers, &k) {
                let _ = self.lanes.remove(&k);
                closed.push(k);
            }
            i = i + 1;
        }
        proof {
            assert(keys@.take(i as int) =~= keys@);
            assert forall|p: IdentityId| start.contains_key(p) implies keys@.contains(p) by {
                assert(keys@.to_set().contains(p));
            }
            assert(self@.lanes =~= old(self)@.lanes.restrict(peers@.to_set()));
        }
        closed
    }

    /// Follows the roster: new peers get a lane, leavers lose theirs.
    pub fn set_peers(&mut self, peers: &Vec<IdentityId>) -> (r: LaneChange)
        requires
            old(self).wf(),
        ensures
            final(self).wf(),
            final(self)@ == following(old(self)@, peers@),
            r.opened@ == newcomers(peers@, old(self)@.lanes.dom()),
            r.closed@ == in_order(old(self)@.lanes.dom()).filter(
                |p: IdentityId| !peers@.contains(p),
            ),
    {
        let closed: Vec<IdentityId> = self.close_leavers(peers);
        let ghost known = old(self)@.lanes.dom();
        let ghost kept = self@;
        let mut opened: Vec<IdentityId> = Vec::new();
        let mut i: usize = 0;
        proof {
            assert(lane_views(self.lanes@).dom() =~= self.lanes@.dom());
            assert(peers@.take(0) =~= Seq::<IdentityId>::empty());
        }
        while i < peers.len()
            invariant
                i <= peers@.len(),
                self.wf(),
                known == old(self)@.lanes.dom(),
                opened@ == newcomers(peers@.take(i as int), known),
                self@.cache == old(self)@.cache,
                self@.dropped_total == old(self)@.dropped_total,
                self@.keyframe_demanded == old(self)@.keyframe_demanded,
                forall|p: IdentityId| #[trigger]
                    self@.lanes.contains_key(p) <==> peers@.contains(p) && (known.contains(p)
                        || peers@.take(i as int).contains(p)),
                forall|p: IdentityId| #[trigger]
                    self@.lanes.contains_key(p) ==> self@.lanes[p] == (if known.contains(p) {
                        old(self)@.lanes[p]
                    } else {
                        opening_lane(old(self)@.cache)
                    }),
            decreases peers@.len() - i,
        {
            let peer: IdentityId = peers[i];
            let ghost t = peers@.take(i as int);
            let ghost u = peers@.take(i + 1);
            let ghost before = self@;
            proof {
                lemma_take_one_more(peers@, i as int);
                assert(peers@.contains(peer));
                assert(lane_views(self.lanes@).dom() =~= self.lanes@.dom());
            }
            if !self.lanes.contains_key(&peer) {
                assert(!before.lanes.contains_key(peer));
                let lane = self.opening();
                self.lanes.insert(peer, lane);
                opened.push(peer);
                assert(self@.lanes =~= before.lanes.insert(peer, lane@));
            } else {
                assert(before.lanes.contains_key(peer));
            }
            i = i + 1;
        }
        proof {
            assert(peers@.take(i as int) =~= peers@);
            assert(self@.lanes =~= following(old(self)@, peers@).lanes);
        }
        LaneChange { opened, closed }
    }

    /// Pushes one sealed frame toward every lane; the lanes share its bytes.
    pub fn broadcast(&mut self, frame: &SealedVideoFrame)
        requires
            old(self).wf(),
        ensures
            final(self).wf(),
            final(self)@ == after_broadcast(old(self)@, frame@),
    {
        if frame.keyframe {
            self.keyframe_demanded = false;
        }
        let observed = match self.cache.take() {
            Some(cache) => {
                let mut cache = cache;
                cache.observe(frame);
                Some(cache)
            },
            None => None,
        };
        self.cache = observed;
        let keys: Vec<IdentityId> = self.lanes.keys();
        let ghost start = self.lanes@;
        let ghost views = lane_views(start);
        let ghost pushed = views.map_values(|l: LaneView| lane_after(l, frame@));
        let ghost demanded = self.keyframe_demanded;
        let ghost cached = self@.cache;
        let mut i: usize = 0;
        proof {
            self.lanes.lemma_walk();
            lemma_in_order(start.dom(), keys@);
            assert(views.dom() =~= start.dom());
            assert(keys@.take(0) =~= Seq::<IdentityId>::empty());
        }
        while i < keys.len()
            invariant
                i <= keys@.len(),
                keys@.no_duplicates(),
                keys@.to_set() == start.dom(),
                views == lane_views(start),
                self.wf(),
                self@.cache == cached,
                self.keyframe_demanded == demanded,
                self.lanes@.dom() == start.dom(),
                forall|p: IdentityId| #[trigger]
                    start.contains_key(p) ==> self.lanes@[p]@ == (if keys@.take(
                        i as int,
                    ).contains(p) {
                        lane_after(start[p]@, frame@)
                    } else {
                        start[p]@
                    }),
                self.dropped_total == (old(self).dropped_total + runs_lost(
                    views,
                    keys@.take(i as int),
                    frame@,
                )) % (u64::MAX + 1),
            decreases keys@.len() - i,
        {
            let k: IdentityId = keys[i];
            let ghost t = keys@.take(i as int);
            let ghost u = keys@.take(i + 1);
            let ghost before = self.lanes@;
            proof {
                assert(keys@.to_set().contains(k));
                assert(!t.contains(k)) by {
                    if t.contains(k) {
                        let j = choose|j: int| 0 <= j < t.len() && t[j] == k;
                        assert(keys@[j] == keys@[i as int]);
                    }
                }
                lemma_take_one_more(keys@, i as int);
                assert(before[k]@ == start[k]@);
                assert(views[k] == start[k]@);
            }
            let lost: u64 = match self.lanes.get_mut(&k) {
                Some(lane) => {
                    match lane.queue.push(frame.clone()) {
                        PushOutcome::DroppedRun { dropped } => dropped as u64,
                        _ => 0,
                    }
                },
                None => 0,
            };
            assert(lost == run_lost(views[k], frame@));
            self.dropped_total = self.dropped_total.wrapping_add(lost);
            i = i + 1;
        }
        proof {
            assert(keys@.take(i as int) =~= keys@);
            assert forall|p: IdentityId| start.contains_key(p) implies keys@.contains(p) by {
                assert(keys@.to_set().contains(p));
            }
            assert(self@.lanes =~= pushed);
        }
    }

    /// Whether a lane needs a keyframe, or one was asked for. The encode loop
    /// consults this every frame: the whole call shares the one encode.
    pub fn keyframe_wanted(&self) -> (r: bool)
        requires
            self.wf(),
        ensures
            r == wants_keyframe(self@),
    {
        if self.keyframe_demanded {
            return true;
        }
        let n: usize = self.lanes.len();
        let mut i: usize = 0;
        proof {
            self.lanes.lemma_walk();
        }
        while i < n
            invariant
                i <= n == self.lanes.walk().len(),
                self.wf(),
                !self@.keyframe_demanded,
                forall|k: IdentityId|
                    self.lanes.walk().contains(k) <==> self.lanes@.contains_key(k),
                forall|j: int|
                    0 <= j < i ==> !self.lanes@[#[trigger] self.lanes.walk()[j]]@.queue.awaiting_keyframe,
            decreases n - i,
        {
            let ghost k = self.lanes.walk()[i as int];
            if self.lanes.value_at(i).queue.awaiting_keyframe() {
                assert(self@.lanes.contains_key(k) && self@.lanes[k].queue.awaiting_keyframe);
                return true;
            }
            i = i + 1;
        }
        proof {
            assert forall|p: IdentityId| #[trigger]
                self@.lanes.contains_key(p) implies !self@.lanes[p].queue.awaiting_keyframe by {
                assert(self.lanes@.contains_key(p));
                assert(self.lanes.walk().contains(p));
                let j = choose|j: int|
                    0 <= j < self.lanes.walk().len() && self.lanes.walk()[j] == p;
            }
        }
        false
    }

    /// A keyframe is asked for from outside, until the next one goes out.
    pub fn demand_keyframe(&mut self)
        requires
            old(self).wf(),
        ensures
            final(self).wf(),
            final(self)@ == (FanoutView { keyframe_demanded: true, ..old(self)@ }),
    {
        self.keyframe_demanded = true;
    }

    /// The peers whose lane failed at least `threshold` times in a row: the
    /// signal by which a forwarder is taken for unreachable.
    pub fn failing_peers(&self, threshold: u32) -> (r: Vec<IdentityId>)
        requires
            self.wf(),
        ensures
            r@ == in_order(self@.lanes.dom()).filter(
                |p: IdentityId| self@.lanes[p].failures >= threshold,
            ),
    {
        let ghost failing = |p: IdentityId| self@.lanes[p].failures >= threshold;
        let ghost walk = self.lanes.walk();
        let n: usize = self.lanes.len();
        let mut r: Vec<IdentityId> = Vec::new();
        let mut i: usize = 0;
        proof {
            self.lanes.lemma_walk();
            lemma_in_order(self.lanes@.dom(), walk);
            assert(self@.lanes.dom() =~= self.lanes@.dom());
            reveal(Seq::filter);
            assert(walk.take(0).filter(failing) =~= Seq::<IdentityId>::empty());
        }
        while i < n
            invariant
                i <= n == walk.len(),
                walk == self.lanes.walk(),
                self.wf(),
                failing == (|p: IdentityId| self@.lanes[p].failures >= threshold),
                r@ == walk.take(i as int).filter(failing),
            decreases n - i,
        {
            proof {
                reveal(Seq::filter);
                assert(walk.take(i + 1).drop_last() =~= walk.take(i as int));
                assert(walk.take(i + 1).last() == walk[i as int]);
            }
            let lane = self.lanes.value_at(i);
            assert(self@.lanes[walk[i as int]] == lane@);
            if lane.failures >= threshold {
                r.push(self.lanes.key_at(i));
            }
            i = i + 1;
        }
        assert(walk.take(i as int) =~= walk);
        r
    }

    pub fn peer_count(&self) -> (r: usize)
        requires
            self.wf(),
        ensures
            r == self@.lanes.dom().len(),
    {
        assert(self@.lanes.dom() =~= self.lanes@.dom());
        self.lanes.len()
    }

    pub fn dropped_total(&self) -> (r: u64)
        ensures
            r == self@.dropped_total,
    {
        self.dropped_total
    }

    /// The next step of a lane. Nothing is taken from the queue until there is a
    /// stream to send it on, so the opening keyframe survives however long the
    /// stream takes to come up.
    pub fn next_step(&mut self, peer: &IdentityId, has_stream: bool) -> (r: LaneStep)
        requires
            old(self).wf(),
        ensures
            final(self).wf(),
            final(self)@ == (if old(self)@.lanes.contains_key(*peer) && has_stream {
                with_lane(old(self)@, *peer, taken(old(self)@.lanes[*peer]))
            } else {
                old(self)@
            }),
            match r {
                LaneStep::Closed => !old(self)@.lanes.contains_key(*peer),
                LaneStep::Open => old(self)@.lanes.contains_key(*peer) && !has_stream,
                LaneStep::Wait => {
                    &&& old(self)@.lanes.contains_key(*peer)
                    &&& has_stream
                    &&& old(self)@.lanes[*peer].queue.frames.len() == 0
                },
                LaneStep::Send(frame) => {
                    &&& old(self)@.lanes.contains_key(*peer)
                    &&& has_stream
                    &&& old(self)@.lanes[*peer].queue.frames.len() > 0
                    &&& frame@ == old(self)@.lanes[*peer].queue.frames[0]
                },
            },
    {
        let ghost before = self.lanes@;
        let (known, popped) = match self.lanes.get_mut(peer) {
            Some(lane) => {
                if has_stream {
                    (true, lane.queue.pop())
                } else {
                    (true, None)
                }
            },
            None => (false, None),
        };
        proof {
            assert(known ==> lane_views(self.lanes@) =~= lane_views(before).insert(
                *peer,
                self.lanes@[*peer]@,
            ));
            assert(known && self.lanes@[*peer]@ == before[*peer]@ ==> lane_views(self.lanes@)
                =~= lane_views(before));
        }
        if !known {
            return LaneStep::Closed;
        }
        if !has_stream {
            return LaneStep::Open;
        }
        match popped {
            Some(frame) => LaneStep::Send(frame),
            None => LaneStep::Wait,
        }
    }

    /// A stream could not be opened, or a send failed or stalled: what is queued
    /// is stale by the time there is a stream, so the lane restarts from a
    /// keyframe.
    pub fn lane_failed(&mut self, peer: &IdentityId)
        requires
            old(self).wf(),
        ensures
            final(self).wf(),
            final(self)@ == (if old(self)@.lanes.contains_key(*peer) {
                with_lane(old(self)@, *peer, failed(old(self)@.lanes[*peer]))
            } else {
                old(self)@
            }),
    {
        let ghost before = self.lanes@;
        if let Some(lane) = self.lanes.get_mut(peer) {
            lane.failures = lane.failures.wrapping_add(1);
            lane.queue.reset_for_keyframe();
        }
        proof {
            assert(lane_views(before).dom() =~= before.dom());
            assert(before.contains_key(*peer) ==> lane_views(self.lanes@) =~= lane_views(
                before,
            ).insert(*peer, self.lanes@[*peer]@));
        }
    }

    /// A frame left on the lane: the peer is reachable.
    pub fn lane_sent(&mut self, peer: &IdentityId)
        requires
            old(self).wf(),
        ensures
            final(self).wf(),
            final(self)@ == (if old(self)@.lanes.contains_key(*peer) {
                with_lane(
                    old(self)@,
                    *peer,
                    (LaneView { failures: 0, ..old(self)@.lanes[*peer] }),
                )
            } else {
                old(self)@
            }),
    {
        let ghost before = self.lanes@;
        if let Some(lane) = self.lanes.get_mut(peer) {
            lane.failures = 0;
        }
        proof {
            assert(lane_views(before).dom() =~= before.dom());
            assert(before.contains_key(*peer) ==> lane_views(self.lanes@) =~= lane_views(
                before,
            ).insert(*peer, self.lanes@[*peer]@));
        }
    }
}

/// A fan-out follows its peers: each of them has a lane, and nobody else. Who had one
/// keeps it as it was, and whoever is new gets one that waits for a keyframe, or that
/// holds the cached run.
pub proof fn law_every_peer_has_a_lane(v: FanoutView, peers: Seq<IdentityId>, peer: IdentityId)
    ensures
        following(v, peers).lanes.contains_key(peer) <==> peers.contains(peer),
        peers.contains(peer) && v.lanes.contains_key(peer) ==> following(v, peers).lanes[peer]
            == v.lanes[peer],
        peers.contains(peer) && !v.lanes.contains_key(peer) && v.cache is None ==> {
            let lane = following(v, peers).lanes[peer];
            &&& lane.failures == 0
            &&& lane.queue.frames.len() == 0
            &&& lane.queue.awaiting_keyframe
            &&& lane.queue.capacity == 4
        },
        following(v, peers).cache == v.cache,
        following(v, peers).dropped_total == v.dropped_total,
        following(v, peers).keyframe_demanded == v.keyframe_demanded,
{
}

/// Lanes are opened for exactly the peers that had none, once each.
pub proof fn law_newcomers_are_the_new_peers(
    peers: Seq<IdentityId>,
    known: Set<IdentityId>,
    peer: IdentityId,
)
    ensures
        newcomers(peers, known).contains(peer) <==> peers.contains(peer) && !known.contains(peer),
        newcomers(peers, known).no_duplicates(),
    decreases peers.len(),
{
    if peers.len() > 0 {
        let init = peers.drop_last();
        let last = peers.last();
        law_newcomers_are_the_new_peers(init, known, peer);
        law_newcomers_are_the_new_peers(init, known, last);
        let before = newcomers(init, known);
        let now = newcomers(peers, known);
        assert(peers.contains(peer) <==> init.contains(peer) || peer == last) by {
            if init.contains(peer) {
                let i = choose|i: int| 0 <= i < init.len() && init[i] == peer;
                assert(peers[i] == peer);
            }
            if peers.contains(peer) {
                let i = choose|i: int| 0 <= i < peers.len() && peers[i] == peer;
                if i < init.len() {
                    assert(init[i] == peer);
                }
            }
            assert(peers[peers.len() - 1] == last);
        }
        if now != before {
            assert(now == before.push(last));
            assert(now[before.len() as int] == last);
            if before.contains(peer) {
                let i = choose|i: int| 0 <= i < before.len() && before[i] == peer;
                assert(now[i] == peer);
            }
            if now.contains(peer) {
                let i = choose|i: int| 0 <= i < now.len() && now[i] == peer;
                if i < before.len() {
                    assert(before[i] == peer);
                }
            }
        }
    } else {
        assert(!peers.contains(peer));
    }
}

/// A frame reaches every lane that can take it: a keyframe every lane, waiting or not,
/// and a delta every lane that is in sync and has room; behind what is there. No lane
/// learns of a failure by it.
pub proof fn law_frames_reach_every_lane(v: FanoutView, frame: SealedView, peer: IdentityId)
    requires
        v.lanes.contains_key(peer),
        v.lanes[peer].queue.sound(),
    ensures
        ({
            let before = v.lanes[peer].queue;
            let after = after_broadcast(v, frame).lanes[peer].queue;
            let room = before.frames.len() < before.capacity + before.primed;
            &&& after_broadcast(v, frame).lanes.contains_key(peer)
            &&& after_broadcast(v, frame).lanes[peer].failures == v.lanes[peer].failures
            &&& frame.keyframe ==> after.frames.len() > 0 && after.frames.last() == frame
                && !after.awaiting_keyframe
            &&& room && (frame.keyframe || !before.awaiting_keyframe) ==> after.frames
                == before.frames.push(frame)
            &&& !frame.keyframe && before.awaiting_keyframe ==> after.frames.len() == 0
                && after.awaiting_keyframe
        }),
{
}

/// A fan-out wants a keyframe if somebody asked for one, or if a lane cannot go on
/// without; asking is answered by the next keyframe, and by nothing else.
pub proof fn law_demands_stand_until_answered(v: FanoutView, frame: SealedView, peer: IdentityId)
    ensures
        v.keyframe_demanded ==> wants_keyframe(v),
        v.lanes.contains_key(peer) && v.lanes[peer].queue.awaiting_keyframe ==> wants_keyframe(v),
        !v.keyframe_demanded && (forall|p: IdentityId| #[trigger]
            v.lanes.contains_key(p) ==> !v.lanes[p].queue.awaiting_keyframe) ==> !wants_keyframe(v),
        v.keyframe_demanded && !frame.keyframe ==> after_broadcast(v, frame).keyframe_demanded,
        !v.keyframe_demanded ==> !after_broadcast(v, frame).keyframe_demanded,
{
}

/// A fan-out that no lane overflows in counts nothing as lost.
pub proof fn law_nothing_is_lost_with_room(
    lanes: Map<IdentityId, LaneView>,
    walk: Seq<IdentityId>,
    frame: SealedView,
)
    requires
        forall|i: int|
            0 <= i < walk.len() ==> push_outcome(
                lanes[#[trigger] walk[i]].queue,
                frame,
            ) !is DroppedRun,
    ensures
        runs_lost(lanes, walk, frame) == 0,
    decreases walk.len(),
{
    if walk.len() > 0 {
        let front = walk.drop_last();
        assert forall|i: int| 0 <= i < front.len() implies push_outcome(
            lanes[#[trigger] front[i]].queue,
            frame,
        ) !is DroppedRun by {
            assert(front[i] == walk[i]);
        }
        law_nothing_is_lost_with_room(lanes, front, frame);
        assert(walk.last() == walk[walk.len() - 1]);
    }
}

/// A lane whose stream failed starts over: it counts one failure more, holds nothing and
/// waits for a keyframe, which makes the fan-out want one. A lane that a frame was taken
/// from holds the rest, and counts no failure.
pub proof fn law_a_failed_lane_starts_over(v: FanoutView, peer: IdentityId, lane: LaneView)
    requires
        lane.failures < u32::MAX,
    ensures
        failed(lane).failures == lane.failures + 1,
        failed(lane).queue.frames.len() == 0,
        failed(lane).queue.awaiting_keyframe,
        wants_keyframe(with_lane(v, peer, failed(lane))),
        taken(lane).failures == lane.failures,
        lane.queue.frames.len() > 0 ==> taken(lane).queue.frames == lane.queue.frames.drop_first(),
        with_lane(v, peer, lane).lanes[peer] == lane,
        with_lane(v, peer, lane).cache == v.cache,
{
    let w = with_lane(v, peer, failed(lane));
    assert(w.lanes.contains_key(peer) && w.lanes[peer].queue.awaiting_keyframe);
}

/// What an overflow costs a lane: the frames that it held, and the newcomer too unless that
/// is a keyframe, which stays. What the lanes lose together is the sum.
pub proof fn law_losses_add_up(
    lanes: Map<IdentityId, LaneView>,
    walk: Seq<IdentityId>,
    peer: IdentityId,
    frame: SealedView,
)
    requires
        lanes[peer].queue.frames.len() < usize::MAX,
    ensures
        runs_lost(lanes, walk.push(peer), frame) == runs_lost(lanes, walk, frame) + run_lost(
            lanes[peer],
            frame,
        ),
        ({
            let q = lanes[peer].queue;
            let held = q.frames.len();
            let overflows = held >= q.capacity + q.primed && (frame.keyframe
                || !q.awaiting_keyframe);
            &&& overflows && frame.keyframe ==> run_lost(lanes[peer], frame) == held
            &&& overflows && !frame.keyframe ==> run_lost(lanes[peer], frame) == held + 1
            &&& !overflows ==> run_lost(lanes[peer], frame) == 0
        }),
{
    assert(walk.push(peer).drop_last() =~= walk);
}

} // verus!

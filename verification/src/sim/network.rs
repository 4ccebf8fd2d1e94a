//! The bus that connects the nodes of a scenario. Delivery visits the nodes in
//! the order of their identities. A link can be delayed: its traffic is held, in
//! the order it was sent, until it is flushed, which is how scenarios make races
//! and gaps in history.

use std::collections::VecDeque;

use vstd::prelude::*;

use crate::messaging::message::MessageView;
use crate::messaging::ChannelId;
use crate::order::Key;
use crate::ports::{ChannelSignal, ChannelSignalView, TransportError, WireMessage};
use crate::shared::IdentityId;
use crate::sorted::{in_order, lemma_in_order, SortedMap, SortedSet};

verus! {

/// Something on its way.
#[derive(Debug)]
pub enum Held {
    Channel { to: IdentityId, channel: ChannelId, signal: ChannelSignal },
    Dm { to: IdentityId, from: IdentityId, message: WireMessage },
}

#[verifier::ext_equal]
pub ghost enum HeldView {
    Channel { to: IdentityId, channel: ChannelId, signal: ChannelSignalView },
    Dm { to: IdentityId, from: IdentityId, message: MessageView },
}

impl View for Held {
    type V = HeldView;

    open spec fn view(&self) -> HeldView {
        match self {
            Held::Channel { to, channel, signal } => HeldView::Channel {
                to: *to,
                channel: *channel,
                signal: signal@,
            },
            Held::Dm { to, from, message } => HeldView::Dm {
                to: *to,
                from: *from,
                message: message@,
            },
        }
    }
}

impl HeldView {
    pub open spec fn addressee(self) -> IdentityId {
        match self {
            HeldView::Channel { to, .. } => to,
            HeldView::Dm { to, .. } => to,
        }
    }
}

impl Held {
    pub fn addressee(&self) -> (r: IdentityId)
        ensures
            r == self@.addressee(),
    {
        match self {
            Held::Channel { to, .. } => *to,
            Held::Dm { to, .. } => *to,
        }
    }
}

pub open spec fn held_views(s: Seq<Held>) -> Seq<HeldView> {
    s.map_values(|h: Held| h@)
}

#[verifier::ext_equal]
pub ghost struct NetworkView {
    /// Who is on the bus, and the channels each listens to.
    pub endpoints: Map<IdentityId, Set<ChannelId>>,
    pub delayed: Set<(IdentityId, IdentityId)>,
    pub held: Seq<HeldView>,
}

/// Whether a node hears what `from` publishes on a channel.
pub open spec fn hears(v: NetworkView, from: IdentityId, channel: ChannelId) -> spec_fn(
    IdentityId,
) -> bool {
    |p: IdentityId| p != from && v.endpoints[p].contains(channel)
}

/// Whether the link to a node is delayed, or is not.
pub open spec fn link_is(v: NetworkView, from: IdentityId, delayed: bool) -> spec_fn(
    IdentityId,
) -> bool {
    |p: IdentityId| v.delayed.contains((from, p)) == delayed
}

/// Who hears what `from` publishes on a channel, in the order of delivery.
pub open spec fn audience(v: NetworkView, from: IdentityId, channel: ChannelId) -> Seq<IdentityId> {
    in_order(v.endpoints.dom()).filter(hears(v, from, channel))
}

/// The part of an audience behind delayed links, or in front of them.
pub open spec fn reached(
    v: NetworkView,
    from: IdentityId,
    audience: Seq<IdentityId>,
    delayed: bool,
) -> Seq<IdentityId> {
    audience.filter(link_is(v, from, delayed))
}

pub open spec fn in_flight(
    to: Seq<IdentityId>,
    channel: ChannelId,
    signal: ChannelSignalView,
) -> Seq<HeldView> {
    to.map_values(|p: IdentityId| HeldView::Channel { to: p, channel, signal })
}

/// What a publication delivers at once.
pub open spec fn published(
    v: NetworkView,
    from: IdentityId,
    channel: ChannelId,
    signal: ChannelSignalView,
) -> Seq<HeldView> {
    in_flight(reached(v, from, audience(v, from, channel), false), channel, signal)
}

/// The bus after a publication.
pub open spec fn after_publication(
    v: NetworkView,
    from: IdentityId,
    channel: ChannelId,
    signal: ChannelSignalView,
) -> NetworkView {
    NetworkView {
        held: v.held + in_flight(
            reached(v, from, audience(v, from, channel), true),
            channel,
            signal,
        ),
        ..v
    }
}

/// A publication reaches every listener but its sender, now or when the held
/// traffic is flushed, and nobody else.
pub proof fn law_publication_reaches_every_listener(
    v: NetworkView,
    from: IdentityId,
    channel: ChannelId,
    signal: ChannelSignalView,
    p: IdentityId,
)
    requires
        v.endpoints.dom().finite(),
    ensures
        (published(v, from, channel, signal) + after_publication(
            v,
            from,
            channel,
            signal,
        ).held.skip(v.held.len() as int)).contains(HeldView::Channel { to: p, channel, signal })
            <==> p != from && v.endpoints.contains_key(p) && v.endpoints[p].contains(channel),
{
    let now = reached(v, from, audience(v, from, channel), false);
    let later = reached(v, from, audience(v, from, channel), true);
    let item = HeldView::Channel { to: p, channel, signal };
    let tail = after_publication(v, from, channel, signal).held.skip(v.held.len() as int);
    assert(tail =~= in_flight(later, channel, signal));
    let walk = in_order(v.endpoints.dom());
    let w = crate::sorted::lemma_walk_exists(v.endpoints.dom());
    lemma_in_order(v.endpoints.dom(), w);
    assert(walk.contains(p) <==> v.endpoints.contains_key(p)) by {
        assert(walk.to_set().contains(p) <==> walk.contains(p));
    }
    lemma_filter_keeps(walk, hears(v, from, channel), p);
    let a = audience(v, from, channel);
    lemma_filter_keeps(a, link_is(v, from, false), p);
    lemma_filter_keeps(a, link_is(v, from, true), p);
    lemma_in_flight_contains(now, channel, signal, p);
    lemma_in_flight_contains(later, channel, signal, p);
    let both = published(v, from, channel, signal) + tail;
    if both.contains(item) {
        let k = choose|k: int| 0 <= k < both.len() && both[k] == item;
        if k < published(v, from, channel, signal).len() {
            assert(published(v, from, channel, signal)[k] == item);
        } else {
            assert(tail[k - published(v, from, channel, signal).len()] == item);
        }
    }
    let first = published(v, from, channel, signal);
    if now.contains(p) {
        let k = choose|k: int| 0 <= k < first.len() && first[k] == item;
        assert(both[k] == item);
    }
    if later.contains(p) {
        let k = choose|k: int| 0 <= k < tail.len() && tail[k] == item;
        assert(both[published(v, from, channel, signal).len() + k] == item);
    }
}

proof fn lemma_in_flight_contains(
    to: Seq<IdentityId>,
    channel: ChannelId,
    signal: ChannelSignalView,
    p: IdentityId,
)
    ensures
        in_flight(to, channel, signal).contains(HeldView::Channel { to: p, channel, signal })
            <==> to.contains(p),
{
    let f = in_flight(to, channel, signal);
    let item = HeldView::Channel { to: p, channel, signal };
    if f.contains(item) {
        let k = choose|k: int| 0 <= k < f.len() && f[k] == item;
        assert(to[k] == p);
    }
    if to.contains(p) {
        let k = choose|k: int| 0 <= k < to.len() && to[k] == p;
        assert(f[k] == item);
    }
}

proof fn lemma_filter_keeps(s: Seq<IdentityId>, f: spec_fn(IdentityId) -> bool, p: IdentityId)
    ensures
        s.filter(f).contains(p) <==> s.contains(p) && f(p),
    decreases s.len(),
{
    reveal(Seq::filter);
    if s.len() > 0 {
        let front = s.drop_last();
        let x = s.last();
        lemma_filter_keeps(front, f, p);
        if s.contains(p) {
            let k = choose|k: int| 0 <= k < s.len() && s[k] == p;
            if k < front.len() {
                assert(front[k] == p);
            }
        }
        if front.contains(p) {
            let k = choose|k: int| 0 <= k < front.len() && front[k] == p;
            assert(s[k] == p);
        }
        assert(s[s.len() - 1] == x);
        let g = front.filter(f);
        if g.contains(p) {
            let k = choose|k: int| 0 <= k < g.len() && g[k] == p;
            if f(x) {
                assert(g.push(x)[k] == p);
            }
        }
        if f(x) {
            assert(g.push(x)[g.len() as int] == x);
            if g.push(x).contains(p) && p != x {
                let k = choose|k: int| 0 <= k < g.push(x).len() && g.push(x)[k] == p;
                assert(g[k] == p);
            }
        }
    }
}

#[derive(Debug)]
pub struct InMemoryNetwork {
    endpoints: SortedMap<IdentityId, SortedSet<ChannelId>>,
    delayed: SortedMap<IdentityId, SortedSet<IdentityId>>,
    held: VecDeque<Held>,
}

impl View for InMemoryNetwork {
    type V = NetworkView;

    closed spec fn view(&self) -> NetworkView {
        NetworkView {
            endpoints: self.endpoints@.map_values(|s: SortedSet<ChannelId>| s@),
            delayed: Set::new(
                |l: (IdentityId, IdentityId)|
                    self.delayed@.contains_key(l.0) && self.delayed@[l.0]@.contains(l.1),
            ),
            held: held_views(self.held@),
        }
    }
}

impl InMemoryNetwork {
    pub closed spec fn wf(&self) -> bool {
        &&& self.endpoints.wf()
        &&& forall|p: IdentityId| #[trigger]
            self.endpoints@.contains_key(p) ==> self.endpoints@[p].wf()
        &&& self.delayed.wf()
        &&& forall|p: IdentityId| #[trigger]
            self.delayed@.contains_key(p) ==> self.delayed@[p].wf()
    }

    pub fn new() -> (r: Self)
        ensures
            r.wf(),
            r@ == (NetworkView {
                endpoints: Map::empty(),
                delayed: Set::empty(),
                held: Seq::empty(),
            }),
    {
        let r = InMemoryNetwork {
            endpoints: SortedMap::new(),
            delayed: SortedMap::new(),
            held: VecDeque::new(),
        };
        proof {
            assert(r@.endpoints =~= Map::<IdentityId, Set<ChannelId>>::empty());
            assert(r@.delayed =~= Set::<(IdentityId, IdentityId)>::empty());
            assert(r@.held =~= Seq::<HeldView>::empty());
        }
        r
    }

    /// Puts a node on the bus; it listens to nothing yet.
    pub fn register(&mut self, id: IdentityId)
        requires
            old(self).wf(),
        ensures
            final(self).wf(),
            final(self)@ == (NetworkView {
                endpoints: old(self)@.endpoints.insert(id, Set::empty()),
                ..old(self)@
            }),
    {
        self.endpoints.insert(id, SortedSet::new());
        proof {
            assert(self@.endpoints =~= old(self)@.endpoints.insert(id, Set::empty()));
            assert(self@.delayed =~= old(self)@.delayed);
        }
    }

    fn delay_one_way(&mut self, from: IdentityId, to: IdentityId)
        requires
            old(self).wf(),
        ensures
            final(self).wf(),
            final(self)@ == (NetworkView {
                delayed: old(self)@.delayed.insert((from, to)),
                ..old(self)@
            }),
    {
        let mut links: SortedSet<IdentityId> = match self.delayed.remove(&from) {
            Some(l) => l,
            None => SortedSet::new(),
        };
        let ghost was = links@;
        links.insert(to);
        self.delayed.insert(from, links);
        assert(self@.delayed =~= old(self)@.delayed.insert((from, to)));
    }

    fn restore_one_way(&mut self, from: IdentityId, to: IdentityId)
        requires
            old(self).wf(),
        ensures
            final(self).wf(),
            final(self)@ == (NetworkView {
                delayed: old(self)@.delayed.remove((from, to)),
                ..old(self)@
            }),
    {
        if let Some(links) = self.delayed.remove(&from) {
            let mut links = links;
            let _ = links.remove(&to);
            self.delayed.insert(from, links);
        }
        assert(self@.delayed =~= old(self)@.delayed.remove((from, to)));
    }

    /// Holds the traffic between two nodes, both ways.
    pub fn delay_link(&mut self, a: IdentityId, b: IdentityId)
        requires
            old(self).wf(),
        ensures
            final(self).wf(),
            final(self)@ == (NetworkView {
                delayed: old(self)@.delayed.insert((a, b)).insert((b, a)),
                ..old(self)@
            }),
    {
        self.delay_one_way(a, b);
        self.delay_one_way(b, a);
    }

    /// Lets the traffic between two nodes through again. What is held stays held.
    pub fn restore_link(&mut self, a: IdentityId, b: IdentityId)
        requires
            old(self).wf(),
        ensures
            final(self).wf(),
            final(self)@ == (NetworkView {
                delayed: old(self)@.delayed.remove((a, b)).remove((b, a)),
                ..old(self)@
            }),
    {
        self.restore_one_way(a, b);
        self.restore_one_way(b, a);
    }

    /// Whether a link is delayed.
    pub fn is_delayed(&self, from: IdentityId, to: IdentityId) -> (r: bool)
        requires
            self.wf(),
        ensures
            r == self@.delayed.contains((from, to)),
    {
        match self.delayed.get(&from) {
            Some(links) => links.contains(&to),
            None => false,
        }
    }

    pub fn subscribe_channel(&mut self, id: &IdentityId, channel: ChannelId)
        requires
            old(self).wf(),
        ensures
            final(self).wf(),
            final(self)@ == (NetworkView {
                endpoints: if old(self)@.endpoints.contains_key(*id) {
                    old(self)@.endpoints.insert(*id, old(self)@.endpoints[*id].insert(channel))
                } else {
                    old(self)@.endpoints
                },
                ..old(self)@
            }),
    {
        if let Some(subscriptions) = self.endpoints.get_mut(id) {
            subscriptions.insert(channel);
        }
        proof {
            assert(self@.delayed =~= old(self)@.delayed);
            if old(self).endpoints@.contains_key(*id) {
                assert(self@.endpoints =~= old(self)@.endpoints.insert(
                    *id,
                    old(self)@.endpoints[*id].insert(channel),
                ));
            }
        }
    }

    pub fn unsubscribe_channel(&mut self, id: &IdentityId, channel: ChannelId)
        requires
            old(self).wf(),
        ensures
            final(self).wf(),
            final(self)@ == (NetworkView {
                endpoints: if old(self)@.endpoints.contains_key(*id) {
                    old(self)@.endpoints.insert(*id, old(self)@.endpoints[*id].remove(channel))
                } else {
                    old(self)@.endpoints
                },
                ..old(self)@
            }),
    {
        if let Some(subscriptions) = self.endpoints.get_mut(id) {
            let _ = subscriptions.remove(&channel);
        }
        proof {
            assert(self@.delayed =~= old(self)@.delayed);
            if old(self).endpoints@.contains_key(*id) {
                assert(self@.endpoints =~= old(self)@.endpoints.insert(
                    *id,
                    old(self)@.endpoints[*id].remove(channel),
                ));
            }
        }
    }

    fn listeners(&self, from: IdentityId, channel: ChannelId) -> (r: Vec<IdentityId>)
        requires
            self.wf(),
        ensures
            r@ == audience(self@, from, channel),
    {
        let ghost listens = hears(self@, from, channel);
        let ghost walk = self.endpoints.walk();
        let n: usize = self.endpoints.len();
        let mut r: Vec<IdentityId> = Vec::new();
        let mut i: usize = 0;
        proof {
            self.endpoints.lemma_walk();
            lemma_in_order(self.endpoints@.dom(), walk);
            assert(self@.endpoints.dom() =~= self.endpoints@.dom());
            reveal(Seq::filter);
            assert(walk.take(0).filter(listens) =~= Seq::<IdentityId>::empty());
        }
        while i < n
            invariant
                i <= n == walk.len(),
                walk == self.endpoints.walk(),
                self.wf(),
                listens == hears(self@, from, channel),
                r@ == walk.take(i as int).filter(listens),
            decreases n - i,
        {
            let p: IdentityId = self.endpoints.key_at(i);
            proof {
                reveal(Seq::filter);
                assert(walk.take(i + 1).drop_last() =~= walk.take(i as int));
                assert(walk.take(i + 1).last() == p);
            }
            let subscriptions = self.endpoints.value_at(i);
            assert(self@.endpoints[p] == subscriptions@);
            if !p.same(&from) && subscriptions.contains(&channel) {
                r.push(p);
            }
            i = i + 1;
        }
        assert(walk.take(i as int) =~= walk);
        r
    }

    /// Publishes a signal: what is delivered at once comes back, the rest is
    /// held.
    pub fn publish_from(&mut self, from: IdentityId, channel: ChannelId, signal: &ChannelSignal) -> (r: Vec<
        Held,
    >)
        requires
            old(self).wf(),
        ensures
            final(self).wf(),
            held_views(r@) == published(old(self)@, from, channel, signal@),
            final(self)@ == after_publication(old(self)@, from, channel, signal@),
    {
        let to: Vec<IdentityId> = self.listeners(from, channel);
        let ghost v = self@;
        let ghost now = link_is(v, from, false);
        let ghost later = link_is(v, from, true);
        let mut r: Vec<Held> = Vec::new();
        let mut i: usize = 0;
        proof {
            reveal(Seq::filter);
            assert(to@.take(0).filter(now) =~= Seq::<IdentityId>::empty());
            assert(to@.take(0).filter(later) =~= Seq::<IdentityId>::empty());
            assert(held_views(r@) =~= in_flight(to@.take(0).filter(now), channel, signal@));
            assert(v.held =~= v.held + in_flight(to@.take(0).filter(later), channel, signal@));
        }
        while i < to.len()
            invariant
                i <= to@.len(),
                self.wf(),
                now == link_is(v, from, false),
                later == link_is(v, from, true),
                self@.endpoints == v.endpoints,
                self@.delayed == v.delayed,
                held_views(r@) == in_flight(to@.take(i as int).filter(now), channel, signal@),
                self@.held == v.held + in_flight(
                    to@.take(i as int).filter(later),
                    channel,
                    signal@,
                ),
            decreases to@.len() - i,
        {
            let p: IdentityId = to[i];
            let ghost a = to@.take(i as int).filter(now);
            let ghost b = to@.take(i as int).filter(later);
            let ghost was = self@;
            let ghost gone = held_views(r@);
            proof {
                reveal(Seq::filter);
                assert(to@.take(i + 1).drop_last() =~= to@.take(i as int));
                assert(to@.take(i + 1).last() == p);
            }
            let item = Held::Channel { to: p, channel, signal: signal.copied() };
            if self.is_delayed(from, p) {
                self.held.push_back(item);
                proof {
                    assert(self@.held =~= was.held.push(item@));
                    assert(in_flight(b.push(p), channel, signal@) =~= in_flight(
                        b,
                        channel,
                        signal@,
                    ).push(item@));
                    assert(self@.held =~= v.held + in_flight(b.push(p), channel, signal@));
                }
            } else {
                r.push(item);
                proof {
                    assert(held_views(r@) =~= gone.push(item@));
                    assert(in_flight(a.push(p), channel, signal@) =~= in_flight(
                        a,
                        channel,
                        signal@,
                    ).push(item@));
                }
            }
            i = i + 1;
        }
        assert(to@.take(i as int) =~= to@);
        r
    }

    /// Sends a direct message: delivered at once, held, or refused for want of
    /// the addressee.
    pub fn dm_from(&mut self, from: IdentityId, to: IdentityId, message: WireMessage) -> (r: Result<
        Option<Held>,
        TransportError,
    >)
        requires
            old(self).wf(),
        ensures
            final(self).wf(),
            if old(self)@.delayed.contains((from, to)) {
                &&& r == Ok::<Option<Held>, TransportError>(None)
                &&& final(self)@ == (NetworkView {
                    held: old(self)@.held.push(HeldView::Dm { to, from, message: message@ }),
                    ..old(self)@
                })
            } else {
                &&& final(self)@ == old(self)@
                &&& match r {
                    Ok(Some(item)) => old(self)@.endpoints.contains_key(to) && item@ == (
                    HeldView::Dm { to, from, message: message@ }),
                    Ok(None) => false,
                    Err(e) => !old(self)@.endpoints.contains_key(to)
                        && e == TransportError::Unreachable,
                }
            },
    {
        if self.is_delayed(from, to) {
            let item = Held::Dm { to, from, message };
            self.held.push_back(item);
            assert(self@.held =~= old(self)@.held.push(item@));
            return Ok(None);
        }
        assert(self@.endpoints.dom() =~= self.endpoints@.dom());
        if self.endpoints.contains_key(&to) {
            Ok(Some(Held::Dm { to, from, message }))
        } else {
            Err(TransportError::Unreachable)
        }
    }

    /// Lets go of everything held, in the order it was sent. What is addressed
    /// to nobody on the bus is lost.
    pub fn flush_held(&mut self) -> (r: Vec<Held>)
        requires
            old(self).wf(),
        ensures
            final(self).wf(),
            final(self)@ == (NetworkView { held: Seq::empty(), ..old(self)@ }),
            held_views(r@) == old(self)@.held.filter(
                |h: HeldView| old(self)@.endpoints.contains_key(h.addressee()),
            ),
    {
        let ghost v = self@;
        let ghost there = |h: HeldView| v.endpoints.contains_key(h.addressee());
        let ghost taken: int = 0;
        let mut r: Vec<Held> = Vec::new();
        proof {
            reveal(Seq::filter);
            assert(v.held.take(0).filter(there) =~= Seq::<HeldView>::empty());
            assert(held_views(r@) =~= v.held.take(0).filter(there));
            assert(v.held.skip(0) =~= v.held);
            assert(self@.endpoints.dom() =~= self.endpoints@.dom());
        }
        while self.held.len() > 0
            invariant
                0 <= taken <= v.held.len(),
                self.wf(),
                there == (|h: HeldView| v.endpoints.contains_key(h.addressee())),
                self@.endpoints == v.endpoints,
                self@.endpoints.dom() == self.endpoints@.dom(),
                self@.delayed == v.delayed,
                self@.held == v.held.skip(taken),
                held_views(r@) == v.held.take(taken).filter(there),
            decreases self.held@.len(),
        {
            let ghost was = self@;
            let ghost gone = held_views(r@);
            assert(was.held.len() == self.held@.len());
            if let Some(item) = self.held.pop_front() {
                proof {
                    reveal(Seq::filter);
                    assert(item@ == was.held[0]);
                    assert(v.held.skip(taken)[0] == v.held[taken]);
                    assert(self@.held =~= was.held.drop_first());
                    assert(self@.held =~= v.held.skip(taken + 1));
                    assert(v.held.take(taken + 1).drop_last() =~= v.held.take(taken));
                    assert(v.held.take(taken + 1).last() == item@);
                    taken = taken + 1;
                }
                if self.endpoints.contains_key(&item.addressee()) {
                    r.push(item);
                    assert(held_views(r@) =~= gone.push(item@));
                }
            }
        }
        proof {
            assert(self@.held.len() == 0);
            assert(v.held.take(taken) =~= v.held);
            assert(self@.held =~= Seq::<HeldView>::empty());
        }
        r
    }
}

/// A publication is delivered at once over the links that are not delayed, and held for the
/// others; what was held already stays in front.
pub proof fn law_only_delayed_links_hold_back(
    v: NetworkView,
    from: IdentityId,
    channel: ChannelId,
    signal: ChannelSignalView,
    p: IdentityId,
)
    requires
        v.endpoints.dom().finite(),
    ensures
        published(v, from, channel, signal).contains(HeldView::Channel { to: p, channel, signal })
            <==> p != from && v.endpoints.contains_key(p) && v.endpoints[p].contains(channel)
            && !v.delayed.contains((from, p)),
        v.held.is_prefix_of(after_publication(v, from, channel, signal).held),
        after_publication(v, from, channel, signal).endpoints == v.endpoints,
        after_publication(v, from, channel, signal).delayed == v.delayed,
{
    let now = reached(v, from, audience(v, from, channel), false);
    let walk = in_order(v.endpoints.dom());
    let w = crate::sorted::lemma_walk_exists(v.endpoints.dom());
    lemma_in_order(v.endpoints.dom(), w);
    assert(walk.contains(p) <==> v.endpoints.contains_key(p)) by {
        assert(walk.to_set().contains(p) <==> walk.contains(p));
    }
    lemma_filter_keeps(walk, hears(v, from, channel), p);
    lemma_filter_keeps(audience(v, from, channel), link_is(v, from, false), p);
    lemma_in_flight_contains(now, channel, signal, p);
    assert(after_publication(v, from, channel, signal).held.subrange(0, v.held.len() as int)
        =~= v.held);
}

} // verus!

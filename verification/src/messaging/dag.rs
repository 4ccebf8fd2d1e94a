//! The Lamport-stamped hash DAG that gives every node the same view of
//! history without a server (protocol codename: `negi`).
//!
//! Each message links its parents (the DAG heads its author saw). Display
//! order is a topological sort tie-broken by `(lamport, author, id)`, which
//! is deterministic for any arrival order of the same message set.

use vstd::prelude::*;

use crate::order::Key;
use crate::sorted::{
    ascending, in_order, lemma_in_order, lemma_walk_exists, SortedMap, SortedSet,
};

use super::message::{display_key, DisplayKey, Message, MessageId, MessageView};

verus! {

/// Outcome of inserting a message into the DAG.
#[derive(Debug, Clone, PartialEq, Eq)]
pub enum DagInsert {
    /// Message applied; any pending descendants unblocked by it were applied
    /// too (their ids are included).
    Applied { unblocked: Vec<MessageId> },
    /// Message is buffered until the listed parents arrive (history gap).
    Pending { missing: Vec<MessageId> },
    /// Already known (applied or pending): gossip duplicates are normal.
    Duplicate,
}

// ---- What a set of known messages determines ----

/// `id` is known, and so is everything it builds on, down to messages without
/// parents, in at most `n` generations.
pub open spec fn settled_by(known: Map<MessageId, MessageView>, id: MessageId, n: nat) -> bool
    decreases n,
{
    &&& n > 0
    &&& known.contains_key(id)
    &&& forall|i: int|
        0 <= i < known[id].parents.len() ==> settled_by(
            known,
            #[trigger] known[id].parents[i],
            (n - 1) as nat,
        )
}

/// `id` is known together with its whole ancestry.
pub open spec fn settled(known: Map<MessageId, MessageView>, id: MessageId) -> bool {
    exists|n: nat| settled_by(known, id, n)
}

/// The messages that may be shown: those without a gap below them.
pub open spec fn history_of(known: Map<MessageId, MessageView>) -> Map<MessageId, MessageView> {
    Map::new(|id: MessageId| settled(known, id), |id: MessageId| known[id])
}

/// Some message of `history` names `id` as a parent.
pub open spec fn linked(history: Map<MessageId, MessageView>, id: MessageId) -> bool {
    exists|child: MessageId|
        history.contains_key(child) && (#[trigger] history[child]).parents.contains(id)
}

/// The messages that no other message of `history` builds on.
pub open spec fn heads_of(history: Map<MessageId, MessageView>) -> Set<MessageId> {
    Set::new(|id: MessageId| history.contains_key(id) && !linked(history, id))
}

/// `m` is the highest Lamport counter in `history`, or zero where there is
/// none.
pub open spec fn is_max_lamport(history: Map<MessageId, MessageView>, m: u64) -> bool {
    &&& forall|id: MessageId| history.contains_key(id) ==> (#[trigger] history[id]).lamport <= m
    &&& m == 0 || exists|id: MessageId|
        history.contains_key(id) && (#[trigger] history[id]).lamport == m
}

/// `child` is known, waits, and names `id` as a parent.
pub open spec fn waits_on(
    known: Map<MessageId, MessageView>,
    child: MessageId,
    id: MessageId,
) -> bool {
    known.contains_key(child) && !settled(known, child) && known[child].parents.contains(id)
}

/// The parents that waiting messages name and that were never heard.
pub open spec fn gaps_of(known: Map<MessageId, MessageView>) -> Set<MessageId> {
    Set::new(
        |id: MessageId|
            !known.contains_key(id) && exists|child: MessageId| #[trigger]
                waits_on(known, child, id),
    )
}

/// What is in a list once `x` is put at its end.
proof fn lemma_push_contains(s: Seq<MessageId>, x: MessageId)
    ensures
        forall|y: MessageId| #[trigger] s.push(x).contains(y) <==> s.contains(y) || y == x,
{
    assert forall|y: MessageId| #[trigger] s.push(x).contains(y) <==> s.contains(y) || y == x by {
        if s.contains(y) {
            let j = choose|j: int| 0 <= j < s.len() && s[j] == y;
            assert(s.push(x)[j] == y);
        }
        assert(s.push(x)[s.len() as int] == x);
        if s.push(x).contains(y) && y != x {
            let j = choose|j: int| 0 <= j < s.push(x).len() && s.push(x)[j] == y;
            assert(s[j] == y);
        }
    }
}

/// What is known after hearing `m`: the first message under an id stays.
pub open spec fn learn(
    known: Map<MessageId, MessageView>,
    m: MessageView,
) -> Map<MessageId, MessageView> {
    if known.contains_key(m.id) {
        known
    } else {
        known.insert(m.id, m)
    }
}

/// What is known after hearing `messages` one after the other.
pub open spec fn learn_all(messages: Seq<MessageView>) -> Map<MessageId, MessageView>
    decreases messages.len(),
{
    if messages.len() == 0 {
        Map::empty()
    } else {
        learn(learn_all(messages.drop_last()), messages.last())
    }
}

/// `id` may be shown next, once `shown` has been.
pub open spec fn can_follow(
    history: Map<MessageId, MessageView>,
    shown: Set<MessageId>,
    id: MessageId,
) -> bool {
    &&& history.contains_key(id)
    &&& !shown.contains(id)
    &&& forall|i: int|
        0 <= i < history[id].parents.len() ==> shown.contains(#[trigger] history[id].parents[i])
}

/// `id` may be shown next, and nothing else that may be shown next sorts
/// before it.
pub open spec fn follows_first(
    history: Map<MessageId, MessageView>,
    shown: Set<MessageId>,
    id: MessageId,
) -> bool {
    &&& can_follow(history, shown, id)
    &&& forall|other: MessageId| #[trigger]
        can_follow(history, shown, other) ==> !display_key(history[other]).before(
            display_key(history[id]),
        )
}

/// `order` shows each message of `history` once, never before its parents,
/// and among those that could come next always the one with the least
/// `(lamport, author, id)`.
pub open spec fn is_display_order(
    history: Map<MessageId, MessageView>,
    order: Seq<MessageId>,
) -> bool {
    &&& forall|i: int|
        0 <= i < order.len() ==> follows_first(history, order.take(i).to_set(), #[trigger] order[i])
    &&& forall|id: MessageId| #[trigger] history.contains_key(id) ==> order.contains(id)
}

/// The one order in which a history is shown.
pub open spec fn display_order(history: Map<MessageId, MessageView>) -> Seq<MessageId> {
    choose|order: Seq<MessageId>| is_display_order(history, order)
}

/// The parents of `m` that are not in `applied`, in the order in which `m`
/// names them.
pub open spec fn missing_from(parents: Seq<MessageId>, applied: Set<MessageId>) -> Seq<MessageId> {
    parents.filter(|p: MessageId| !applied.contains(p))
}

/// Everything known that names `id` as a parent and is not applied.
pub open spec fn held_back_by(
    known: Map<MessageId, MessageView>,
    applied: Set<MessageId>,
    id: MessageId,
) -> Set<MessageId> {
    Set::new(
        |child: MessageId|
            known.contains_key(child) && !applied.contains(child) && known[child].parents.contains(
                id,
            ),
    )
}

/// All parents of `id` are applied, and `id` itself is not.
pub open spec fn is_ready(
    known: Map<MessageId, MessageView>,
    applied: Set<MessageId>,
    id: MessageId,
) -> bool {
    &&& known.contains_key(id)
    &&& !applied.contains(id)
    &&& forall|i: int|
        0 <= i < known[id].parents.len() ==> applied.contains(#[trigger] known[id].parents[i])
}

/// Going through `candidates` once, applying each that is ready when its turn
/// comes: the ones applied, in order.
pub open spec fn one_pass(
    known: Map<MessageId, MessageView>,
    applied: Set<MessageId>,
    candidates: Seq<MessageId>,
) -> Seq<MessageId>
    decreases candidates.len(),
{
    if candidates.len() == 0 {
        seq![]
    } else if is_ready(known, applied, candidates[0]) {
        seq![candidates[0]] + one_pass(
            known,
            applied.insert(candidates[0]),
            candidates.drop_first(),
        )
    } else {
        one_pass(known, applied, candidates.drop_first())
    }
}

/// The ids applied in the wake of those on `stack`, in order of application.
/// The arrival on top of the stack is taken off; what it held back is gone
/// through in id order, and whatever gets applied goes on the stack in turn.
pub open spec fn cascade(
    known: Map<MessageId, MessageView>,
    applied: Set<MessageId>,
    stack: Seq<MessageId>,
) -> Seq<MessageId>
    decreases known.dom().difference(applied).len(), stack.len(),
    when known.dom().finite()
{
    if stack.len() == 0 {
        seq![]
    } else {
        let pass = one_pass(known, applied, in_order(held_back_by(known, applied, stack.last())));
        proof {
            lemma_one_pass_new(
                known,
                applied,
                in_order(held_back_by(known, applied, stack.last())),
            );
            lemma_pass_shrinks(known, applied, pass);
        }
        pass + cascade(known, applied.union(pass.to_set()), stack.drop_last() + pass)
    }
}

pub proof fn lemma_one_pass_new(
    known: Map<MessageId, MessageView>,
    applied: Set<MessageId>,
    candidates: Seq<MessageId>,
)
    ensures
        forall|i: int|
            0 <= i < one_pass(known, applied, candidates).len() ==> known.contains_key(
                #[trigger] one_pass(known, applied, candidates)[i],
            ) && !applied.contains(one_pass(known, applied, candidates)[i]),
        one_pass(known, applied, candidates).no_duplicates(),
        forall|i: int|
            0 <= i < one_pass(known, applied, candidates).len() ==> candidates.contains(
                #[trigger] one_pass(known, applied, candidates)[i],
            ),
    decreases candidates.len(),
{
    if candidates.len() > 0 {
        let w = candidates[0];
        let rest = candidates.drop_first();
        let pass = one_pass(known, applied, candidates);
        if is_ready(known, applied, w) {
            lemma_one_pass_new(known, applied.insert(w), rest);
            let tail = one_pass(known, applied.insert(w), rest);
            assert(pass == seq![w] + tail);
            assert forall|i: int| 0 <= i < pass.len() implies candidates.contains(#[trigger] pass[i]) by {
                if i == 0 {
                    assert(candidates[0] == w);
                } else {
                    assert(pass[i] == tail[i - 1]);
                    let j = choose|j: int| 0 <= j < rest.len() && rest[j] == tail[i - 1];
                    assert(candidates[j + 1] == tail[i - 1]);
                }
            }
            assert forall|i: int| 0 <= i < pass.len() implies known.contains_key(#[trigger] pass[i])
                && !applied.contains(pass[i]) by {
                if i > 0 {
                    assert(pass[i] == tail[i - 1]);
                }
            }
            assert forall|i: int, j: int| 0 <= i < pass.len() && 0 <= j < pass.len() && i != j implies pass[i]
                != pass[j] by {
                if i > 0 {
                    assert(pass[i] == tail[i - 1]);
                }
                if j > 0 {
                    assert(pass[j] == tail[j - 1]);
                }
            }
        } else {
            lemma_one_pass_new(known, applied, rest);
            assert forall|i: int| 0 <= i < pass.len() implies candidates.contains(#[trigger] pass[i]) by {
                let j = choose|j: int| 0 <= j < rest.len() && rest[j] == pass[i];
                assert(candidates[j + 1] == pass[i]);
            }
        }
    }
}

pub proof fn lemma_pass_shrinks(
    known: Map<MessageId, MessageView>,
    applied: Set<MessageId>,
    pass: Seq<MessageId>,
)
    requires
        known.dom().finite(),
        forall|i: int|
            0 <= i < pass.len() ==> known.contains_key(#[trigger] pass[i]) && !applied.contains(
                pass[i],
            ),
    ensures
        pass.len() == 0 ==> applied.union(pass.to_set()) == applied,
        pass.len() > 0 ==> known.dom().difference(applied.union(pass.to_set())).len()
            < known.dom().difference(applied).len(),
{
    let before = known.dom().difference(applied);
    let after = known.dom().difference(applied.union(pass.to_set()));
    if pass.len() == 0 {
        assert(applied.union(pass.to_set()) =~= applied);
    } else {
        assert(before.finite());
        assert(after.subset_of(before));
        assert(before.contains(pass[0]));
        assert(pass.to_set().contains(pass[0]));
        assert(!after.contains(pass[0]));
        vstd::set_lib::lemma_len_subset(after, before.remove(pass[0]));
    }
}

// ---- Facts about settled messages ----

proof fn lemma_settled_by_grows(known: Map<MessageId, MessageView>, id: MessageId, m: nat, n: nat)
    requires
        settled_by(known, id, m),
        m <= n,
    ensures
        settled_by(known, id, n),
    decreases m,
{
    assert forall|i: int| 0 <= i < known[id].parents.len() implies settled_by(
        known,
        #[trigger] known[id].parents[i],
        (n - 1) as nat,
    ) by {
        lemma_settled_by_grows(known, known[id].parents[i], (m - 1) as nat, (n - 1) as nat);
    }
}

/// One bound serves for all of finitely many settled messages.
proof fn lemma_settled_bound(known: Map<MessageId, MessageView>, ids: Seq<MessageId>) -> (n: nat)
    requires
        forall|i: int| 0 <= i < ids.len() ==> settled(known, #[trigger] ids[i]),
    ensures
        forall|i: int| 0 <= i < ids.len() ==> settled_by(known, #[trigger] ids[i], n),
    decreases ids.len(),
{
    if ids.len() == 0 {
        0
    } else {
        let init = ids.drop_last();
        assert forall|i: int| 0 <= i < init.len() implies settled(known, #[trigger] init[i]) by {
            assert(init[i] == ids[i]);
        }
        let a = lemma_settled_bound(known, init);
        assert(settled(known, ids[ids.len() - 1]));
        let b = choose|n: nat| settled_by(known, ids.last(), n);
        let n = if a < b { b } else { a };
        assert forall|i: int| 0 <= i < ids.len() implies settled_by(known, #[trigger] ids[i], n) by {
            if i < init.len() {
                assert(init[i] == ids[i]);
                lemma_settled_by_grows(known, init[i], a, n);
            } else {
                lemma_settled_by_grows(known, ids[i], b, n);
            }
        }
        n
    }
}

/// A known message whose parents are all settled is settled.
pub proof fn lemma_settles(known: Map<MessageId, MessageView>, id: MessageId)
    requires
        known.contains_key(id),
        forall|i: int| 0 <= i < known[id].parents.len() ==> settled(known, #[trigger] known[id].parents[i]),
    ensures
        settled(known, id),
{
    let n = lemma_settled_bound(known, known[id].parents);
    assert(settled_by(known, id, (n + 1) as nat));
}

/// The parents of a settled message are settled.
pub proof fn lemma_settled_parents(known: Map<MessageId, MessageView>, id: MessageId)
    requires
        settled(known, id),
    ensures
        known.contains_key(id),
        forall|i: int| 0 <= i < known[id].parents.len() ==> settled(known, #[trigger] known[id].parents[i]),
        forall|p: MessageId| #[trigger] known[id].parents.contains(p) ==> settled(known, p),
{
    let n = choose|n: nat| settled_by(known, id, n);
    assert forall|i: int| 0 <= i < known[id].parents.len() implies settled(known, #[trigger] known[id].parents[i]) by {
        assert(settled_by(known, known[id].parents[i], (n - 1) as nat));
    }
    assert forall|p: MessageId| #[trigger] known[id].parents.contains(p) implies settled(known, p) by {
        let i = choose|i: int| 0 <= i < known[id].parents.len() && known[id].parents[i] == p;
        assert(settled(known, known[id].parents[i]));
    }
}

proof fn lemma_settled_by_more(
    known: Map<MessageId, MessageView>,
    more: Map<MessageId, MessageView>,
    id: MessageId,
    n: nat,
)
    requires
        settled_by(known, id, n),
        known.submap_of(more),
    ensures
        settled_by(more, id, n),
    decreases n,
{
    assert(known.dom().contains(id) && more.dom().contains(id));
    assert forall|i: int| 0 <= i < more[id].parents.len() implies settled_by(
        more,
        #[trigger] more[id].parents[i],
        (n - 1) as nat,
    ) by {
        assert(settled_by(known, known[id].parents[i], (n - 1) as nat));
        lemma_settled_by_more(known, more, known[id].parents[i], (n - 1) as nat);
    }
}

/// What is settled stays settled as more is learned.
pub proof fn lemma_settled_stays(
    known: Map<MessageId, MessageView>,
    more: Map<MessageId, MessageView>,
    id: MessageId,
)
    requires
        settled(known, id),
        known.submap_of(more),
    ensures
        settled(more, id),
{
    let n = choose|n: nat| settled_by(known, id, n);
    lemma_settled_by_more(known, more, id, n);
}

/// A set that holds every known message whose parents it holds, holds every
/// settled message.
proof fn lemma_closed_holds_settled(
    known: Map<MessageId, MessageView>,
    closed_set: Set<MessageId>,
    id: MessageId,
    n: nat,
)
    requires
        forall|x: MessageId| !#[trigger] is_ready(known, closed_set, x),
        settled_by(known, id, n),
    ensures
        closed_set.contains(id),
    decreases n,
{
    assert forall|i: int| 0 <= i < known[id].parents.len() implies closed_set.contains(#[trigger] known[id].parents[i]) by {
        lemma_closed_holds_settled(known, closed_set, known[id].parents[i], (n - 1) as nat);
    }
    assert(!is_ready(known, closed_set, id));
}

/// Candidates that are applied already make no difference to a pass.
proof fn lemma_one_pass_skips(
    known: Map<MessageId, MessageView>,
    applied: Set<MessageId>,
    all: Seq<MessageId>,
    some: Seq<MessageId>,
)
    requires
        ascending(all),
        ascending(some),
        forall|k: MessageId| #[trigger] some.contains(k) ==> all.contains(k),
        forall|k: MessageId| #[trigger] all.contains(k) ==> some.contains(k) || applied.contains(k),
    ensures
        one_pass(known, applied, all) == one_pass(known, applied, some),
    decreases all.len(),
{
    if all.len() == 0 {
        if some.len() > 0 {
            assert(some.contains(some[0]));
        }
    } else {
        let w = all[0];
        let rest = all.drop_first();
        assert(all.contains(w));
        assert(ascending(rest)) by {
            assert forall|i: int, j: int| 0 <= i < j < rest.len() implies (#[trigger] rest[i]).before(
                #[trigger] rest[j],
            ) by {
                assert(all[i + 1].before(all[j + 1]));
            }
        }
        assert forall|k: MessageId| #[trigger] rest.contains(k) implies all.contains(k) && k != w by {
            let i = choose|i: int| 0 <= i < rest.len() && rest[i] == k;
            assert(all[i + 1] == k);
            assert(all[0].before(all[i + 1]));
            MessageId::lemma_irreflexive(w);
        }
        if some.contains(w) {
            // `w` is the least of `all`, hence of `some`.
            let j = choose|j: int| 0 <= j < some.len() && some[j] == w;
            if j > 0 {
                assert(some[0].before(some[j]));
                assert(some.contains(some[0]));
                let i = choose|i: int| 0 <= i < all.len() && all[i] == some[0];
                MessageId::lemma_irreflexive(w);
                if i > 0 {
                    assert(all[0].before(all[i]));
                    MessageId::lemma_transitive(w, some[0], w);
                }
            }
            let srest = some.drop_first();
            assert(ascending(srest)) by {
                assert forall|i: int, j: int| 0 <= i < j < srest.len() implies (#[trigger] srest[i]).before(
                    #[trigger] srest[j],
                ) by {
                    assert(some[i + 1].before(some[j + 1]));
                }
            }
            assert forall|k: MessageId| #[trigger] srest.contains(k) implies rest.contains(k) by {
                let i = choose|i: int| 0 <= i < srest.len() && srest[i] == k;
                assert(some[i + 1] == k);
                assert(some[0].before(some[i + 1]));
                MessageId::lemma_irreflexive(w);
                assert(some.contains(k));
                let m = choose|m: int| 0 <= m < all.len() && all[m] == k;
                assert(m != 0);
                assert(rest[m - 1] == k);
            }
            assert forall|k: MessageId| #[trigger] rest.contains(k) implies srest.contains(k)
                || applied.contains(k) by {
                assert(all.contains(k) && k != w);
                if some.contains(k) {
                    let m = choose|m: int| 0 <= m < some.len() && some[m] == k;
                    assert(m != 0);
                    assert(srest[m - 1] == k);
                }
            }
            assert(some[0] == w);
            if is_ready(known, applied, w) {
                assert forall|k: MessageId| #[trigger] rest.contains(k) implies srest.contains(k)
                    || applied.insert(w).contains(k) by {}
                lemma_one_pass_skips(known, applied.insert(w), rest, srest);
            } else {
                lemma_one_pass_skips(known, applied, rest, srest);
            }
        } else {
            assert(applied.contains(w));
            assert forall|k: MessageId| #[trigger] some.contains(k) implies rest.contains(k) by {
                let m = choose|m: int| 0 <= m < all.len() && all[m] == k;
                assert(m != 0);
                assert(rest[m - 1] == k);
            }
            lemma_one_pass_skips(known, applied, rest, some);
        }
    }
}

// ---- Display order ----

/// History has one display order.
pub proof fn lemma_display_order_unique(
    history: Map<MessageId, MessageView>,
    a: Seq<MessageId>,
    b: Seq<MessageId>,
)
    requires
        is_display_order(history, a),
        is_display_order(history, b),
        forall|id: MessageId| history.contains_key(id) ==> (#[trigger] history[id]).id == id,
    ensures
        a == b,
{
    let n = if a.len() < b.len() { a.len() } else { b.len() };
    lemma_display_order_agrees(history, a, b, n as int);
    if a.len() < b.len() {
        lemma_display_order_no_more(history, a, b);
    } else if b.len() < a.len() {
        assert(b.take(n as int) == a.take(n as int));
        lemma_display_order_no_more(history, b, a);
    }
    assert(a.take(n as int) =~= a);
    assert(b.take(n as int) =~= b);
}

proof fn lemma_display_order_agrees(
    history: Map<MessageId, MessageView>,
    a: Seq<MessageId>,
    b: Seq<MessageId>,
    n: int,
)
    requires
        is_display_order(history, a),
        is_display_order(history, b),
        forall|id: MessageId| history.contains_key(id) ==> (#[trigger] history[id]).id == id,
        0 <= n <= a.len(),
        n <= b.len(),
    ensures
        a.take(n) == b.take(n),
    decreases n,
{
    if n == 0 {
        assert(a.take(0) =~= b.take(0));
    } else {
        lemma_display_order_agrees(history, a, b, n - 1);
        let shown = a.take(n - 1).to_set();
        let x = a[n - 1];
        let y = b[n - 1];
        assert(follows_first(history, shown, x));
        assert(follows_first(history, b.take(n - 1).to_set(), y));
        assert(can_follow(history, shown, y));
        assert(can_follow(history, shown, x));
        DisplayKey::lemma_total(display_key(history[x]), display_key(history[y]));
        assert(display_key(history[x]) == display_key(history[y]));
        assert(history[x].id == x && history[y].id == y);
        assert(x == y);
        assert(a.take(n) =~= a.take(n - 1).push(x));
        assert(b.take(n) =~= b.take(n - 1).push(y));
    }
}

proof fn lemma_display_order_no_more(
    history: Map<MessageId, MessageView>,
    a: Seq<MessageId>,
    b: Seq<MessageId>,
)
    requires
        is_display_order(history, a),
        is_display_order(history, b),
        a.len() <= b.len(),
        b.take(a.len() as int) == a.take(a.len() as int),
    ensures
        a.len() == b.len(),
{
    let n = a.len() as int;
    assert(a.take(n) =~= a);
    if n < b.len() {
        assert(follows_first(history, b.take(n).to_set(), b[n]));
        assert(a.contains(b[n]));
        assert(a.to_set().contains(b[n]));
    }
}

/// `all` is `base` with the new ids of `added`, each of which came once.
spec fn joins(base: Set<MessageId>, added: Seq<MessageId>, all: Set<MessageId>) -> bool {
    &&& forall|id: MessageId| #[trigger] all.contains(id) <==> base.contains(id) || added.contains(id)
    &&& added.no_duplicates()
    &&& forall|i: int| 0 <= i < added.len() ==> !base.contains(#[trigger] added[i])
}

proof fn lemma_applied_joined(
    base: Set<MessageId>,
    mid: Set<MessageId>,
    all: Set<MessageId>,
    first: Seq<MessageId>,
    second: Seq<MessageId>,
)
    requires
        joins(base, first, mid),
        all == mid.union(second.to_set()),
        second.no_duplicates(),
        forall|i: int| 0 <= i < second.len() ==> !mid.contains(#[trigger] second[i]),
    ensures
        joins(base, first + second, all),
{
    let added = first + second;
    assert forall|id: MessageId| #[trigger] added.contains(id) <==> first.contains(id) || second.contains(id) by {
        if first.contains(id) {
            let j = choose|j: int| 0 <= j < first.len() && first[j] == id;
            assert(added[j] == id);
        }
        if second.contains(id) {
            let j = choose|j: int| 0 <= j < second.len() && second[j] == id;
            assert(added[first.len() + j] == id);
        }
        if added.contains(id) {
            let j = choose|j: int| 0 <= j < added.len() && added[j] == id;
            if j < first.len() {
                assert(first[j] == id);
            } else {
                assert(second[j - first.len()] == id);
            }
        }
    }
    assert forall|id: MessageId| #[trigger] all.contains(id) <==> base.contains(id) || added.contains(id) by {
        assert(mid.contains(id) <==> base.contains(id) || first.contains(id));
        assert(second.to_set().contains(id) <==> second.contains(id));
        assert(added.contains(id) <==> first.contains(id) || second.contains(id));
    }
    assert forall|i: int| 0 <= i < added.len() implies !base.contains(#[trigger] added[i]) by {
        if i < first.len() {
            assert(added[i] == first[i]);
        } else {
            let x = second[i - first.len()];
            assert(added[i] == x);
            assert(mid.contains(x) <==> base.contains(x) || first.contains(x));
        }
    }
    assert forall|i: int, j: int| 0 <= i < j < added.len() implies added[i] != added[j] by {
        if j < first.len() {
            assert(added[i] == first[i] && added[j] == first[j]);
        } else if i < first.len() {
            let x = second[j - first.len()];
            assert(added[j] == x && added[i] == first[i]);
            assert(first.contains(first[i]));
            assert(mid.contains(first[i]));
        } else {
            assert(added[i] == second[i - first.len()] && added[j] == second[j - first.len()]);
        }
    }
}

// ---- The DAG itself ----

/// What stored messages say.
pub open spec fn message_views(m: Map<MessageId, Message>) -> Map<MessageId, MessageView> {
    Map::new(|id: MessageId| m.contains_key(id), |id: MessageId| m[id]@)
}

/// `p` is not applied, or applied with its wake still to come.
spec fn unsettled_link(applied: Map<MessageId, Message>, queue: Seq<MessageId>, p: MessageId) -> bool {
    !applied.contains_key(p) || queue.contains(p)
}

/// Some parent of `c` is an unsettled link.
spec fn held(
    known: Map<MessageId, MessageView>,
    applied: Map<MessageId, Message>,
    queue: Seq<MessageId>,
    c: MessageId,
) -> bool {
    exists|p: MessageId| #[trigger] known[c].parents.contains(p) && unsettled_link(applied, queue, p)
}

#[derive(Debug, Clone, PartialEq, Eq)]
pub struct MessageDag {
    applied: SortedMap<MessageId, Message>,
    /// Messages waiting for missing parents.
    pending: SortedMap<MessageId, Message>,
    /// missing parent id -> pending children waiting on it.
    waiting_on: SortedMap<MessageId, SortedSet<MessageId>>,
    /// Applied messages that no applied message links to yet.
    heads: SortedSet<MessageId>,
    max_lamport: u64,
}

impl MessageDag {
    /// Every message heard so far, by id.
    pub closed spec fn known(&self) -> Map<MessageId, MessageView> {
        message_views(self.applied@).union_prefer_right(message_views(self.pending@))
    }

    /// The messages that may be shown.
    pub open spec fn history(&self) -> Map<MessageId, MessageView> {
        history_of(self.known())
    }

    spec fn awaits(&self, p: MessageId, c: MessageId) -> bool {
        self.waiting_on@.contains_key(p) && self.waiting_on@[p]@.contains(c)
    }

    /// The parts are sorted.
    spec fn parts_wf(&self) -> bool {
        &&& self.applied.wf()
        &&& self.pending.wf()
        &&& self.waiting_on.wf()
        &&& self.heads.wf()
        &&& forall|p: MessageId| #[trigger] self.waiting_on@.contains_key(p) ==> self.waiting_on@[p].wf()
    }

    /// Applied and pending messages make up `known`.
    spec fn splits(&self, known: Map<MessageId, MessageView>) -> bool {
        &&& known.dom().finite()
        &&& forall|id: MessageId| #[trigger]
            known.contains_key(id) <==> self.applied@.contains_key(id) || self.pending@.contains_key(id)
        &&& forall|id: MessageId| #[trigger]
            self.applied@.contains_key(id) ==> !self.pending@.contains_key(id) && self.applied@[id]@ == known[id]
        &&& forall|id: MessageId| #[trigger]
            self.pending@.contains_key(id) ==> self.pending@[id]@ == known[id]
        &&& forall|id: MessageId| #[trigger] known.contains_key(id) ==> known[id].id == id
    }

    /// What is applied has all of its ancestry applied.
    spec fn grounded(&self, known: Map<MessageId, MessageView>) -> bool {
        &&& forall|id: MessageId| #[trigger] self.applied@.contains_key(id) ==> settled(known, id)
        &&& forall|id: MessageId, i: int|
            self.applied@.contains_key(id) && 0 <= i < known[id].parents.len()
                ==> self.applied@.contains_key(#[trigger] known[id].parents[i])
        &&& self.heads@ == heads_of(message_views(self.applied@))
        &&& is_max_lamport(message_views(self.applied@), self.max_lamport)
    }

    /// The register of who waits for whom is exact, for links that are not
    /// applied or whose wake, in `queue`, is still to come.
    spec fn registered(&self, known: Map<MessageId, MessageView>, queue: Seq<MessageId>) -> bool {
        &&& forall|p: MessageId| #[trigger]
            self.waiting_on@.contains_key(p) ==> exists|c: MessageId| self.awaits(p, c)
        &&& forall|p: MessageId, c: MessageId| #[trigger]
            self.awaits(p, c) ==> known.contains_key(c) && known[c].parents.contains(p)
                && unsettled_link(self.applied@, queue, p)
        &&& forall|p: MessageId, c: MessageId|
            self.pending@.contains_key(c) && #[trigger] known[c].parents.contains(p) && unsettled_link(
                self.applied@,
                queue,
                p,
            ) ==> self.awaits(p, c)
        &&& queue.no_duplicates()
        &&& forall|i: int| 0 <= i < queue.len() ==> self.applied@.contains_key(#[trigger] queue[i])
    }

    /// Between two steps of a cascade: `queue` is what still has a wake,
    /// `todo` the candidates that are still to be looked at.
    #[verifier::opaque]
    spec fn steady(
        &self,
        known: Map<MessageId, MessageView>,
        queue: Seq<MessageId>,
        todo: Seq<MessageId>,
    ) -> bool {
        &&& self.parts_wf()
        &&& self.splits(known)
        &&& self.grounded(known)
        &&& self.registered(known, queue)
        &&& forall|c: MessageId| #[trigger]
            self.pending@.contains_key(c) ==> held(known, self.applied@, queue, c) || todo.contains(c)
    }

    proof fn lemma_steady_parts(
        &self,
        known: Map<MessageId, MessageView>,
        queue: Seq<MessageId>,
        todo: Seq<MessageId>,
    )
        requires
            self.steady(known, queue, todo),
        ensures
            self.parts_wf(),
            known.dom().finite(),
    {
        reveal(MessageDag::steady);
    }

    /// Nothing is applied that lacks an ancestor, nothing waits that could be
    /// applied, and heads, gaps and the clock agree with that.
    pub closed spec fn wf(&self) -> bool {
        self.steady(self.known(), seq![], seq![])
    }

    /// However long it runs, a graph knows finitely many messages.
    pub proof fn law_finitely_many_are_known(&self)
        requires
            self.wf(),
        ensures
            self.known().dom().finite(),
    {
        self.lemma_steady_parts(self.known(), seq![], seq![]);
    }

    proof fn lemma_known(&self, known: Map<MessageId, MessageView>)
        requires
            self.splits(known),
        ensures
            self.known() == known,
    {
        assert forall|id: MessageId| self.known().contains_key(id) <==> known.contains_key(id) by {}
        assert forall|id: MessageId| self.known().contains_key(id) implies self.known()[id] == known[id] by {
            if self.pending@.contains_key(id) {
            } else {
                assert(self.applied@.contains_key(id));
            }
        }
        assert(self.known() =~= known);
    }

    /// At rest, what is applied is exactly what is settled.
    proof fn lemma_at_rest(&self, known: Map<MessageId, MessageView>)
        requires
            self.steady(known, seq![], seq![]),
        ensures
            self.wf(),
            self.known() == known,
            forall|id: MessageId| #[trigger] self.applied@.contains_key(id) <==> settled(known, id),
            self.applied@.dom() == self.history().dom(),
            message_views(self.applied@) == history_of(known),
            self.parts_wf(),
            self.splits(known),
            self.grounded(known),
            self.registered(known, seq![]),
            forall|c: MessageId| #[trigger]
                self.pending@.contains_key(c) ==> held(known, self.applied@, seq![], c),
    {
        reveal(MessageDag::steady);
        self.lemma_known(known);
        let applied = self.applied@.dom();
        assert forall|x: MessageId| !#[trigger] is_ready(known, applied, x) by {
            if is_ready(known, applied, x) {
                assert(self.pending@.contains_key(x));
                assert(held(known, self.applied@, seq![], x));
                let p = choose|p: MessageId| #[trigger]
                    known[x].parents.contains(p) && unsettled_link(self.applied@, seq![], p);
                let i = choose|i: int| 0 <= i < known[x].parents.len() && known[x].parents[i] == p;
                assert(applied.contains(known[x].parents[i]));
            }
        }
        assert forall|id: MessageId| settled(known, id) implies #[trigger] self.applied@.contains_key(id) by {
            let n = choose|n: nat| settled_by(known, id, n);
            lemma_closed_holds_settled(known, applied, id, n);
        }
        assert(message_views(self.applied@) =~= history_of(known)) by {
            assert forall|id: MessageId| message_views(self.applied@).contains_key(id) <==> history_of(
                known,
            ).contains_key(id) by {
                assert(self.applied@.contains_key(id) <==> settled(known, id));
            }
            assert forall|id: MessageId| message_views(self.applied@).contains_key(id) implies message_views(
                self.applied@,
            )[id] == history_of(known)[id] by {
                assert(self.applied@.contains_key(id));
            }
        }
        assert(self.applied@.dom() =~= message_views(self.applied@).dom());
    }

    pub fn new() -> (r: MessageDag)
        ensures
            r.wf(),
            r.known() == Map::<MessageId, MessageView>::empty(),
    {
        let r = MessageDag {
            applied: SortedMap::new(),
            pending: SortedMap::new(),
            waiting_on: SortedMap::new(),
            heads: SortedSet::new(),
            max_lamport: 0,
        };
        proof {
            let known = Map::<MessageId, MessageView>::empty();
            reveal(MessageDag::steady);
            assert(r.heads@ =~= heads_of(message_views(r.applied@)));
            assert(r.steady(known, seq![], seq![]));
            r.lemma_at_rest(known);
        }
        r
    }

    pub fn len(&self) -> (n: usize)
        requires
            self.wf(),
        ensures
            n == self.history().dom().len(),
    {
        proof {
            self.lemma_at_rest(self.known());
        }
        self.applied.len()
    }

    pub fn is_empty(&self) -> (r: bool)
        requires
            self.wf(),
        ensures
            r == (self.history() == Map::<MessageId, MessageView>::empty()),
    {
        proof {
            self.lemma_at_rest(self.known());
            self.applied.lemma_walk();
        }
        let r = self.applied.len() == 0;
        proof {
            if r {
                assert(self.history().dom() =~= Set::<MessageId>::empty());
                assert(self.history() =~= Map::<MessageId, MessageView>::empty());
            } else {
                assert(self.history().dom().contains(self.applied.walk()[0])) by {
                    assert(self.applied.walk().contains(self.applied.walk()[0]));
                }
            }
        }
        r
    }

    pub fn contains(&self, id: &MessageId) -> (r: bool)
        requires
            self.wf(),
        ensures
            r == self.known().contains_key(*id),
    {
        proof {
            self.lemma_at_rest(self.known());
        }
        self.applied.contains_key(id) || self.pending.contains_key(id)
    }

    pub fn get(&self, id: &MessageId) -> (r: Option<&Message>)
        requires
            self.wf(),
        ensures
            match r {
                Some(m) => self.history().contains_key(*id) && m@ == self.history()[*id],
                None => !self.history().contains_key(*id),
            },
    {
        proof {
            self.lemma_at_rest(self.known());
        }
        self.applied.get(id)
    }

    /// Current heads: the parents a newly authored message should link.
    pub fn heads(&self) -> (r: Vec<MessageId>)
        requires
            self.wf(),
        ensures
            ascending(r@),
            r@.to_set() == heads_of(self.history()),
    {
        proof {
            self.lemma_at_rest(self.known());
            self.heads.lemma_walk();
        }
        self.heads.to_vec()
    }

    /// Highest Lamport counter observed among applied messages.
    pub fn max_lamport(&self) -> (m: u64)
        requires
            self.wf(),
        ensures
            is_max_lamport(self.history(), m),
    {
        proof {
            self.lemma_at_rest(self.known());
        }
        self.max_lamport
    }

    /// Parents referenced by buffered messages that we still don't have:
    /// what a sync request should fetch.
    pub fn missing_parents(&self) -> (r: Vec<MessageId>)
        requires
            self.wf(),
        ensures
            ascending(r@),
            r@.to_set() == gaps_of(self.known()),
    {
        let named: Vec<MessageId> = self.waiting_on.keys();
        let ghost known = self.known();
        proof {
            self.lemma_at_rest(known);
            self.waiting_on.lemma_walk();
        }
        let mut r: Vec<MessageId> = Vec::new();
        let mut i: usize = 0;
        while i < named.len()
            invariant
                i <= named@.len(),
                self.parts_wf(),
                ascending(named@),
                ascending(r@),
                forall|j: int| 0 <= j < r@.len() ==> named@.take(i as int).contains(#[trigger] r@[j]),
                forall|id: MessageId| #[trigger]
                    r@.contains(id) <==> named@.take(i as int).contains(id)
                        && !self.pending@.contains_key(id),
            decreases named@.len() - i,
        {
            let ghost (seen, was) = (named@.take(i as int), r@);
            let id: MessageId = named[i];
            let held: bool = self.pending.contains_key(&id);
            if !held {
                r.push(id);
            }
            proof {
                assert(named@.take(i + 1) =~= seen.push(id));
                lemma_push_contains(seen, id);
                lemma_push_contains(was, id);
                assert forall|j: int| 0 <= j < was.len() implies (#[trigger] was[j]).before(id) by {
                    let k = choose|k: int| 0 <= k < seen.len() && seen[k] == was[j];
                    assert(named@[k] == was[j]);
                }
            }
            i = i + 1;
        }
        proof {
            assert(named@.take(i as int) =~= named@);
            assert forall|id: MessageId| r@.to_set().contains(id) <==> gaps_of(known).contains(id) by {
                assert(self.applied@.contains_key(id) <==> settled(known, id));
                if r@.contains(id) {
                    assert(named@.to_set().contains(id));
                    assert(self.waiting_on@.contains_key(id));
                    let c = choose|c: MessageId| self.awaits(id, c);
                    assert(!self.applied@.contains_key(id));
                    if settled(known, c) {
                        lemma_settled_parents(known, c);
                        assert(settled(known, id));
                    }
                    assert(waits_on(known, c, id));
                }
                if gaps_of(known).contains(id) {
                    let c = choose|c: MessageId| #[trigger] waits_on(known, c, id);
                    assert(self.applied@.contains_key(c) <==> settled(known, c));
                    assert(self.pending@.contains_key(c));
                    assert(self.awaits(id, c));
                    assert(named@.to_set().contains(id));
                }
            }
            assert(r@.to_set() =~= gaps_of(known));
        }
        r
    }

    /// Moves `message` into the history: it becomes a head, its parents are
    /// heads no longer.
    fn apply(&mut self, message: Message)
        requires
            old(self).parts_wf(),
        ensures
            final(self).parts_wf(),
            final(self).applied@ == old(self).applied@.insert(message@.id, message),
            final(self).pending == old(self).pending,
            final(self).waiting_on == old(self).waiting_on,
            final(self).heads@ == old(self).heads@.difference(message@.parents.to_set()).insert(
                message@.id,
            ),
            final(self).max_lamport == if old(self).max_lamport < message@.lamport {
                message@.lamport
            } else {
                old(self).max_lamport
            },
    {
        let id: MessageId = message.id();
        let parents = message.parents();
        let mut i: usize = 0;
        while i < parents.len()
            invariant
                i <= parents@.len(),
                parents@ == message@.parents,
                self.parts_wf(),
                self.applied == old(self).applied,
                self.pending == old(self).pending,
                self.waiting_on == old(self).waiting_on,
                self.max_lamport == old(self).max_lamport,
                self.heads@ == old(self).heads@.difference(parents@.take(i as int).to_set()),
            decreases parents@.len() - i,
        {
            let ghost seen = parents@.take(i as int);
            self.heads.remove(&parents[i]);
            proof {
                let p = parents@[i as int];
                assert(parents@.take(i + 1) =~= seen.push(p));
                assert forall|x: MessageId| seen.push(p).to_set().contains(x) <==> seen.to_set().contains(x) || x
                    == p by {
                    if seen.contains(x) {
                        let j = choose|j: int| 0 <= j < seen.len() && seen[j] == x;
                        assert(seen.push(p)[j] == x);
                    }
                    assert(seen.push(p)[seen.len() as int] == p);
                }
                assert(self.heads@ =~= old(self).heads@.difference(seen.push(p).to_set()));
            }
            i = i + 1;
        }
        assert(parents@.take(i as int) =~= parents@);
        self.heads.insert(id);
        if self.max_lamport < message.lamport() {
            self.max_lamport = message.lamport();
        }
        self.applied.insert(id, message);
    }

    /// Notes that `child` waits for `parent`.
    fn register(&mut self, parent: MessageId, child: MessageId)
        requires
            old(self).parts_wf(),
        ensures
            final(self).parts_wf(),
            final(self).applied == old(self).applied,
            final(self).pending == old(self).pending,
            final(self).heads == old(self).heads,
            final(self).max_lamport == old(self).max_lamport,
            forall|p: MessageId, c: MessageId| #[trigger]
                final(self).awaits(p, c) <==> old(self).awaits(p, c) || (p == parent && c == child),
            forall|p: MessageId| #[trigger]
                final(self).waiting_on@.contains_key(p) <==> old(self).waiting_on@.contains_key(p) || p
                    == parent,
    {
        let mut waiters: SortedSet<MessageId> = match self.waiting_on.remove(&parent) {
            Some(w) => w,
            None => SortedSet::new(),
        };
        waiters.insert(child);
        self.waiting_on.insert(parent, waiters);
        proof {
            assert forall|p: MessageId, c: MessageId| #[trigger]
                self.awaits(p, c) <==> old(self).awaits(p, c) || (p == parent && c == child) by {
                if p != parent {
                    assert(self.waiting_on@.contains_key(p) <==> old(self).waiting_on@.contains_key(p));
                }
            }
        }
    }

    /// Applying a message whose parents are all applied keeps the history
    /// grounded.
    proof fn lemma_apply_grounded(
        before: MessageDag,
        after: MessageDag,
        known: Map<MessageId, MessageView>,
        message: Message,
    )
        requires
            before.grounded(known),
            forall|id: MessageId| #[trigger] before.applied@.contains_key(id) ==> before.applied@[id]@ == known[id],
            known.contains_key(message@.id),
            known[message@.id] == message@,
            !before.applied@.contains_key(message@.id),
            forall|i: int|
                0 <= i < message@.parents.len() ==> before.applied@.contains_key(#[trigger] message@.parents[i]),
            after.applied@ == before.applied@.insert(message@.id, message),
            after.heads@ == before.heads@.difference(message@.parents.to_set()).insert(message@.id),
            after.max_lamport == if before.max_lamport < message@.lamport {
                message@.lamport
            } else {
                before.max_lamport
            },
        ensures
            after.grounded(known),
    {
        let id = message@.id;
        assert forall|i: int| 0 <= i < known[id].parents.len() implies settled(known, #[trigger] known[id].parents[i]) by {
            assert(before.applied@.contains_key(message@.parents[i]));
        }
        lemma_settles(known, id);
        assert forall|x: MessageId, i: int| after.applied@.contains_key(x) && 0 <= i < known[x].parents.len()
            implies after.applied@.contains_key(#[trigger] known[x].parents[i]) by {
            if x == id {
                assert(before.applied@.contains_key(message@.parents[i]));
            } else {
                assert(before.applied@.contains_key(x));
            }
        }
        let h0 = message_views(before.applied@);
        let h1 = message_views(after.applied@);
        assert(h1 =~= h0.insert(id, message@));
        assert forall|x: MessageId| after.heads@.contains(x) <==> heads_of(h1).contains(x) by {
            if linked(h0, x) {
                let c = choose|c: MessageId| h0.contains_key(c) && (#[trigger] h0[c]).parents.contains(x);
                assert(h1.contains_key(c) && h1[c].parents.contains(x));
            }
            if linked(h1, x) && !linked(h0, x) {
                let c = choose|c: MessageId| h1.contains_key(c) && (#[trigger] h1[c]).parents.contains(x);
                if c != id {
                    assert(h0.contains_key(c) && h0[c].parents.contains(x));
                }
                assert(c == id);
                assert(message@.parents.contains(x));
                assert(message@.parents.to_set().contains(x));
            }
            if message@.parents.to_set().contains(x) {
                assert(message@.parents.contains(x));
                assert(h1.contains_key(id) && h1[id].parents.contains(x));
                assert(linked(h1, x));
                let i = choose|i: int| 0 <= i < message@.parents.len() && message@.parents[i] == x;
                assert(before.applied@.contains_key(message@.parents[i]));
            }
            if x == id && linked(h1, id) {
                let c = choose|c: MessageId| h1.contains_key(c) && (#[trigger] h1[c]).parents.contains(id);
                let i = choose|i: int| 0 <= i < h1[c].parents.len() && h1[c].parents[i] == id;
                if c == id {
                    assert(before.applied@.contains_key(message@.parents[i]));
                } else {
                    assert(before.applied@.contains_key(c));
                    assert(h1[c] == known[c]);
                    assert(before.applied@.contains_key(known[c].parents[i]));
                }
            }
        }
        assert(after.heads@ =~= heads_of(h1));
        assert(is_max_lamport(h1, after.max_lamport)) by {
            assert forall|x: MessageId| h1.contains_key(x) implies (#[trigger] h1[x]).lamport <= after.max_lamport by {
                if x != id {
                    assert(h0.contains_key(x));
                    assert(h0[x].lamport <= before.max_lamport);
                }
            }
            if after.max_lamport == message@.lamport {
                assert(h1.contains_key(id) && h1[id].lamport == after.max_lamport);
            } else if after.max_lamport != 0 {
                let x = choose|x: MessageId| h0.contains_key(x) && (#[trigger] h0[x]).lamport == before.max_lamport;
                assert(h1.contains_key(x) && h1[x].lamport == after.max_lamport);
            }
        }
    }

    /// Whether all of `parents` are applied.
    fn all_applied(&self, parents: &[MessageId]) -> (r: bool)
        requires
            self.applied.wf(),
        ensures
            r == forall|i: int|
                0 <= i < parents@.len() ==> self.applied@.contains_key(#[trigger] parents@[i]),
    {
        let mut i: usize = 0;
        while i < parents.len()
            invariant
                i <= parents@.len(),
                self.applied.wf(),
                forall|j: int| 0 <= j < i ==> self.applied@.contains_key(#[trigger] parents@[j]),
            decreases parents@.len() - i,
        {
            if !self.applied.contains_key(&parents[i]) {
                return false;
            }
            i = i + 1;
        }
        true
    }

    /// Looks at one candidate of a pass: applies it if it is ready.
    fn settle(&mut self, candidate: MessageId, Ghost(known): Ghost<Map<MessageId, MessageView>>, Ghost(queue): Ghost<Seq<MessageId>>, Ghost(todo): Ghost<Seq<MessageId>>) -> (applied: bool)
        requires
            old(self).steady(known, queue, todo),
            todo.len() > 0,
            todo[0] == candidate,
            todo.no_duplicates(),
        ensures
            applied == is_ready(known, old(self).applied@.dom(), candidate),
            applied ==> final(self).steady(known, queue.push(candidate), todo.drop_first()),
            applied ==> final(self).applied@.dom() == old(self).applied@.dom().insert(candidate),
            applied ==> final(self).pending@.dom() == old(self).pending@.dom().remove(candidate),
            applied ==> old(self).pending@.dom().contains(candidate),
            !applied ==> final(self).steady(known, queue, todo.drop_first()),
            !applied ==> final(self).applied == old(self).applied,
            !applied ==> final(self).pending == old(self).pending,
    {
        proof {
            reveal(MessageDag::steady);
        }
        let ready: bool = match self.pending.get(&candidate) {
            Some(m) => self.all_applied(m.parents()),
            None => false,
        };
        let ghost before = *self;
        proof {
            if before.pending@.contains_key(candidate) {
                assert(before.pending@[candidate]@ == known[candidate]);
                if before.applied@.contains_key(candidate) {
                    assert(!before.pending@.contains_key(candidate));
                }
            }
            assert(ready == is_ready(known, before.applied@.dom(), candidate));
        }
        if !ready {
            proof {
                assert forall|c: MessageId| #[trigger] self.pending@.contains_key(c) implies held(
                    known,
                    self.applied@,
                    queue,
                    c,
                ) || todo.drop_first().contains(c) by {
                    if c == candidate {
                        let i = choose|i: int| 0 <= i < known[c].parents.len() && !self.applied@.contains_key(#[trigger] known[c].parents[i]);
                        assert(known[c].parents.contains(known[c].parents[i]));
                    } else if todo.contains(c) {
                        let j = choose|j: int| 0 <= j < todo.len() && todo[j] == c;
                        assert(todo.drop_first()[j - 1] == c);
                    }
                }
            }
            return false;
        }
        match self.pending.remove(&candidate) {
            Some(message) => {
                assert(message@ == known[candidate]);
                assert(known.contains_key(candidate));
                assert(message@.id == candidate);
                self.apply(message);
                proof {
                    let after = *self;
                    MessageDag::lemma_apply_grounded(before, after, known, message);
                    assert(after.splits(known));
                    let q2 = queue.push(candidate);
                    assert forall|p: MessageId| #[trigger] queue.contains(p) implies q2.contains(p) by {
                        let i = choose|i: int| 0 <= i < queue.len() && queue[i] == p;
                        assert(q2[i] == p);
                    }
                    assert(q2.contains(candidate)) by {
                        assert(q2[queue.len() as int] == candidate);
                    }
                    assert forall|p: MessageId| #[trigger] q2.contains(p) implies queue.contains(p) || p == candidate by {
                        let i = choose|i: int| 0 <= i < q2.len() && q2[i] == p;
                        if i < queue.len() {
                            assert(queue[i] == p);
                        }
                    }
                    assert forall|i: int| 0 <= i < q2.len() implies after.applied@.contains_key(#[trigger] q2[i]) by {
                        if i < queue.len() {
                            assert(before.applied@.contains_key(queue[i]));
                        }
                    }
                    assert forall|i: int, j: int| 0 <= i < q2.len() && 0 <= j < q2.len() && i != j implies q2[i] != q2[j] by {
                        if i < queue.len() {
                            assert(before.applied@.contains_key(queue[i]));
                        }
                        if j < queue.len() {
                            assert(before.applied@.contains_key(queue[j]));
                        }
                    }
                    assert forall|p: MessageId, c: MessageId| #[trigger] after.awaits(p, c) implies known.contains_key(c)
                        && known[c].parents.contains(p) && unsettled_link(after.applied@, q2, p) by {
                        assert(before.awaits(p, c));
                    }
                    assert forall|p: MessageId, c: MessageId|
                        after.pending@.contains_key(c) && #[trigger] known[c].parents.contains(p)
                            && unsettled_link(after.applied@, q2, p) implies after.awaits(p, c) by {
                        assert(unsettled_link(before.applied@, queue, p));
                        assert(before.awaits(p, c));
                    }
                    assert forall|p: MessageId| #[trigger] after.waiting_on@.contains_key(p) implies exists|c: MessageId|
                        after.awaits(p, c) by {
                        let c = choose|c: MessageId| before.awaits(p, c);
                        assert(after.awaits(p, c));
                    }
                    assert forall|c: MessageId| #[trigger] after.pending@.contains_key(c) implies held(
                        known,
                        after.applied@,
                        q2,
                        c,
                    ) || todo.drop_first().contains(c) by {
                        assert(before.pending@.contains_key(c));
                        if held(known, before.applied@, queue, c) {
                            let p = choose|p: MessageId| #[trigger]
                                known[c].parents.contains(p) && unsettled_link(before.applied@, queue, p);
                            assert(unsettled_link(after.applied@, q2, p));
                        } else {
                            let j = choose|j: int| 0 <= j < todo.len() && todo[j] == c;
                            assert(todo.drop_first()[j - 1] == c);
                        }
                    }
                    assert(after.applied@.dom() =~= before.applied@.dom().insert(candidate));
                    assert(after.pending@.dom() =~= before.pending@.dom().remove(candidate));
                }
                true
            },
            None => {
                assert(before.pending@.contains_key(candidate));
                true
            },
        }
    }

    /// Taking the top off the queue leaves what waited for it to be looked at.
    proof fn lemma_pop(
        before: MessageDag,
        after: MessageDag,
        known: Map<MessageId, MessageView>,
        queue: Seq<MessageId>,
        candidates: Seq<MessageId>,
    )
        requires
            before.steady(known, queue, seq![]),
            queue.len() > 0,
            after.applied == before.applied,
            after.pending == before.pending,
            after.heads == before.heads,
            after.max_lamport == before.max_lamport,
            after.waiting_on.wf(),
            after.waiting_on@ == before.waiting_on@.remove(queue.last()),
            forall|c: MessageId| #[trigger] candidates.contains(c) <==> before.awaits(queue.last(), c),
            ascending(candidates),
        ensures
            after.steady(known, queue.drop_last(), candidates),
            one_pass(known, before.applied@.dom(), candidates) == one_pass(
                known,
                before.applied@.dom(),
                in_order(held_back_by(known, before.applied@.dom(), queue.last())),
            ),
    {
        reveal(MessageDag::steady);
        let top = queue.last();
        let rest = queue.drop_last();
        let applied = before.applied@.dom();
        assert forall|p: MessageId| #[trigger] rest.contains(p) <==> queue.contains(p) && p != top by {
            if rest.contains(p) {
                let i = choose|i: int| 0 <= i < rest.len() && rest[i] == p;
                assert(queue[i] == p);
            }
            if queue.contains(p) && p != top {
                let i = choose|i: int| 0 <= i < queue.len() && queue[i] == p;
                assert(rest[i] == p);
            }
        }
        assert(queue.contains(top));
        assert(before.applied@.contains_key(queue[queue.len() - 1]));
        assert forall|p: MessageId, c: MessageId| #[trigger] after.awaits(p, c) implies known.contains_key(c)
            && known[c].parents.contains(p) && unsettled_link(after.applied@, rest, p) by {
            assert(before.awaits(p, c));
        }
        assert forall|p: MessageId, c: MessageId|
            after.pending@.contains_key(c) && #[trigger] known[c].parents.contains(p) && unsettled_link(
                after.applied@,
                rest,
                p,
            ) implies after.awaits(p, c) by {
            assert(before.awaits(p, c));
        }
        assert forall|p: MessageId| #[trigger] after.waiting_on@.contains_key(p) implies exists|c: MessageId|
            after.awaits(p, c) by {
            assert(before.waiting_on@.contains_key(p));
            let c = choose|c: MessageId| before.awaits(p, c);
            assert(after.awaits(p, c));
        }
        assert forall|i: int| 0 <= i < rest.len() implies after.applied@.contains_key(#[trigger] rest[i]) by {
            assert(before.applied@.contains_key(queue[i]));
        }
        assert forall|c: MessageId| #[trigger] after.pending@.contains_key(c) implies held(
            known,
            after.applied@,
            rest,
            c,
        ) || candidates.contains(c) by {
            assert(held(known, before.applied@, queue, c));
            let p = choose|p: MessageId| #[trigger]
                known[c].parents.contains(p) && unsettled_link(before.applied@, queue, p);
            if p == top {
                assert(before.awaits(top, c));
            } else {
                assert(unsettled_link(after.applied@, rest, p));
            }
        }
        assert(after.splits(known));
        assert(after.parts_wf());
        let held_back = held_back_by(known, applied, top);
        assert(held_back.subset_of(known.dom()));
        vstd::set_lib::lemma_set_subset_finite(known.dom(), held_back);
        let walk = lemma_walk_exists(held_back);
        lemma_in_order(held_back, walk);
        assert forall|k: MessageId| #[trigger] walk.contains(k) implies candidates.contains(k) by {
            assert(walk.to_set().contains(k));
            assert(before.pending@.contains_key(k));
            assert(known[k].parents.contains(top));
            assert(before.awaits(top, k));
        }
        assert forall|k: MessageId| #[trigger] candidates.contains(k) implies walk.contains(k) || applied.contains(k) by {
            assert(before.awaits(top, k));
            if !applied.contains(k) {
                assert(held_back.contains(k));
                assert(walk.to_set().contains(k));
            }
        }
        lemma_one_pass_skips(known, applied, candidates, walk);
    }

    /// After `arrived` was applied, cascade-apply pending messages whose
    /// parents are now all present. Returns applied ids in application order.
    fn drain_unblocked(&mut self, arrived: MessageId, Ghost(known): Ghost<Map<MessageId, MessageView>>) -> (r: Vec<MessageId>)
        requires
            old(self).steady(known, seq![arrived], seq![]),
        ensures
            final(self).steady(known, seq![], seq![]),
            r@ == cascade(known, old(self).applied@.dom(), seq![arrived]),
            forall|id: MessageId| #[trigger]
                final(self).applied@.contains_key(id) <==> old(self).applied@.contains_key(id) || r@.contains(id),
            r@.no_duplicates(),
            forall|i: int| 0 <= i < r@.len() ==> !old(self).applied@.contains_key(#[trigger] r@[i]),
    {
        let mut applied_now: Vec<MessageId> = Vec::new();
        let mut queue: Vec<MessageId> = Vec::new();
        queue.push(arrived);
        let ghost base = self.applied@.dom();
        proof {
            assert(queue@ =~= seq![arrived]);
            assert(applied_now@ + cascade(known, base, queue@) =~= cascade(known, base, queue@));
            assert(joins(base, applied_now@, base));
        }
        while queue.len() > 0
            invariant
                base == old(self).applied@.dom(),
                self.steady(known, queue@, seq![]),
                applied_now@ + cascade(known, self.applied@.dom(), queue@) == cascade(known, base, seq![arrived]),
                joins(base, applied_now@, self.applied@.dom()),
            decreases self.pending@.dom().len(), queue@.len(),
        {
            let ghost before = *self;
            let ghost stack = queue@;
            let parent: MessageId = match queue.pop() {
                Some(p) => p,
                None => arrived,
            };
            proof {
                self.lemma_steady_parts(known, stack, seq![]);
            }
            let waiters: SortedSet<MessageId> = match self.waiting_on.remove(&parent) {
                Some(w) => w,
                None => SortedSet::new(),
            };
            let ghost candidates = waiters.walk();
            let ghost start = self.applied@.dom();
            let ghost settled_so_far = applied_now@;
            proof {
                assert(queue@ =~= stack.drop_last());
                waiters.lemma_walk();
                assert forall|c: MessageId| #[trigger] candidates.contains(c) <==> before.awaits(stack.last(), c) by {
                    assert(candidates.to_set().contains(c) <==> candidates.contains(c));
                }
                MessageDag::lemma_pop(before, *self, known, stack, candidates);
                assert(candidates.skip(0) =~= candidates);
                lemma_one_pass_new(known, start, candidates);
            }
            let ghost pass = one_pass(known, start, candidates);
            let ghost mut passed = Seq::<MessageId>::empty();
            assert(passed + one_pass(known, start, candidates) =~= pass);
            assert(queue@ =~= stack.drop_last() + passed);
            assert(applied_now@ =~= settled_so_far + passed);
            assert(start.union(passed.to_set()) =~= start);
            let n: usize = waiters.len();
            let mut i: usize = 0;
            while i < n
                invariant
                    i <= n,
                    n == candidates.len(),
                    waiters.wf(),
                    candidates == waiters.walk(),
                    candidates.no_duplicates(),
                    self.steady(known, queue@, candidates.skip(i as int)),
                    queue@ == stack.drop_last() + passed,
                    applied_now@ == settled_so_far + passed,
                    self.applied@.dom() == start.union(passed.to_set()),
                    passed + one_pass(known, self.applied@.dom(), candidates.skip(i as int)) == pass,
                    passed.len() > 0 ==> self.pending@.dom().len() < before.pending@.dom().len(),
                    passed.len() == 0 ==> self.pending@.dom() == before.pending@.dom(),
                decreases n - i,
            {
                let ghost mid = *self;
                let ghost todo = candidates.skip(i as int);
                let waiter: MessageId = waiters.at(i);
                proof {
                    assert(todo[0] == waiter);
                    assert(todo.drop_first() =~= candidates.skip(i + 1));
                    assert(todo.no_duplicates());
                    mid.lemma_steady_parts(known, queue@, todo);
                    mid.pending.lemma_walk();
                }
                let ok: bool = self.settle(waiter, Ghost(known), Ghost(queue@), Ghost(todo));
                if ok {
                    applied_now.push(waiter);
                    queue.push(waiter);
                    proof {
                        let grown = passed.push(waiter);
                        assert(seq![waiter] + one_pass(known, mid.applied@.dom().insert(waiter), todo.drop_first())
                            == one_pass(known, mid.applied@.dom(), todo));
                        assert(passed + (seq![waiter] + one_pass(known, self.applied@.dom(), todo.drop_first())) =~= grown
                            + one_pass(known, self.applied@.dom(), todo.drop_first()));
                        assert(queue@ =~= stack.drop_last() + grown);
                        assert(applied_now@ =~= settled_so_far + grown);
                        assert forall|x: MessageId| grown.to_set().contains(x) <==> passed.to_set().contains(x) || x
                            == waiter by {
                            if passed.contains(x) {
                                let j = choose|j: int| 0 <= j < passed.len() && passed[j] == x;
                                assert(grown[j] == x);
                            }
                            assert(grown[passed.len() as int] == waiter);
                        }
                        assert(self.applied@.dom() =~= start.union(grown.to_set()));
                        passed = grown;
                    }
                }
                i = i + 1;
            }
            proof {
                assert(candidates.skip(n as int) =~= Seq::<MessageId>::empty());
                assert(passed =~= pass);
                assert(settled_so_far + (pass + cascade(known, self.applied@.dom(), queue@)) =~= applied_now@
                    + cascade(known, self.applied@.dom(), queue@));
                lemma_applied_joined(base, start, self.applied@.dom(), settled_so_far, pass);
            }
        }
        proof {
            self.lemma_steady_parts(known, queue@, seq![]);
            assert(queue@ =~= Seq::<MessageId>::empty());
            assert(applied_now@ + cascade(known, self.applied@.dom(), queue@) =~= applied_now@);
            assert forall|id: MessageId| #[trigger] self.applied@.contains_key(id) <==> old(self).applied@.contains_key(id)
                || applied_now@.contains(id) by {
                assert(self.applied@.dom().contains(id) <==> base.contains(id) || applied_now@.contains(id));
            }
        }
        applied_now
    }

    /// The parents that are not applied, in the order given.
    fn missing_of(&self, parents: &[MessageId]) -> (r: Vec<MessageId>)
        requires
            self.applied.wf(),
        ensures
            r@ == missing_from(parents@, self.applied@.dom()),
    {
        let mut r: Vec<MessageId> = Vec::new();
        let mut i: usize = 0;
        assert(parents@.take(0) =~= Seq::<MessageId>::empty());
        proof {
            reveal(Seq::filter);
        }
        while i < parents.len()
            invariant
                i <= parents@.len(),
                self.applied.wf(),
                r@ == missing_from(parents@.take(i as int), self.applied@.dom()),
            decreases parents@.len() - i,
        {
            proof {
                reveal(Seq::filter);
                assert(parents@.take(i + 1).drop_last() =~= parents@.take(i as int));
                assert(parents@.take(i + 1).last() == parents@[i as int]);
            }
            if !self.applied.contains_key(&parents[i]) {
                r.push(parents[i]);
            }
            i = i + 1;
        }
        assert(parents@.take(i as int) =~= parents@);
        r
    }

    /// Takes a message in. One whose parents are all present is applied at
    /// once, and with it everything that waited for it alone; one with a gap
    /// below it is buffered.
    pub fn insert(&mut self, message: Message) -> (r: DagInsert)
        requires
            old(self).wf(),
        ensures
            final(self).wf(),
            final(self).known() == learn(old(self).known(), message@),
            match r {
                DagInsert::Duplicate => old(self).known().contains_key(message@.id),
                DagInsert::Pending { missing } => {
                    &&& !old(self).known().contains_key(message@.id)
                    &&& missing@ == missing_from(message@.parents, old(self).history().dom())
                    &&& missing@.len() > 0
                    &&& final(self).history() == old(self).history()
                },
                DagInsert::Applied { unblocked } => {
                    &&& !old(self).known().contains_key(message@.id)
                    &&& missing_from(message@.parents, old(self).history().dom()).len() == 0
                    &&& unblocked@ == cascade(
                        final(self).known(),
                        old(self).history().dom().insert(message@.id),
                        seq![message@.id],
                    )
                    &&& unblocked@.no_duplicates()
                    &&& forall|id: MessageId| #[trigger]
                        final(self).history().contains_key(id) <==> {
                            ||| old(self).history().contains_key(id)
                            ||| id == message@.id
                            ||| unblocked@.contains(id)
                        }
                    &&& forall|i: int|
                        0 <= i < unblocked@.len() ==> old(self).known().contains_key(
                            #[trigger] unblocked@[i],
                        ) && !old(self).history().contains_key(unblocked@[i])
                },
            },
    {
        let id: MessageId = message.id();
        let ghost known = self.known();
        let ghost more = known.insert(id, message@);
        let ghost before = *self;
        proof {
            self.lemma_at_rest(known);
        }
        if self.contains(&id) {
            return DagInsert::Duplicate;
        }
        proof {
            assert(known.submap_of(more)) by {
                assert forall|k: MessageId| #[trigger] known.dom().contains(k) implies more.dom().contains(k)
                    && known[k] == more[k] by {}
            }
            assert forall|x: MessageId| #[trigger] before.applied@.contains_key(x) implies settled(more, x)
                && known.contains_key(x) by {
                lemma_settled_stays(known, more, x);
            }
            assert(more.dom() =~= known.dom().insert(id));
        }
        let missing: Vec<MessageId> = self.missing_of(message.parents());
        proof {
            lemma_missing(message@.parents, before.applied@.dom());
        }
        if missing.len() > 0 {
            let mut i: usize = 0;
            while i < missing.len()
                invariant
                    i <= missing@.len(),
                    self.parts_wf(),
                    self.applied == before.applied,
                    self.pending == before.pending,
                    self.heads == before.heads,
                    self.max_lamport == before.max_lamport,
                    forall|p: MessageId, c: MessageId| #[trigger]
                        self.awaits(p, c) <==> before.awaits(p, c) || (c == id && missing@.take(i as int).contains(p)),
                    forall|p: MessageId| #[trigger]
                        self.waiting_on@.contains_key(p) ==> before.waiting_on@.contains_key(p) || missing@.take(
                            i as int,
                        ).contains(p),
                decreases missing@.len() - i,
            {
                let ghost prior = *self;
                let parent: MessageId = missing[i];
                self.register(parent, id);
                proof {
                    let seen = missing@.take(i as int);
                    let now = missing@.take(i + 1);
                    assert(now =~= seen.push(parent));
                    assert forall|p: MessageId| #[trigger] now.contains(p) <==> seen.contains(p) || p == parent by {
                        if seen.contains(p) {
                            let j = choose|j: int| 0 <= j < seen.len() && seen[j] == p;
                            assert(now[j] == p);
                        }
                        assert(now[i as int] == parent);
                        if now.contains(p) {
                            let j = choose|j: int| 0 <= j < now.len() && now[j] == p;
                            if j < i {
                                assert(seen[j] == p);
                            }
                        }
                    }
                    assert forall|p: MessageId| #[trigger] self.waiting_on@.contains_key(p) implies before.waiting_on@.contains_key(
                        p,
                    ) || now.contains(p) by {
                        if p != parent {
                            assert(prior.waiting_on@.contains_key(p));
                        }
                    }
                    assert forall|p: MessageId, c: MessageId| #[trigger] self.awaits(p, c) <==> before.awaits(p, c) || (c == id
                        && now.contains(p)) by {
                        assert(self.awaits(p, c) <==> prior.awaits(p, c) || (p == parent && c == id));
                    }
                }
                i = i + 1;
            }
            let ghost registered = *self;
            self.pending.insert(id, message);
            proof {
                assert(missing@.take(i as int) =~= missing@);
                let queue = Seq::<MessageId>::empty();
                assert(self.applied@ == before.applied@);
                assert(self.splits(more));
                assert(self.grounded(more)) by {
                    assert forall|x: MessageId, i: int| self.applied@.contains_key(x) && 0 <= i < more[x].parents.len()
                        implies self.applied@.contains_key(#[trigger] more[x].parents[i]) by {
                        assert(before.applied@.contains_key(x));
                        assert(before.applied@.contains_key(known[x].parents[i]));
                    }
                }
                assert forall|p: MessageId, c: MessageId| #[trigger] self.awaits(p, c) <==> before.awaits(p, c) || (c == id
                    && missing@.contains(p)) by {
                    assert(self.awaits(p, c) <==> registered.awaits(p, c));
                }
                assert forall|p: MessageId, c: MessageId| #[trigger] self.awaits(p, c) implies more.contains_key(c)
                    && more[c].parents.contains(p) && unsettled_link(self.applied@, queue, p) by {
                    if before.awaits(p, c) {
                        assert(known.contains_key(c));
                    }
                }
                assert forall|p: MessageId, c: MessageId|
                    self.pending@.contains_key(c) && #[trigger] more[c].parents.contains(p) && unsettled_link(
                        self.applied@,
                        queue,
                        p,
                    ) implies self.awaits(p, c) by {
                    if c != id {
                        assert(before.pending@.contains_key(c));
                        assert(known[c].parents.contains(p));
                        assert(before.awaits(p, c));
                    }
                }
                assert forall|p: MessageId| #[trigger] self.waiting_on@.contains_key(p) implies exists|c: MessageId|
                    self.awaits(p, c) by {
                    assert(registered.waiting_on@.contains_key(p));
                    if before.waiting_on@.contains_key(p) {
                        let c = choose|c: MessageId| before.awaits(p, c);
                        assert(self.awaits(p, c));
                    } else {
                        assert(self.awaits(p, id));
                    }
                }
                assert forall|c: MessageId| #[trigger] self.pending@.contains_key(c) implies held(
                    more,
                    self.applied@,
                    queue,
                    c,
                ) by {
                    if c == id {
                        assert(missing@.contains(missing@[0]));
                        assert(more[id].parents.contains(missing@[0]));
                    } else {
                        assert(before.pending@.contains_key(c));
                        assert(held(known, before.applied@, queue, c));
                        let p = choose|p: MessageId| #[trigger]
                            known[c].parents.contains(p) && unsettled_link(before.applied@, queue, p);
                        assert(more[c].parents.contains(p));
                    }
                }
                reveal(MessageDag::steady);
                assert(self.steady(more, seq![], seq![]));
                self.lemma_at_rest(more);
                assert(self.history() =~= before.history());
            }
            return DagInsert::Pending { missing };
        }
        assert forall|i: int| 0 <= i < message@.parents.len() implies before.applied@.contains_key(#[trigger] message@.parents[i]) by {
            assert(message@.parents.contains(message@.parents[i]));
            if !before.applied@.contains_key(message@.parents[i]) {
                assert(missing@.contains(message@.parents[i]));
            }
        }
        let ghost m = message;
        self.apply(message);
        proof {
            let after = *self;
            let queue = seq![id];
            assert(queue[0] == id);
            assert forall|p: MessageId| #[trigger] queue.contains(p) <==> p == id by {
                assert(queue[0] == id);
            }
            assert(before.grounded(more)) by {
                assert forall|x: MessageId, i: int| before.applied@.contains_key(x) && 0 <= i < more[x].parents.len()
                    implies before.applied@.contains_key(#[trigger] more[x].parents[i]) by {
                    assert(known.contains_key(x));
                    assert(before.applied@.contains_key(known[x].parents[i]));
                }
            }
            MessageDag::lemma_apply_grounded(before, after, more, m);
            assert(after.splits(more));
            assert forall|p: MessageId, c: MessageId| #[trigger] after.awaits(p, c) implies more.contains_key(c)
                && more[c].parents.contains(p) && unsettled_link(after.applied@, queue, p) by {
                assert(before.awaits(p, c));
                assert(known.contains_key(c));
            }
            assert forall|p: MessageId, c: MessageId|
                after.pending@.contains_key(c) && #[trigger] more[c].parents.contains(p) && unsettled_link(
                    after.applied@,
                    queue,
                    p,
                ) implies after.awaits(p, c) by {
                assert(before.pending@.contains_key(c));
                assert(known[c].parents.contains(p));
                assert(unsettled_link(before.applied@, seq![], p));
                assert(before.awaits(p, c));
            }
            assert forall|p: MessageId| #[trigger] after.waiting_on@.contains_key(p) implies exists|c: MessageId|
                after.awaits(p, c) by {
                let c = choose|c: MessageId| before.awaits(p, c);
                assert(after.awaits(p, c));
            }
            assert forall|c: MessageId| #[trigger] after.pending@.contains_key(c) implies held(
                more,
                after.applied@,
                queue,
                c,
            ) by {
                assert(before.pending@.contains_key(c));
                assert(held(known, before.applied@, seq![], c));
                let p = choose|p: MessageId| #[trigger]
                    known[c].parents.contains(p) && unsettled_link(before.applied@, seq![], p);
                assert(more[c].parents.contains(p));
                assert(unsettled_link(after.applied@, queue, p));
            }
            reveal(MessageDag::steady);
            assert(after.steady(more, queue, seq![]));
            assert(after.applied@.dom() =~= before.applied@.dom().insert(id));
        }
        let ghost mid = *self;
        let unblocked: Vec<MessageId> = self.drain_unblocked(id, Ghost(more));
        proof {
            self.lemma_at_rest(more);
            assert forall|x: MessageId| #[trigger] self.history().contains_key(x) <==> {
                ||| before.history().contains_key(x)
                ||| x == id
                ||| unblocked@.contains(x)
            } by {
                assert(self.applied@.contains_key(x) <==> mid.applied@.contains_key(x) || unblocked@.contains(x));
                assert(before.applied@.contains_key(x) <==> settled(known, x));
                assert(self.applied@.contains_key(x) <==> settled(more, x));
            }
            assert forall|i: int| 0 <= i < unblocked@.len() implies known.contains_key(#[trigger] unblocked@[i])
                && !before.history().contains_key(unblocked@[i]) by {
                let x = unblocked@[i];
                assert(unblocked@.contains(x));
                assert(self.applied@.contains_key(x) <==> mid.applied@.contains_key(x) || unblocked@.contains(x));
                assert(more.contains_key(x));
                assert(!mid.applied@.contains_key(x));
                assert(before.applied@.contains_key(x) <==> settled(known, x));
            }
        }
        DagInsert::Applied { unblocked }
    }
}

/// The missing parents are those of the parents that are not applied.
pub proof fn lemma_missing(parents: Seq<MessageId>, applied: Set<MessageId>)
    ensures
        forall|p: MessageId| #[trigger]
            missing_from(parents, applied).contains(p) <==> parents.contains(p) && !applied.contains(p),
    decreases parents.len(),
{
    reveal(Seq::filter);
    let m = missing_from(parents, applied);
    if parents.len() > 0 {
        let init = parents.drop_last();
        let last = parents.last();
        lemma_missing(init, applied);
        let mi = missing_from(init, applied);
        assert forall|p: MessageId| #[trigger] m.contains(p) <==> parents.contains(p) && !applied.contains(p) by {
            assert(parents.contains(p) <==> init.contains(p) || p == last) by {
                if init.contains(p) {
                    let i = choose|i: int| 0 <= i < init.len() && init[i] == p;
                    assert(parents[i] == p);
                }
                if parents.contains(p) {
                    let i = choose|i: int| 0 <= i < parents.len() && parents[i] == p;
                    if i < init.len() {
                        assert(init[i] == p);
                    }
                }
                assert(parents[parents.len() - 1] == last);
            }
            if !applied.contains(last) {
                assert(m == mi.push(last));
                if mi.contains(p) {
                    let i = choose|i: int| 0 <= i < mi.len() && mi[i] == p;
                    assert(m[i] == p);
                }
                if m.contains(p) {
                    let i = choose|i: int| 0 <= i < m.len() && m[i] == p;
                    if i < mi.len() {
                        assert(mi[i] == p);
                    }
                }
                assert(m[mi.len() as int] == last);
            } else {
                assert(m == mi);
            }
        }
    }
}

/// The ids of a list of messages.
pub open spec fn ids_of(messages: Seq<&Message>) -> Seq<MessageId> {
    Seq::new(messages.len(), |i: int| messages[i]@.id)
}

/// `order` opens a display order.
spec fn opens_display_order(history: Map<MessageId, MessageView>, order: Seq<MessageId>) -> bool {
    forall|i: int|
        0 <= i < order.len() ==> follows_first(history, order.take(i).to_set(), #[trigger] order[i])
}

proof fn lemma_opening_grows(
    history: Map<MessageId, MessageView>,
    order: Seq<MessageId>,
    id: MessageId,
)
    requires
        opens_display_order(history, order),
        follows_first(history, order.to_set(), id),
    ensures
        opens_display_order(history, order.push(id)),
{
    let more = order.push(id);
    assert forall|i: int| 0 <= i < more.len() implies follows_first(
        history,
        more.take(i).to_set(),
        #[trigger] more[i],
    ) by {
        if i < order.len() {
            assert(more.take(i) =~= order.take(i));
            assert(more[i] == order[i]);
        } else {
            assert(more.take(i) =~= order);
        }
    }
}

/// An opening shows nothing twice, and nothing before its parents.
proof fn lemma_opening(history: Map<MessageId, MessageView>, order: Seq<MessageId>)
    requires
        opens_display_order(history, order),
    ensures
        order.no_duplicates(),
        forall|x: MessageId| #[trigger] order.contains(x) ==> history.contains_key(x),
        forall|x: MessageId, p: MessageId|
            order.contains(x) && #[trigger] history[x].parents.contains(p) ==> order.contains(p),
{
    assert forall|i: int, j: int| 0 <= i < j < order.len() implies order[i] != order[j] by {
        assert(follows_first(history, order.take(j).to_set(), order[j]));
        assert(order.take(j)[i] == order[i]);
        assert(order.take(j).to_set().contains(order[i]));
    }
    assert forall|x: MessageId| #[trigger] order.contains(x) implies history.contains_key(x) by {
        let i = choose|i: int| 0 <= i < order.len() && order[i] == x;
        assert(follows_first(history, order.take(i).to_set(), order[i]));
    }
    assert forall|x: MessageId, p: MessageId| order.contains(x) && #[trigger] history[x].parents.contains(p)
        implies order.contains(p) by {
        let i = choose|i: int| 0 <= i < order.len() && order[i] == x;
        assert(follows_first(history, order.take(i).to_set(), order[i]));
        let k = choose|k: int| 0 <= k < history[x].parents.len() && history[x].parents[k] == p;
        assert(order.take(i).to_set().contains(history[x].parents[k]));
        let j = choose|j: int| 0 <= j < i && order.take(i)[j] == p;
        assert(order[j] == p);
    }
}

/// `k` is the key of a message that can be shown next.
spec fn next_key(
    history: Map<MessageId, MessageView>,
    shown: Set<MessageId>,
    k: DisplayKey,
) -> bool {
    can_follow(history, shown, k.2) && display_key(history[k.2]) == k
}

impl MessageDag {
    /// `links[j]` lists the places of the messages that name message `j` as a
    /// parent.
    spec fn links_are(&self, links: Seq<Vec<usize>>) -> bool {
        let walk = self.applied.walk();
        &&& links.len() == walk.len()
        &&& forall|j: int, c: usize|
            0 <= j < walk.len() ==> (#[trigger] links[j]@.contains(c) <==> c < walk.len()
                && self.applied@[walk[c as int]]@.parents.contains(walk[j]))
    }

    /// For each applied message, in id order, the places of its children.
    fn links(&self) -> (links: Vec<Vec<usize>>)
        requires
            self.wf(),
        ensures
            self.links_are(links@),
    {
        proof {
            self.lemma_at_rest(self.known());
        }
        let n: usize = self.applied.len();
        let ghost walk = self.applied.walk();
        let mut links: Vec<Vec<usize>> = Vec::new();
        let mut j: usize = 0;
        while j < n
            invariant
                j <= n,
                links@.len() == j,
                forall|k: int| 0 <= k < j ==> (#[trigger] links@[k])@ == Seq::<usize>::empty(),
            decreases n - j,
        {
            links.push(Vec::new());
            j = j + 1;
        }
        proof {
            self.applied.lemma_walk();
        }
        let mut c: usize = 0;
        while c < n
            invariant
                c <= n,
                n == walk.len(),
                walk == self.applied.walk(),
                walk.no_duplicates(),
                self.applied.wf(),
                links@.len() == n,
                forall|j: int, x: usize|
                    0 <= j < n ==> (#[trigger] links@[j]@.contains(x) <==> x < c
                        && self.applied@[walk[x as int]]@.parents.contains(walk[j])),
            decreases n - c,
        {
            let parents = self.applied.value_at(c).parents();
            let mut i: usize = 0;
            while i < parents.len()
                invariant
                    i <= parents@.len(),
                    c < n,
                    n == walk.len(),
                    walk == self.applied.walk(),
                    walk.no_duplicates(),
                    self.applied.wf(),
                    links@.len() == n,
                    parents@ == self.applied@[walk[c as int]]@.parents,
                    forall|j: int, x: usize|
                        0 <= j < n ==> (#[trigger] links@[j]@.contains(x) <==> (x < c
                            && self.applied@[walk[x as int]]@.parents.contains(walk[j])) || (x == c
                            && parents@.take(i as int).contains(walk[j]))),
                decreases parents@.len() - i,
            {
                let ghost before = links@;
                let ghost seen = parents@.take(i as int);
                let parent: MessageId = parents[i];
                proof {
                    let now = parents@.take(i + 1);
                    assert(now =~= seen.push(parent));
                    assert forall|p: MessageId| #[trigger] now.contains(p) <==> seen.contains(p) || p == parent by {
                        if seen.contains(p) {
                            let k = choose|k: int| 0 <= k < seen.len() && seen[k] == p;
                            assert(now[k] == p);
                        }
                        assert(now[i as int] == parent);
                        if now.contains(p) {
                            let k = choose|k: int| 0 <= k < now.len() && now[k] == p;
                            if k < i {
                                assert(seen[k] == p);
                            }
                        }
                    }
                }
                match self.applied.index(&parent) {
                    Some(at) => {
                        links[at].push(c);
                        proof {
                            assert forall|j: int, x: usize| 0 <= j < n implies (#[trigger] links@[j]@.contains(x) <==> (x < c
                                && self.applied@[walk[x as int]]@.parents.contains(walk[j])) || (x == c
                                && parents@.take(i + 1).contains(walk[j]))) by {
                                if j == at {
                                    let b = before[j]@;
                                    assert(links@[j]@ == b.push(c));
                                    if b.contains(x) {
                                        let k = choose|k: int| 0 <= k < b.len() && b[k] == x;
                                        assert(b.push(c)[k] == x);
                                    }
                                    assert(b.push(c)[b.len() as int] == c);
                                    if b.push(c).contains(x) {
                                        let k = choose|k: int| 0 <= k < b.push(c).len() && b.push(c)[k] == x;
                                        if k < b.len() {
                                            assert(b[k] == x);
                                        }
                                    }
                                    assert(before[j]@.contains(x) <==> (x < c
                                        && self.applied@[walk[x as int]]@.parents.contains(walk[j])) || (x == c
                                        && seen.contains(walk[j])));
                                } else {
                                    assert(links@[j] == before[j]);
                                    assert(walk[j] != walk[at as int]);
                                }
                            }
                        }
                    },
                    None => {
                        proof {
                            assert forall|j: int| 0 <= j < n implies walk[j] != parent by {
                                if walk[j] == parent {
                                    self.applied.lemma_walk();
                                    assert(walk.contains(parent));
                                }
                            }
                        }
                    },
                }
                i = i + 1;
            }
            assert(parents@.take(i as int) =~= parents@);
            c = c + 1;
        }
        links
    }

    /// Whether all of `parents` are marked as shown.
    fn all_shown(&self, parents: &[MessageId], shown: &Vec<bool>, Ghost(order): Ghost<Seq<MessageId>>) -> (r: bool)
        requires
            self.applied.wf(),
            shown@.len() == self.applied.walk().len(),
            forall|j: int| 0 <= j < shown@.len() ==> #[trigger] shown@[j] == order.contains(self.applied.walk()[j]),
            forall|x: MessageId| #[trigger] order.contains(x) ==> self.applied@.contains_key(x),
        ensures
            r == forall|i: int| 0 <= i < parents@.len() ==> order.contains(#[trigger] parents@[i]),
    {
        let mut i: usize = 0;
        while i < parents.len()
            invariant
                i <= parents@.len(),
                self.applied.wf(),
                shown@.len() == self.applied.walk().len(),
                forall|j: int| 0 <= j < shown@.len() ==> #[trigger] shown@[j] == order.contains(self.applied.walk()[j]),
                forall|x: MessageId| #[trigger] order.contains(x) ==> self.applied@.contains_key(x),
                forall|j: int| 0 <= j < i ==> order.contains(#[trigger] parents@[j]),
            decreases parents@.len() - i,
        {
            match self.applied.index(&parents[i]) {
                Some(at) => {
                    if !shown[at] {
                        assert(!order.contains(parents@[i as int]));
                        return false;
                    }
                },
                None => {
                    assert(!order.contains(parents@[i as int]));
                    return false;
                },
            }
            i = i + 1;
        }
        true
    }

    /// Deterministic linearization: a topological sort with the ready set
    /// ordered by `(lamport, author, id)`.
    pub fn linearize(&self) -> (r: Vec<&Message>)
        requires
            self.wf(),
        ensures
            is_display_order(self.history(), ids_of(r@)),
            forall|i: int| 0 <= i < r@.len() ==> (#[trigger] r@[i])@ == self.history()[r@[i]@.id],
    {
        let ghost h = self.history();
        let ghost walk = self.applied.walk();
        let ghost known = self.known();
        proof {
            self.lemma_at_rest(known);
            self.applied.lemma_walk();
            assert forall|x: MessageId| #[trigger] self.applied@.contains_key(x) implies h.contains_key(x)
                && self.applied@[x]@ == h[x] && h[x].id == x && h[x] == known[x] by {
                assert(known.contains_key(x));
            }
        }
        let links: Vec<Vec<usize>> = self.links();
        let n: usize = self.applied.len();
        let mut shown: Vec<bool> = Vec::new();
        let mut ready: SortedSet<DisplayKey> = SortedSet::new();
        let mut out: Vec<&Message> = Vec::new();
        let mut j: usize = 0;
        let ghost none = Seq::<MessageId>::empty();
        assert(none.to_set() =~= Set::<MessageId>::empty());
        while j < n
            invariant
                j <= n,
                n == walk.len(),
                walk == self.applied.walk(),
                walk.no_duplicates(),
                self.applied.wf(),
                h == self.history(),
                none == Seq::<MessageId>::empty(),
                none.to_set() == Set::<MessageId>::empty(),
                forall|x: MessageId| #[trigger] self.applied@.contains_key(x) ==> h.contains_key(x)
                    && self.applied@[x]@ == h[x] && h[x].id == x,
                shown@.len() == j,
                forall|k: int| 0 <= k < j ==> !#[trigger] shown@[k],
                ready.wf(),
                forall|k: DisplayKey| #[trigger]
                    ready@.contains(k) <==> next_key(h, none.to_set(), k) && walk.take(j as int).contains(k.2),
            decreases n - j,
        {
            shown.push(false);
            let message: &Message = self.applied.value_at(j);
            let ghost before = ready@;
            let ghost x = walk[j as int];
            if message.parents().len() == 0 {
                ready.insert(DisplayKey(message.lamport(), message.author(), message.id()));
            }
            proof {
                let seen = walk.take(j as int);
                let now = walk.take(j + 1);
                assert(now =~= seen.push(x));
                assert forall|p: MessageId| #[trigger] now.contains(p) <==> seen.contains(p) || p == x by {
                    if seen.contains(p) {
                        let k = choose|k: int| 0 <= k < seen.len() && seen[k] == p;
                        assert(now[k] == p);
                    }
                    assert(now[j as int] == x);
                    if now.contains(p) {
                        let k = choose|k: int| 0 <= k < now.len() && now[k] == p;
                        if k < j {
                            assert(seen[k] == p);
                        }
                    }
                }
                assert(self.applied@.contains_key(x));
                assert(message@ == h[x]);
                assert forall|k: DisplayKey| #[trigger] ready@.contains(k) <==> next_key(h, none.to_set(), k)
                    && now.contains(k.2) by {
                    assert(before.contains(k) <==> next_key(h, none.to_set(), k) && seen.contains(k.2));
                    if k.2 == x && next_key(h, none.to_set(), k) && message@.parents.len() > 0 {
                        assert(none.to_set().contains(h[x].parents[0]));
                    }
                    if k == display_key(h[x]) && message@.parents.len() == 0 {
                        assert(can_follow(h, none.to_set(), x));
                    }
                }
            }
            j = j + 1;
        }
        let ghost mut order = none;
        proof {
            assert(walk.take(n as int) =~= walk);
            assert(ids_of(out@) =~= order);
            assert forall|k: DisplayKey| #[trigger] ready@.contains(k) <==> next_key(h, order.to_set(), k) by {
                if next_key(h, order.to_set(), k) {
                    assert(self.applied@.contains_key(k.2) <==> settled(known, k.2));
                    assert(walk.contains(k.2));
                }
            }
        }
        while ready.len() > 0
            invariant
                n == walk.len(),
                walk == self.applied.walk(),
                walk.no_duplicates(),
                forall|k: MessageId| walk.contains(k) <==> self.applied@.contains_key(k),
                self.applied.wf(),
                self.wf(),
                h == self.history(),
                self.applied@.dom() == h.dom(),
                self.applied@.dom().len() == n,
                self.applied@.dom().finite(),
                forall|x: MessageId| #[trigger] self.applied@.contains_key(x) ==> h.contains_key(x)
                    && self.applied@[x]@ == h[x] && h[x].id == x,
                self.links_are(links@),
                shown@.len() == n,
                forall|j: int| 0 <= j < n ==> #[trigger] shown@[j] == order.contains(walk[j]),
                ready.wf(),
                forall|k: DisplayKey| #[trigger] ready@.contains(k) <==> next_key(h, order.to_set(), k),
                ids_of(out@) == order,
                forall|i: int| 0 <= i < out@.len() ==> (#[trigger] out@[i])@ == h[out@[i]@.id],
                opens_display_order(h, order),
            decreases n - order.len(),
        {
            let key: DisplayKey = ready.at(0);
            let ghost id = key.2;
            let ghost s0 = order.to_set();
            let ghost next = order.push(id);
            let ghost s1 = next.to_set();
            proof {
                ready.lemma_walk();
                assert(ready.walk().to_set().contains(ready.walk()[0]));
                assert(ready@.contains(key));
                assert(next_key(h, s0, key));
                assert forall|other: MessageId| #[trigger] can_follow(h, s0, other) implies !display_key(h[other]).before(
                    display_key(h[id]),
                ) by {
                    let k = display_key(h[other]);
                    assert(self.applied@.dom().contains(other));
                    assert(self.applied@.contains_key(other));
                    assert(next_key(h, s0, k));
                    assert(ready@.contains(k));
                    assert(ready.walk().to_set().contains(k));
                    let i = choose|i: int| 0 <= i < ready.walk().len() && ready.walk()[i] == k;
                    DisplayKey::lemma_irreflexive(key);
                    if i > 0 {
                        assert(ready.walk()[0].before(ready.walk()[i]));
                        if k.before(key) {
                            DisplayKey::lemma_transitive(key, k, key);
                        }
                    }
                }
                assert(follows_first(h, s0, id));
                lemma_opening(h, order);
                lemma_opening_grows(h, order, id);
                lemma_opening(h, next);
                assert forall|x: MessageId| #[trigger] s1.contains(x) <==> s0.contains(x) || x == id by {
                    if order.contains(x) {
                        let i = choose|i: int| 0 <= i < order.len() && order[i] == x;
                        assert(next[i] == x);
                    }
                    assert(next[order.len() as int] == id);
                    if next.contains(x) {
                        let i = choose|i: int| 0 <= i < next.len() && next[i] == x;
                        if i < order.len() {
                            assert(order[i] == x);
                        }
                    }
                }
                next.unique_seq_to_set();
                assert(s1.subset_of(h.dom())) by {
                    assert forall|x: MessageId| s1.contains(x) implies h.dom().contains(x) by {
                        assert(next.contains(x));
                    }
                }
                vstd::set_lib::lemma_len_subset(s1, h.dom());
                assert(self.applied@.dom().contains(id));
                assert(self.applied@.contains_key(id));
                assert(!order.contains(id));
            }
            ready.remove(&key);
            match self.applied.index(&key.2) {
                Some(at) => {
                    out.push(self.applied.value_at(at));
                    shown.set(at, true);
                    proof {
                        assert(ids_of(out@) =~= next);
                        assert forall|j: int| 0 <= j < n implies #[trigger] shown@[j] == next.contains(walk[j]) by {
                            assert(s1.contains(walk[j]) <==> s0.contains(walk[j]) || walk[j] == id);
                            if j != at {
                                assert(walk[j] != walk[at as int]);
                            }
                        }
                        assert forall|k: DisplayKey| #[trigger] ready@.contains(k) <==> (next_key(h, s0, k) && k.2
                            != id) by {
                            if next_key(h, s0, k) && k.2 == id {
                                assert(k == key);
                            }
                        }
                    }
                    let children: &Vec<usize> = &links[at];
                    let mut m: usize = 0;
                    while m < children.len()
                        invariant
                            m <= children@.len(),
                            at < n,
                            walk[at as int] == id,
                            n == walk.len(),
                            walk == self.applied.walk(),
                            walk.no_duplicates(),
                            self.applied.wf(),
                            h.dom() == self.applied@.dom(),
                            forall|x: MessageId| #[trigger] self.applied@.contains_key(x) ==> h.contains_key(x)
                                && self.applied@[x]@ == h[x] && h[x].id == x,
                            self.links_are(links@),
                            *children == links@[at as int],
                            shown@.len() == n,
                            forall|j: int| 0 <= j < n ==> #[trigger] shown@[j] == next.contains(walk[j]),
                            forall|x: MessageId| #[trigger] next.contains(x) ==> h.contains_key(x),
                            s1 == next.to_set(),
                            s0 == order.to_set(),
                            forall|x: MessageId| #[trigger] s1.contains(x) <==> s0.contains(x) || x == id,
                            !s0.contains(id),
                            forall|x: MessageId, p: MessageId|
                                order.contains(x) && #[trigger] h[x].parents.contains(p) ==> order.contains(p),
                            forall|i: int| 0 <= i < h[id].parents.len() ==> s0.contains(#[trigger] h[id].parents[i]),
                            ready.wf(),
                            forall|k: DisplayKey| #[trigger]
                                ready@.contains(k) <==> (next_key(h, s0, k) && k.2 != id) || (next_key(h, s1, k)
                                    && exists|i: int| 0 <= i < m && walk[(#[trigger] children@[i]) as int] == k.2),
                        decreases children@.len() - m,
                    {
                        let c: usize = children[m];
                        proof {
                            assert(links@[at as int]@.contains(c));
                        }
                        let message: &Message = self.applied.value_at(c);
                        let ghost x = walk[c as int];
                        let ghost before = ready@;
                        proof {
                            assert(self.applied@.contains_key(x));
                            assert(h[x].parents.contains(id));
                            assert forall|y: MessageId| #[trigger] next.contains(y) implies self.applied@.contains_key(y) by {
                                assert(h.contains_key(y));
                                assert(h.dom().contains(y));
                            }
                        }
                        let free: bool = self.all_shown(message.parents(), &shown, Ghost(next));
                        if free {
                            ready.insert(DisplayKey(message.lamport(), message.author(), message.id()));
                        }
                        proof {
                            // A child of `id` cannot have been shown before `id`.
                            if s0.contains(x) {
                                assert(order.contains(x));
                                assert(order.contains(id));
                            }
                            if x == id {
                                let i = choose|i: int| 0 <= i < h[id].parents.len() && h[id].parents[i] == id;
                                assert(s0.contains(h[id].parents[i]));
                            }
                            assert(free == can_follow(h, s1, x)) by {
                                assert(!s1.contains(x));
                                if free {
                                    assert forall|i: int| 0 <= i < h[x].parents.len() implies s1.contains(
                                        #[trigger] h[x].parents[i],
                                    ) by {
                                        assert(next.contains(message@.parents[i]));
                                    }
                                } else {
                                    let i = choose|i: int| 0 <= i < message@.parents.len() && !next.contains(
                                        #[trigger] message@.parents[i],
                                    );
                                    assert(!s1.contains(h[x].parents[i]));
                                }
                            }
                            assert forall|k: DisplayKey| #[trigger] ready@.contains(k) <==> (next_key(h, s0, k) && k.2
                                != id) || (next_key(h, s1, k) && exists|i: int| 0 <= i < m + 1 && walk[(#[trigger] children@[i]) as int]
                                == k.2) by {
                                assert(before.contains(k) <==> (next_key(h, s0, k) && k.2 != id) || (next_key(h, s1, k)
                                    && exists|i: int| 0 <= i < m && walk[(#[trigger] children@[i]) as int] == k.2));
                                if before.contains(k) && !(next_key(h, s0, k) && k.2 != id) {
                                    let i = choose|i: int| 0 <= i < m && walk[(#[trigger] children@[i]) as int] == k.2;
                                    assert(0 <= i < m + 1 && walk[children@[i] as int] == k.2);
                                }
                                if k == display_key(h[x]) {
                                    assert(walk[children@[m as int] as int] == k.2);
                                }
                                if next_key(h, s1, k) && (exists|i: int| 0 <= i < m + 1 && walk[(#[trigger] children@[i]) as int]
                                    == k.2) {
                                    let i = choose|i: int| 0 <= i < m + 1 && walk[(#[trigger] children@[i]) as int] == k.2;
                                    if i < m {
                                        assert(0 <= i < m && walk[children@[i] as int] == k.2);
                                    } else {
                                        assert(k.2 == x);
                                        assert(k == display_key(h[x]));
                                    }
                                }
                            }
                        }
                        m = m + 1;
                    }
                    proof {
                        assert forall|k: DisplayKey| #[trigger] ready@.contains(k) <==> next_key(h, s1, k) by {
                            let x = k.2;
                            if next_key(h, s0, k) && x != id {
                                assert forall|i: int| 0 <= i < h[x].parents.len() implies s1.contains(
                                    #[trigger] h[x].parents[i],
                                ) by {
                                    assert(s0.contains(h[x].parents[i]));
                                }
                                assert(next_key(h, s1, k));
                            }
                            if next_key(h, s1, k) && !next_key(h, s0, k) {
                                let i = choose|i: int| 0 <= i < h[x].parents.len() && !s0.contains(#[trigger] h[x].parents[i]);
                                assert(s1.contains(h[x].parents[i]));
                                assert(h[x].parents.contains(id));
                                assert(h.dom().contains(x));
                                assert(self.applied@.contains_key(x));
                                assert(walk.contains(x));
                                let c = choose|c: int| 0 <= c < walk.len() && walk[c] == x;
                                assert(links@[at as int]@.contains(c as usize));
                                let q = choose|q: int| 0 <= q < children@.len() && children@[q] == c as usize;
                                assert(walk[children@[q] as int] == x);
                            }
                        }
                        order = next;
                    }
                },
                None => {
                    proof {
                        order = next;
                    }
                },
            }
        }
        proof {
            let s = order.to_set();
            lemma_opening(h, order);
            ready.lemma_walk();
            assert forall|x: MessageId| !#[trigger] is_ready(known, s, x) by {
                if is_ready(known, s, x) {
                    assert forall|i: int| 0 <= i < known[x].parents.len() implies settled(known, #[trigger] known[x].parents[i]) by {
                        assert(s.contains(known[x].parents[i]));
                        assert(order.contains(known[x].parents[i]));
                        assert(h.contains_key(known[x].parents[i]));
                    }
                    lemma_settles(known, x);
                    assert(h.contains_key(x));
                    assert(self.applied@.dom().contains(x));
                    assert(self.applied@.contains_key(x));
                    assert(can_follow(h, s, x));
                    assert(next_key(h, s, display_key(h[x])));
                    assert(ready@.contains(display_key(h[x])));
                    assert(ready@.len() == 0);
                }
            }
            assert forall|x: MessageId| #[trigger] h.contains_key(x) implies order.contains(x) by {
                let n = choose|n: nat| settled_by(known, x, n);
                lemma_closed_holds_settled(known, s, x, n);
            }
        }
        out
    }
}

impl MessageDag {
    /// A history is shown in one order only.
    pub proof fn lemma_display_order(&self, order: Seq<MessageId>)
        requires
            self.wf(),
            is_display_order(self.history(), order),
        ensures
            order == display_order(self.history()),
    {
        let h = self.history();
        assert forall|id: MessageId| h.contains_key(id) implies (#[trigger] h[id]).id == id by {
            self.lemma_at_rest(self.known());
            lemma_settled_parents(self.known(), id);
            assert(self.known().contains_key(id));
        }
        lemma_display_order_unique(h, order, display_order(h));
    }
}

// ---- Laws ----

/// Hearing the same messages gives the same view of history: two nodes that
/// know the same messages show the same ones in the same order, link the same
/// heads, miss the same parents and carry the same clock.
pub proof fn law_same_messages_same_view(
    a: MessageDag,
    b: MessageDag,
    order_a: Seq<MessageId>,
    order_b: Seq<MessageId>,
    clock_a: u64,
    clock_b: u64,
)
    requires
        a.wf(),
        b.wf(),
        a.known() == b.known(),
        is_display_order(a.history(), order_a),
        is_display_order(b.history(), order_b),
        is_max_lamport(a.history(), clock_a),
        is_max_lamport(b.history(), clock_b),
    ensures
        a.history() == b.history(),
        heads_of(a.history()) == heads_of(b.history()),
        gaps_of(a.known()) == gaps_of(b.known()),
        order_a == order_b,
        clock_a == clock_b,
{
    let h = a.history();
    assert forall|id: MessageId| h.contains_key(id) implies (#[trigger] h[id]).id == id by {
        a.lemma_at_rest(a.known());
        lemma_settled_parents(a.known(), id);
        assert(a.known().contains_key(id));
    }
    lemma_display_order_unique(h, order_a, order_b);
    if clock_a != 0 {
        let x = choose|x: MessageId| h.contains_key(x) && (#[trigger] h[x]).lamport == clock_a;
        assert(h[x].lamport <= clock_b);
    }
    if clock_b != 0 {
        let x = choose|x: MessageId| h.contains_key(x) && (#[trigger] h[x]).lamport == clock_b;
        assert(h[x].lamport <= clock_a);
    }
}

/// Two messages heard under one id are one message.
pub open spec fn one_message_per_id(messages: Seq<MessageView>) -> bool {
    forall|i: int, j: int|
        0 <= i < messages.len() && 0 <= j < messages.len() && (#[trigger] messages[i]).id == (
        #[trigger] messages[j]).id ==> messages[i] == messages[j]
}

proof fn lemma_learn_all(messages: Seq<MessageView>)
    requires
        one_message_per_id(messages),
    ensures
        forall|id: MessageId| #[trigger]
            learn_all(messages).contains_key(id) <==> exists|i: int|
                0 <= i < messages.len() && (#[trigger] messages[i]).id == id,
        forall|i: int|
            0 <= i < messages.len() ==> learn_all(messages)[(#[trigger] messages[i]).id] == messages[i],
    decreases messages.len(),
{
    if messages.len() > 0 {
        let init = messages.drop_last();
        assert forall|i: int, j: int| 0 <= i < init.len() && 0 <= j < init.len() && (#[trigger] init[i]).id == (
        #[trigger] init[j]).id implies init[i] == init[j] by {
            assert(messages[i].id == messages[j].id);
        }
        lemma_learn_all(init);
        let before = learn_all(init);
        let last = messages.last();
        assert forall|id: MessageId| #[trigger] learn_all(messages).contains_key(id) <==> exists|i: int|
            0 <= i < messages.len() && (#[trigger] messages[i]).id == id by {
            if before.contains_key(id) {
                let i = choose|i: int| 0 <= i < init.len() && (#[trigger] init[i]).id == id;
                assert(messages[i].id == id);
            }
            if last.id == id {
                assert(messages[messages.len() - 1].id == id);
            }
            if exists|i: int| 0 <= i < messages.len() && (#[trigger] messages[i]).id == id {
                let i = choose|i: int| 0 <= i < messages.len() && (#[trigger] messages[i]).id == id;
                if i < init.len() {
                    assert(init[i].id == id);
                }
            }
        }
        assert forall|i: int| 0 <= i < messages.len() implies learn_all(messages)[(#[trigger] messages[i]).id]
            == messages[i] by {
            if i < init.len() {
                assert(init[i] == messages[i]);
                assert(before[init[i].id] == init[i]);
                assert(before.contains_key(init[i].id));
            } else if before.contains_key(last.id) {
                let j = choose|j: int| 0 <= j < init.len() && (#[trigger] init[j]).id == last.id;
                assert(messages[j].id == messages[i].id);
                assert(before[init[j].id] == init[j]);
            }
        }
    }
}

/// The core decentralization property: any arrival order of the same message
/// set, with any repetitions, linearizes identically, and leaves the same
/// heads, the same gaps and the same clock.
pub proof fn law_arrival_order_does_not_matter(
    heard_a: Seq<MessageView>,
    heard_b: Seq<MessageView>,
    a: MessageDag,
    b: MessageDag,
    order_a: Seq<MessageId>,
    order_b: Seq<MessageId>,
    clock_a: u64,
    clock_b: u64,
)
    requires
        one_message_per_id(heard_a),
        one_message_per_id(heard_b),
        forall|m: MessageView| heard_a.contains(m) <==> heard_b.contains(m),
        a.wf(),
        b.wf(),
        a.known() == learn_all(heard_a),
        b.known() == learn_all(heard_b),
        is_display_order(a.history(), order_a),
        is_display_order(b.history(), order_b),
        is_max_lamport(a.history(), clock_a),
        is_max_lamport(b.history(), clock_b),
    ensures
        order_a == order_b,
        a.history() == b.history(),
        heads_of(a.history()) == heads_of(b.history()),
        gaps_of(a.known()) == gaps_of(b.known()),
        clock_a == clock_b,
{
    lemma_learn_all(heard_a);
    lemma_learn_all(heard_b);
    let ka = learn_all(heard_a);
    let kb = learn_all(heard_b);
    assert forall|id: MessageId| ka.contains_key(id) <==> kb.contains_key(id) by {
        if ka.contains_key(id) {
            let i = choose|i: int| 0 <= i < heard_a.len() && (#[trigger] heard_a[i]).id == id;
            assert(heard_a.contains(heard_a[i]));
            assert(heard_b.contains(heard_a[i]));
            let j = choose|j: int| 0 <= j < heard_b.len() && heard_b[j] == heard_a[i];
            assert(heard_b[j].id == id);
        }
        if kb.contains_key(id) {
            let i = choose|i: int| 0 <= i < heard_b.len() && (#[trigger] heard_b[i]).id == id;
            assert(heard_b.contains(heard_b[i]));
            assert(heard_a.contains(heard_b[i]));
            let j = choose|j: int| 0 <= j < heard_a.len() && heard_a[j] == heard_b[i];
            assert(heard_a[j].id == id);
        }
    }
    assert forall|id: MessageId| ka.contains_key(id) implies ka[id] == kb[id] by {
        let i = choose|i: int| 0 <= i < heard_a.len() && (#[trigger] heard_a[i]).id == id;
        assert(ka[heard_a[i].id] == heard_a[i]);
        assert(heard_a.contains(heard_a[i]));
        assert(heard_b.contains(heard_a[i]));
        let j = choose|j: int| 0 <= j < heard_b.len() && heard_b[j] == heard_a[i];
        assert(kb[heard_b[j].id] == heard_b[j]);
    }
    assert(ka =~= kb);
    law_same_messages_same_view(a, b, order_a, order_b, clock_a, clock_b);
}

/// Heads are applied, and no applied message links one.
pub proof fn law_heads_are_unlinked(dag: MessageDag, head: MessageId, child: MessageId)
    requires
        dag.wf(),
        heads_of(dag.history()).contains(head),
        dag.history().contains_key(child),
    ensures
        dag.history().contains_key(head),
        !dag.history()[child].parents.contains(head),
{
    if dag.history()[child].parents.contains(head) {
        assert(linked(dag.history(), head));
    }
}

/// In a display order every message comes after all of its parents.
pub proof fn law_parents_come_first(
    history: Map<MessageId, MessageView>,
    order: Seq<MessageId>,
    at: int,
    parent: MessageId,
)
    requires
        is_display_order(history, order),
        0 <= at < order.len(),
        history[order[at]].parents.contains(parent),
    ensures
        exists|i: int| 0 <= i < at && order[i] == parent,
{
    assert(follows_first(history, order.take(at).to_set(), order[at]));
    let k = choose|k: int|
        0 <= k < history[order[at]].parents.len() && history[order[at]].parents[k] == parent;
    assert(order.take(at).to_set().contains(history[order[at]].parents[k]));
    let i = choose|i: int| 0 <= i < at && order.take(at)[i] == parent;
    assert(order[i] == parent);
}

/// History only grows: a message that may be shown stays, whatever arrives.
pub proof fn law_history_only_grows(known: Map<MessageId, MessageView>, m: MessageView, id: MessageId)
    requires
        history_of(known).contains_key(id),
    ensures
        history_of(learn(known, m)).contains_key(id),
        history_of(learn(known, m))[id] == history_of(known)[id],
{
    let more = learn(known, m);
    assert(known.submap_of(more)) by {
        assert forall|k: MessageId| #[trigger] known.dom().contains(k) implies more.dom().contains(k) && known[k]
            == more[k] by {}
    }
    lemma_settled_parents(known, id);
    lemma_settled_stays(known, more, id);
}

/// Nothing is held back without cause: a message is shown as soon as it and all that
/// it names as parents are, and only then. One without parents is shown at once.
pub proof fn law_complete_ancestry_is_shown(known: Map<MessageId, MessageView>, id: MessageId)
    ensures
        history_of(known).contains_key(id) <==> {
            &&& known.contains_key(id)
            &&& forall|i: int|
                0 <= i < known[id].parents.len() ==> history_of(known).contains_key(
                    #[trigger] known[id].parents[i],
                )
        },
        history_of(known).contains_key(id) ==> history_of(known)[id] == known[id],
        known.contains_key(id) && known[id].parents.len() == 0 ==> history_of(known).contains_key(id),
{
    if settled(known, id) {
        lemma_settled_parents(known, id);
        assert forall|i: int| 0 <= i < known[id].parents.len() implies history_of(known).contains_key(
            #[trigger] known[id].parents[i],
        ) by {
            assert(settled(known, known[id].parents[i]));
        }
    }
    if known.contains_key(id) && forall|i: int|
        0 <= i < known[id].parents.len() ==> history_of(known).contains_key(
            #[trigger] known[id].parents[i],
        ) {
        assert forall|i: int| 0 <= i < known[id].parents.len() implies settled(
            known,
            #[trigger] known[id].parents[i],
        ) by {
            assert(history_of(known).contains_key(known[id].parents[i]));
        }
        lemma_settles(known, id);
    }
}

/// Every message heard is remembered, as it was first heard, and nothing is forgotten
/// on its account.
pub proof fn law_every_message_is_remembered(
    known: Map<MessageId, MessageView>,
    m: MessageView,
    id: MessageId,
)
    ensures
        learn(known, m).contains_key(m.id),
        !known.contains_key(m.id) ==> learn(known, m)[m.id] == m,
        known.contains_key(id) ==> learn(known, m).contains_key(id) && learn(known, m)[id]
            == known[id],
        learn(known, m).contains_key(id) ==> known.contains_key(id) || id == m.id,
        known.contains_key(m.id) ==> learn(known, m) == known,
{
}

/// A message whose parents are all shown is shown once it is heard.
pub proof fn law_a_timely_message_is_shown(known: Map<MessageId, MessageView>, m: MessageView)
    requires
        !known.contains_key(m.id),
        forall|i: int|
            0 <= i < m.parents.len() ==> history_of(known).contains_key(#[trigger] m.parents[i]),
    ensures
        history_of(learn(known, m)).contains_key(m.id),
        history_of(learn(known, m))[m.id] == m,
{
    let more = learn(known, m);
    assert forall|i: int| 0 <= i < more[m.id].parents.len() implies history_of(more).contains_key(
        #[trigger] more[m.id].parents[i],
    ) by {
        assert(history_of(known).contains_key(m.parents[i]));
        law_history_only_grows(known, m, m.parents[i]);
    }
    law_complete_ancestry_is_shown(more, m.id);
}

/// What is missing of a message is each parent that is not shown, and nothing else.
pub proof fn law_gaps_name_what_is_missing(parents: Seq<MessageId>, applied: Set<MessageId>, id: MessageId)
    ensures
        missing_from(parents, applied).contains(id) <==> parents.contains(id) && !applied.contains(id),
        missing_from(parents, applied).len() == 0 <==> forall|i: int|
            0 <= i < parents.len() ==> applied.contains(#[trigger] parents[i]),
{
    lemma_missing(parents, applied);
    let f = |p: MessageId| !applied.contains(p);
    let missing = missing_from(parents, applied);
    if missing.contains(id) {
        let j = choose|j: int| 0 <= j < missing.len() && missing[j] == id;
        parents.filter_lemma(f);
    }
    if parents.contains(id) && !applied.contains(id) {
        let i = choose|i: int| 0 <= i < parents.len() && parents[i] == id;
        parents.filter_lemma(f);
    }
    if forall|i: int| 0 <= i < parents.len() ==> applied.contains(#[trigger] parents[i]) {
        parents.filter_lemma(f);
        if missing.len() > 0 {
            assert(f(missing[0]));
            assert(missing.contains(missing[0]));
        }
    }
    if missing.len() == 0 {
        assert forall|i: int| 0 <= i < parents.len() implies applied.contains(#[trigger] parents[i]) by {
            if !applied.contains(parents[i]) {
                parents.filter_lemma(f);
                assert(missing.contains(parents[i]));
            }
        }
    }
}

/// What a graph asks its peers for: each parent that a waiting message names and that
/// was never heard, and nothing that was.
pub proof fn law_gaps_are_asked_for(
    known: Map<MessageId, MessageView>,
    child: MessageId,
    parent: MessageId,
)
    requires
        known.contains_key(child),
        known[child].parents.contains(parent),
    ensures
        !known.contains_key(parent) ==> gaps_of(known).contains(parent),
        known.contains_key(parent) ==> !gaps_of(known).contains(parent),
{
    if !known.contains_key(parent) {
        assert(!settled(known, child)) by {
            if settled(known, child) {
                lemma_settled_parents(known, child);
                assert(settled(known, parent));
                lemma_settled_parents(known, parent);
            }
        }
        assert(waits_on(known, child, parent));
    }
}

/// A message that links the heads follows everything shown: each shown message is a
/// head, or something shown builds on it.
pub proof fn law_heads_cover_the_history(history: Map<MessageId, MessageView>, id: MessageId)
    requires
        history.contains_key(id),
    ensures
        heads_of(history).contains(id) || exists|child: MessageId|
            history.contains_key(child) && (#[trigger] history[child]).parents.contains(id),
        heads_of(history).contains(id) ==> !exists|child: MessageId|
            history.contains_key(child) && (#[trigger] history[child]).parents.contains(id),
{
}

/// In a display order, two messages that could both come next come by their counters,
/// then by their authors, then by their ids.
pub proof fn law_ties_are_broken_alike(a: MessageView, b: MessageView)
    ensures
        a.lamport < b.lamport ==> display_key(a).before(display_key(b)),
        a.lamport == b.lamport && a.author.before(b.author) ==> display_key(a).before(
            display_key(b),
        ),
        a.lamport == b.lamport && a.author == b.author && a.id.before(b.id) ==> display_key(
            a,
        ).before(display_key(b)),
{
}

/// A display order shows every message of a history once, and nothing else.
pub proof fn law_every_message_is_shown_once(
    history: Map<MessageId, MessageView>,
    order: Seq<MessageId>,
    id: MessageId,
)
    requires
        is_display_order(history, order),
    ensures
        order.contains(id) <==> history.contains_key(id),
        order.no_duplicates(),
{
    if order.contains(id) {
        let i = choose|i: int| 0 <= i < order.len() && order[i] == id;
        assert(follows_first(history, order.take(i).to_set(), order[i]));
    }
    assert forall|i: int, j: int| 0 <= i < order.len() && 0 <= j < order.len() && i != j implies order[i]
        != order[j] by {
        let (lo, hi) = if i < j {
            (i, j)
        } else {
            (j, i)
        };
        assert(follows_first(history, order.take(hi).to_set(), order[hi]));
        assert(order.take(hi)[lo] == order[lo]);
        assert(order.take(hi).to_set().contains(order[lo]));
    }
}

/// The clock is the highest counter of what is shown: none is above it, and it is one of
/// them, or zero. So a message one past it follows everything shown.
pub proof fn law_the_clock_is_past_everything(
    history: Map<MessageId, MessageView>,
    clock: u64,
    other: u64,
    id: MessageId,
)
    requires
        is_max_lamport(history, clock),
    ensures
        history.contains_key(id) ==> history[id].lamport <= clock,
        is_max_lamport(history, other) ==> other == clock,
        clock > 0 ==> exists|x: MessageId|
            history.contains_key(x) && (#[trigger] history[x]).lamport == clock,
{
}

} // verus!

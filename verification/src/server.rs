//! The fan-out policy: a registry of subscribers, each behind a bounded
//! queue, to which every emitted summary is broadcast.
//!
//! Each subscriber owns a queue of at most `SUBSCRIBER_CAPACITY` pending
//! summaries.  A broadcast appends the new summary to every queue with room
//! and evicts every subscriber whose queue is full: a slow consumer can
//! therefore never block the broadcaster or the other subscribers.  Each
//! subscriber sees the emission sequence from its join point onward, in
//! order, with nothing skipped or repeated.

use vstd::prelude::*;

verus! {

use crate::types::{WireSummary, WireSummaryV};

/// How many undrained summaries a subscriber may hold before the next
/// broadcast evicts it.
pub const SUBSCRIBER_CAPACITY: usize = 4;

/// The mathematical content of one subscriber: its identity, the point of
/// the emission sequence at which it joined, what it has drained, and what
/// still waits in its queue.
#[verifier::ext_equal]
pub struct SlotV {
    pub id: int,
    pub joined_at: int,
    pub delivered: Seq<WireSummaryV>,
    pub queue: Seq<WireSummaryV>,
}

/// The mathematical content of the fan-out: the live subscribers, the next
/// fresh identity, and everything emitted so far.
#[verifier::ext_equal]
pub struct FanoutV {
    pub targets: Seq<SlotV>,
    pub next_id: int,
    pub emitted: Seq<WireSummaryV>,
}

/// The views of the summaries in a queue.
pub open spec fn wire_views(q: Seq<WireSummary>) -> Seq<WireSummaryV> {
    q.map_values(|w: WireSummary| w@)
}

/// One live subscriber: a bounded queue of pending summaries, plus the
/// ghost record of its identity, join point and drained prefix.
pub struct SubscriberSlot {
    pub id: usize,
    pub queue: Vec<WireSummary>,
    pub delivered: Ghost<Seq<WireSummaryV>>,
    pub joined_at: Ghost<int>,
}

impl View for SubscriberSlot {
    type V = SlotV;

    open spec fn view(&self) -> SlotV {
        SlotV {
            id: self.id as int,
            joined_at: self.joined_at@,
            delivered: self.delivered@,
            queue: wire_views(self.queue@),
        }
    }
}

/// The views of a sequence of subscriber slots.
pub open spec fn slot_views(ts: Seq<SubscriberSlot>) -> Seq<SlotV> {
    ts.map_values(|t: SubscriberSlot| t@)
}

/// The fan-out registry: the live subscribers, the next fresh identity,
/// and the ghost emission history.
pub struct Fanout {
    pub targets: Vec<SubscriberSlot>,
    pub next_id: usize,
    pub emitted: Ghost<Seq<WireSummaryV>>,
}

impl View for Fanout {
    type V = FanoutV;

    open spec fn view(&self) -> FanoutV {
        FanoutV {
            targets: slot_views(self.targets@),
            next_id: self.next_id as int,
            emitted: self.emitted@,
        }
    }
}

/// A subscriber as registered: fresh identity, empty queue, joined at the
/// current end of the emission sequence.
pub open spec fn spec_fresh_slot(f: FanoutV) -> SlotV {
    SlotV {
        id: f.next_id,
        joined_at: f.emitted.len() as int,
        delivered: Seq::empty(),
        queue: Seq::empty(),
    }
}

/// The fan-out after a subscriber registers.
pub open spec fn spec_register(f: FanoutV) -> FanoutV {
    FanoutV {
        targets: f.targets.push(spec_fresh_slot(f)),
        next_id: f.next_id + 1,
        emitted: f.emitted,
    }
}

/// `t` after one summary is put on its queue.
pub open spec fn spec_slot_pushed(t: SlotV, v: WireSummaryV) -> SlotV {
    SlotV { id: t.id, joined_at: t.joined_at, delivered: t.delivered, queue: t.queue.push(v) }
}

/// The subscribers surviving a broadcast of `v`: those with room receive
/// `v`, in order; a full queue means eviction.
pub open spec fn spec_surviving(ts: Seq<SlotV>, v: WireSummaryV) -> Seq<SlotV>
    decreases ts.len(),
{
    if ts.len() == 0 {
        Seq::empty()
    } else if ts[0].queue.len() < SUBSCRIBER_CAPACITY {
        seq![spec_slot_pushed(ts[0], v)] + spec_surviving(ts.skip(1), v)
    } else {
        spec_surviving(ts.skip(1), v)
    }
}

/// The fan-out after one summary is broadcast.
pub open spec fn spec_broadcast(f: FanoutV, v: WireSummaryV) -> FanoutV {
    FanoutV {
        targets: spec_surviving(f.targets, v),
        next_id: f.next_id,
        emitted: f.emitted.push(v),
    }
}

/// The fan-out after the subscriber at index `i` takes the head of its
/// queue.
pub open spec fn spec_drain(f: FanoutV, i: int) -> FanoutV {
    let t = f.targets[i];
    let u = SlotV {
        id: t.id,
        joined_at: t.joined_at,
        delivered: t.delivered.push(t.queue[0]),
        queue: t.queue.skip(1),
    };
    FanoutV { targets: f.targets.update(i, u), next_id: f.next_id, emitted: f.emitted }
}

/// One subscriber is consistent with the emission history: its queue is
/// bounded, and what it drained followed by what still waits is exactly
/// the emission sequence from its join point.
pub open spec fn spec_slot_wf(t: SlotV, emitted: Seq<WireSummaryV>) -> bool {
    &&& t.queue.len() <= SUBSCRIBER_CAPACITY
    &&& 0 <= t.joined_at
    &&& t.joined_at + t.delivered.len() + t.queue.len() == emitted.len()
    &&& t.delivered + t.queue == emitted.skip(t.joined_at)
}

/// The fan-out is consistent: every subscriber is consistent with the
/// emission history and identities are fresh and distinct.
pub open spec fn spec_fanout_wf(f: FanoutV) -> bool {
    &&& forall|i: int|
        0 <= i < f.targets.len() ==> spec_slot_wf(#[trigger] f.targets[i], f.emitted)
    &&& forall|i: int| 0 <= i < f.targets.len() ==> (#[trigger] f.targets[i]).id < f.next_id
    &&& forall|i: int, j: int|
        0 <= i < j < f.targets.len() ==> (#[trigger] f.targets[i]).id != (#[trigger] f.targets[j]).id
}

/// Each subscriber's stream is a contiguous run of the emission sequence
/// from its join point: in order, nothing skipped, nothing repeated.  A
/// subscriber that joined before the first emission holds a prefix of the
/// whole emission sequence.
pub proof fn lemma_subscriber_stream(f: FanoutV, i: int)
    requires
        spec_fanout_wf(f),
        0 <= i < f.targets.len(),
    ensures
        f.targets[i].delivered + f.targets[i].queue == f.emitted.skip(f.targets[i].joined_at),
        f.targets[i].joined_at == 0 ==> f.targets[i].delivered + f.targets[i].queue == f.emitted,
{
    assert(f.emitted.skip(0) =~= f.emitted);
}

/// Registration preserves consistency.
pub proof fn lemma_register_wf(f: FanoutV)
    requires
        spec_fanout_wf(f),
    ensures
        spec_fanout_wf(spec_register(f)),
{
    let g = spec_register(f);
    let fresh = spec_fresh_slot(f);
    assert(fresh.delivered + fresh.queue =~= f.emitted.skip(f.emitted.len() as int));
    assert(forall|i: int| 0 <= i < f.targets.len() ==> g.targets[i] == f.targets[i]);
    assert(g.targets[f.targets.len() as int] == fresh);
}

/// Every subscriber surviving a broadcast is some prior subscriber that
/// had room, with the new summary appended to its queue.
proof fn lemma_surviving_origin(ts: Seq<SlotV>, v: WireSummaryV, k: int)
    requires
        0 <= k < spec_surviving(ts, v).len(),
    ensures
        exists|j: int|
            0 <= j < ts.len() && (#[trigger] ts[j]).queue.len() < SUBSCRIBER_CAPACITY
                && spec_surviving(ts, v)[k] == spec_slot_pushed(ts[j], v),
    decreases ts.len(),
{
    if ts.len() > 0 {
        let rest = spec_surviving(ts.skip(1), v);
        if ts[0].queue.len() < SUBSCRIBER_CAPACITY {
            if k == 0 {
                assert(ts[0].queue.len() < SUBSCRIBER_CAPACITY && spec_surviving(ts, v)[0]
                    == spec_slot_pushed(ts[0], v));
            } else {
                assert(spec_surviving(ts, v)[k] == rest[k - 1]);
                lemma_surviving_origin(ts.skip(1), v, k - 1);
                let j0 = choose|j: int|
                    0 <= j < ts.skip(1).len() && (#[trigger] ts.skip(1)[j]).queue.len()
                        < SUBSCRIBER_CAPACITY && rest[k - 1] == spec_slot_pushed(ts.skip(1)[j], v);
                assert(ts.skip(1)[j0] == ts[j0 + 1]);
                assert(ts[j0 + 1].queue.len() < SUBSCRIBER_CAPACITY && spec_surviving(ts, v)[k]
                    == spec_slot_pushed(ts[j0 + 1], v));
            }
        } else {
            lemma_surviving_origin(ts.skip(1), v, k);
            let j0 = choose|j: int|
                0 <= j < ts.skip(1).len() && (#[trigger] ts.skip(1)[j]).queue.len()
                    < SUBSCRIBER_CAPACITY && spec_surviving(ts, v)[k] == spec_slot_pushed(
                    ts.skip(1)[j],
                    v,
                );
            assert(ts.skip(1)[j0] == ts[j0 + 1]);
            assert(ts[j0 + 1].queue.len() < SUBSCRIBER_CAPACITY && spec_surviving(ts, v)[k]
                == spec_slot_pushed(ts[j0 + 1], v));
        }
    }
}

/// A broadcast preserves consistency.
pub proof fn lemma_broadcast_wf(f: FanoutV, v: WireSummaryV)
    requires
        spec_fanout_wf(f),
    ensures
        spec_fanout_wf(spec_broadcast(f, v)),
{
    let g = spec_broadcast(f, v);
    assert forall|k: int| 0 <= k < g.targets.len() implies spec_slot_wf(
        #[trigger] g.targets[k],
        g.emitted,
    ) && g.targets[k].id < g.next_id by {
        lemma_surviving_origin(f.targets, v, k);
        let j = choose|j: int|
            0 <= j < f.targets.len() && (#[trigger] f.targets[j]).queue.len()
                < SUBSCRIBER_CAPACITY && g.targets[k] == spec_slot_pushed(f.targets[j], v);
        let t = f.targets[j];
        let u = g.targets[k];
        assert(spec_slot_wf(t, f.emitted));
        assert(u.delivered + u.queue =~= (t.delivered + t.queue).push(v));
        assert((t.delivered + t.queue).push(v) =~= f.emitted.skip(t.joined_at).push(v));
        assert(f.emitted.skip(t.joined_at).push(v) =~= g.emitted.skip(u.joined_at));
    }
    assert forall|i: int, j: int| 0 <= i < j < g.targets.len() implies (
    #[trigger] g.targets[i]).id != (#[trigger] g.targets[j]).id by {
        lemma_surviving_distinct(f.targets, v, i, j);
    }
}

/// Surviving subscribers keep their relative order, so they originate from
/// strictly increasing prior positions; with distinct prior identities,
/// the survivors' identities stay distinct.
proof fn lemma_surviving_distinct(ts: Seq<SlotV>, v: WireSummaryV, i: int, j: int)
    requires
        0 <= i < j < spec_surviving(ts, v).len(),
        forall|p: int, q: int|
            0 <= p < q < ts.len() ==> (#[trigger] ts[p]).id != (#[trigger] ts[q]).id,
    ensures
        spec_surviving(ts, v)[i].id != spec_surviving(ts, v)[j].id,
    decreases ts.len(),
{
    let s = spec_surviving(ts, v);
    if ts.len() > 0 {
        let rest = spec_surviving(ts.skip(1), v);
        assert(forall|p: int, q: int|
            0 <= p < q < ts.skip(1).len() ==> (#[trigger] ts.skip(1)[p]).id != (
            #[trigger] ts.skip(1)[q]).id) by {
            assert(forall|p: int|
                0 <= p < ts.skip(1).len() ==> #[trigger] ts.skip(1)[p] == ts[p + 1]);
        }
        if ts[0].queue.len() < SUBSCRIBER_CAPACITY {
            if i == 0 {
                assert(s[j] == rest[j - 1]);
                lemma_surviving_origin(ts.skip(1), v, j - 1);
                let j0 = choose|q: int|
                    0 <= q < ts.skip(1).len() && (#[trigger] ts.skip(1)[q]).queue.len()
                        < SUBSCRIBER_CAPACITY && rest[j - 1] == spec_slot_pushed(ts.skip(1)[q], v);
                assert(ts.skip(1)[j0] == ts[j0 + 1]);
                assert(ts[0].id != ts[j0 + 1].id);
            } else {
                assert(s[i] == rest[i - 1]);
                assert(s[j] == rest[j - 1]);
                lemma_surviving_distinct(ts.skip(1), v, i - 1, j - 1);
            }
        } else {
            lemma_surviving_distinct(ts.skip(1), v, i, j);
        }
    }
}

/// Draining one summary preserves consistency.
pub proof fn lemma_drain_wf(f: FanoutV, i: int)
    requires
        spec_fanout_wf(f),
        0 <= i < f.targets.len(),
        f.targets[i].queue.len() > 0,
    ensures
        spec_fanout_wf(spec_drain(f, i)),
{
    let g = spec_drain(f, i);
    let t = f.targets[i];
    let u = g.targets[i];
    assert(u.delivered + u.queue =~= t.delivered + t.queue);
    assert(forall|k: int| 0 <= k < f.targets.len() && k != i ==> g.targets[k] == f.targets[k]);
}

/// The fan-out after broadcasting each summary of `msgs` in turn, with no
/// subscriber draining in between.
pub open spec fn spec_broadcast_n(f: FanoutV, msgs: Seq<WireSummaryV>) -> FanoutV
    decreases msgs.len(),
{
    if msgs.len() == 0 {
        f
    } else {
        spec_broadcast_n(spec_broadcast(f, msgs[0]), msgs.skip(1))
    }
}

/// Queues only grow while nobody drains: if every subscriber already holds
/// at least `c` pending summaries, then after `msgs` are broadcast every
/// surviving subscriber holds at least `c + msgs.len()`.
proof fn lemma_broadcast_n_growth(f: FanoutV, msgs: Seq<WireSummaryV>, c: int)
    requires
        forall|i: int| 0 <= i < f.targets.len() ==> (#[trigger] f.targets[i]).queue.len() >= c,
    ensures
        forall|i: int|
            0 <= i < spec_broadcast_n(f, msgs).targets.len() ==> (#[trigger] spec_broadcast_n(
                f,
                msgs,
            ).targets[i]).queue.len() >= c + msgs.len(),
    decreases msgs.len(),
{
    if msgs.len() > 0 {
        let g = spec_broadcast(f, msgs[0]);
        assert forall|i: int| 0 <= i < g.targets.len() implies (
        #[trigger] g.targets[i]).queue.len() >= c + 1 by {
            lemma_surviving_origin(f.targets, msgs[0], i);
        }
        lemma_broadcast_n_growth(g, msgs.skip(1), c + 1);
        assert(spec_broadcast_n(f, msgs) == spec_broadcast_n(g, msgs.skip(1)));
        assert forall|i: int|
            0 <= i < spec_broadcast_n(f, msgs).targets.len() implies (
        #[trigger] spec_broadcast_n(f, msgs).targets[i]).queue.len() >= c + msgs.len() by {
            assert(spec_broadcast_n(g, msgs.skip(1)).targets[i].queue.len() >= c + 1 + msgs.skip(
                1,
            ).len());
        }
    }
}

/// Consistency is kept across any run of broadcasts.
proof fn lemma_broadcast_n_wf(f: FanoutV, msgs: Seq<WireSummaryV>)
    requires
        spec_fanout_wf(f),
    ensures
        spec_fanout_wf(spec_broadcast_n(f, msgs)),
    decreases msgs.len(),
{
    if msgs.len() > 0 {
        lemma_broadcast_wf(f, msgs[0]);
        lemma_broadcast_n_wf(spec_broadcast(f, msgs[0]), msgs.skip(1));
    }
}

/// A subscriber that never drains is evicted after at most
/// `SUBSCRIBER_CAPACITY + 1` emissions: its queue can absorb
/// `SUBSCRIBER_CAPACITY` of them and the next broadcast's failed delivery
/// evicts it.  So when no subscriber drains while that many summaries are
/// broadcast, none survives.
pub proof fn lemma_slow_subscribers_evicted(f: FanoutV, msgs: Seq<WireSummaryV>)
    requires
        spec_fanout_wf(f),
        msgs.len() >= SUBSCRIBER_CAPACITY + 1,
    ensures
        spec_broadcast_n(f, msgs).targets.len() == 0,
{
    let g = spec_broadcast_n(f, msgs);
    lemma_broadcast_n_wf(f, msgs);
    lemma_broadcast_n_growth(f, msgs, 0);
    if g.targets.len() > 0 {
        assert(g.targets[0].queue.len() >= msgs.len());
        assert(spec_slot_wf(g.targets[0], g.emitted));
    }
}

/// One event at the fan-out: a summary is emitted to every subscriber, or
/// the subscriber with a given identity takes the head of its queue.
pub enum FanEvent {
    Emit(WireSummaryV),
    Drain(int),
}

/// The position of the subscriber with identity `id`, if it is live.
pub open spec fn spec_find_id(ts: Seq<SlotV>, id: int) -> Option<int>
    decreases ts.len(),
{
    if ts.len() == 0 {
        None
    } else if ts[0].id == id {
        Some(0)
    } else {
        match spec_find_id(ts.skip(1), id) {
            Some(i) => Some(i + 1),
            None => None,
        }
    }
}

/// Whether a subscriber with identity `id` is live.
pub open spec fn spec_has_id(ts: Seq<SlotV>, id: int) -> bool {
    spec_find_id(ts, id) is Some
}

/// The fan-out after one event.  A drain for an absent subscriber or an
/// empty queue changes nothing.
pub open spec fn spec_step(f: FanoutV, ev: FanEvent) -> FanoutV {
    match ev {
        FanEvent::Emit(v) => spec_broadcast(f, v),
        FanEvent::Drain(id) => match spec_find_id(f.targets, id) {
            Some(i) => if f.targets[i].queue.len() > 0 {
                spec_drain(f, i)
            } else {
                f
            },
            None => f,
        },
    }
}

/// The fan-out after a run of events.
pub open spec fn spec_run(f: FanoutV, evs: Seq<FanEvent>) -> FanoutV
    decreases evs.len(),
{
    if evs.len() == 0 {
        f
    } else {
        spec_run(spec_step(f, evs[0]), evs.skip(1))
    }
}

/// How many of the events are emissions.
pub open spec fn spec_emit_count(evs: Seq<FanEvent>) -> int
    decreases evs.len(),
{
    if evs.len() == 0 {
        0int
    } else {
        (match evs[0] {
            FanEvent::Emit(_) => 1int,
            FanEvent::Drain(_) => 0int,
        }) + spec_emit_count(evs.skip(1))
    }
}

/// What a found position means, and what not finding one means.
proof fn lemma_find_id_props(ts: Seq<SlotV>, id: int)
    ensures
        match spec_find_id(ts, id) {
            Some(i) => 0 <= i < ts.len() && ts[i].id == id,
            None => forall|k: int| 0 <= k < ts.len() ==> (#[trigger] ts[k]).id != id,
        },
    decreases ts.len(),
{
    if ts.len() > 0 && ts[0].id != id {
        lemma_find_id_props(ts.skip(1), id);
        assert(forall|k: int| 0 <= k < ts.skip(1).len() ==> #[trigger] ts.skip(1)[k] == ts[k + 1]);
        match spec_find_id(ts.skip(1), id) {
            Some(i) => {
                assert(spec_find_id(ts, id) == Some(i + 1));
                assert(ts.skip(1)[i] == ts[i + 1]);
            },
            None => {
                assert forall|k: int| 0 <= k < ts.len() implies (#[trigger] ts[k]).id != id by {
                    if k > 0 {
                        assert(ts.skip(1)[k - 1] == ts[k]);
                    }
                }
            },
        }
    }
}

/// Replacing a slot with one of the same identity moves no position.
proof fn lemma_find_id_update(ts: Seq<SlotV>, j: int, u: SlotV, id: int)
    requires
        0 <= j < ts.len(),
        u.id == ts[j].id,
    ensures
        spec_find_id(ts.update(j, u), id) == spec_find_id(ts, id),
    decreases ts.len(),
{
    let up = ts.update(j, u);
    if j == 0 {
        assert(up[0].id == ts[0].id);
        if ts[0].id != id {
            assert(up.skip(1) =~= ts.skip(1));
        }
    } else {
        assert(up[0] == ts[0]);
        assert(up.skip(1) =~= ts.skip(1).update(j - 1, u));
        assert(ts.skip(1)[j - 1] == ts[j]);
        lemma_find_id_update(ts.skip(1), j - 1, u, id);
    }
}

/// No new identity appears among the survivors of a broadcast.
proof fn lemma_surviving_absent(ts: Seq<SlotV>, v: WireSummaryV, x: int)
    requires
        forall|k: int| 0 <= k < ts.len() ==> (#[trigger] ts[k]).id != x,
    ensures
        spec_find_id(spec_surviving(ts, v), x) is None,
    decreases ts.len(),
{
    if ts.len() > 0 {
        assert(forall|k: int| 0 <= k < ts.skip(1).len() ==> #[trigger] ts.skip(1)[k] == ts[k + 1]);
        lemma_surviving_absent(ts.skip(1), v, x);
        if ts[0].queue.len() < SUBSCRIBER_CAPACITY {
            let c = seq![spec_slot_pushed(ts[0], v)] + spec_surviving(ts.skip(1), v);
            assert(c[0].id == ts[0].id);
            assert(c.skip(1) =~= spec_surviving(ts.skip(1), v));
        }
    }
}

/// Through a broadcast, a subscriber with room keeps its place with the
/// summary appended; one with a full queue disappears.
proof fn lemma_surviving_id(ts: Seq<SlotV>, v: WireSummaryV, x: int, i: int)
    requires
        forall|p: int, q: int|
            0 <= p < q < ts.len() ==> (#[trigger] ts[p]).id != (#[trigger] ts[q]).id,
        spec_find_id(ts, x) == Some(i),
    ensures
        ts[i].queue.len() < SUBSCRIBER_CAPACITY ==> (match spec_find_id(
            spec_surviving(ts, v),
            x,
        ) {
            Some(j) => 0 <= j < spec_surviving(ts, v).len() && spec_surviving(ts, v)[j]
                == spec_slot_pushed(ts[i], v),
            None => false,
        }),
        ts[i].queue.len() >= SUBSCRIBER_CAPACITY ==> spec_find_id(spec_surviving(ts, v), x)
            is None,
    decreases ts.len(),
{
    lemma_find_id_props(ts, x);
    assert(forall|k: int| 0 <= k < ts.skip(1).len() ==> #[trigger] ts.skip(1)[k] == ts[k + 1]);
    let surv = spec_surviving(ts, v);
    let rest = spec_surviving(ts.skip(1), v);
    if ts[0].id == x {
        assert(i == 0);
        if ts[0].queue.len() < SUBSCRIBER_CAPACITY {
            assert(surv[0] == spec_slot_pushed(ts[0], v));
            assert(spec_find_id(surv, x) == Some(0int));
        } else {
            assert(forall|k: int| 0 <= k < ts.skip(1).len() ==> (#[trigger] ts.skip(1)[k]).id != x);
            lemma_surviving_absent(ts.skip(1), v, x);
        }
    } else {
        assert(spec_find_id(ts.skip(1), x) == Some(i - 1));
        assert(forall|p: int, q: int|
            0 <= p < q < ts.skip(1).len() ==> (#[trigger] ts.skip(1)[p]).id != (
            #[trigger] ts.skip(1)[q]).id);
        lemma_surviving_id(ts.skip(1), v, x, i - 1);
        assert(ts.skip(1)[i - 1] == ts[i]);
        if ts[0].queue.len() < SUBSCRIBER_CAPACITY {
            let c = seq![spec_slot_pushed(ts[0], v)] + rest;
            assert(surv == c);
            assert(c[0].id == ts[0].id);
            assert(c.skip(1) =~= rest);
            assert(forall|k: int| 0 <= k < rest.len() ==> #[trigger] c[k + 1] == rest[k]);
            if ts[i].queue.len() < SUBSCRIBER_CAPACITY {
                let j = choose|j: int| spec_find_id(rest, x) == Some(j);
                assert(spec_find_id(c, x) == Some(j + 1));
                assert(c[j + 1] == rest[j]);
            }
        }
    }
}

/// An identity once gone never returns while only emissions and drains
/// happen.
proof fn lemma_absent_stays(f: FanoutV, ev: FanEvent, x: int)
    requires
        !spec_has_id(f.targets, x),
    ensures
        !spec_has_id(spec_step(f, ev).targets, x),
{
    lemma_find_id_props(f.targets, x);
    match ev {
        FanEvent::Emit(v) => {
            lemma_surviving_absent(f.targets, v, x);
        },
        FanEvent::Drain(id) => {
            match spec_find_id(f.targets, id) {
                Some(i) => {
                    lemma_find_id_props(f.targets, id);
                    if f.targets[i].queue.len() > 0 {
                        let g = spec_drain(f, i);
                        lemma_find_id_update(f.targets, i, g.targets[i], x);
                    }
                },
                None => {},
            }
        },
    }
}

/// One event preserves consistency.
proof fn lemma_step_wf(f: FanoutV, ev: FanEvent)
    requires
        spec_fanout_wf(f),
    ensures
        spec_fanout_wf(spec_step(f, ev)),
{
    match ev {
        FanEvent::Emit(v) => {
            lemma_broadcast_wf(f, v);
        },
        FanEvent::Drain(id) => {
            match spec_find_id(f.targets, id) {
                Some(i) => {
                    lemma_find_id_props(f.targets, id);
                    if f.targets[i].queue.len() > 0 {
                        lemma_drain_wf(f, i);
                    }
                },
                None => {},
            }
        },
    }
}

/// The inductive heart of the eviction bound: a subscriber that never
/// drains needs only enough emissions to fill the room left in its queue,
/// plus one more, to be gone.
proof fn lemma_slow_subscriber_helper(f: FanoutV, evs: Seq<FanEvent>, x: int)
    requires
        spec_fanout_wf(f),
        forall|k: int| 0 <= k < evs.len() ==> evs[k] != FanEvent::Drain(x),
        match spec_find_id(f.targets, x) {
            Some(i) => spec_emit_count(evs) >= SUBSCRIBER_CAPACITY + 1 - f.targets[i].queue.len(),
            None => true,
        },
    ensures
        !spec_has_id(spec_run(f, evs).targets, x),
    decreases evs.len(),
{
    lemma_find_id_props(f.targets, x);
    if evs.len() == 0 {
        match spec_find_id(f.targets, x) {
            Some(i) => {
                assert(spec_slot_wf(f.targets[i], f.emitted));
                assert(false);
            },
            None => {},
        }
    } else {
        let ev = evs[0];
        let g = spec_step(f, ev);
        lemma_step_wf(f, ev);
        assert(forall|k: int|
            0 <= k < evs.skip(1).len() ==> #[trigger] evs.skip(1)[k] == evs[k + 1]);
        match spec_find_id(f.targets, x) {
            None => {
                lemma_absent_stays(f, ev, x);
                lemma_find_id_props(g.targets, x);
                lemma_slow_subscriber_helper(g, evs.skip(1), x);
            },
            Some(i) => {
                match ev {
                    FanEvent::Emit(v) => {
                        lemma_surviving_id(f.targets, v, x, i);
                        if f.targets[i].queue.len() < SUBSCRIBER_CAPACITY {
                            let j = choose|j: int| spec_find_id(g.targets, x) == Some(j);
                            assert(g.targets[j] == spec_slot_pushed(f.targets[i], v));
                            assert(g.targets[j].queue.len() == f.targets[i].queue.len() + 1);
                        }
                        lemma_slow_subscriber_helper(g, evs.skip(1), x);
                    },
                    FanEvent::Drain(y) => {
                        assert(y != x);
                        match spec_find_id(f.targets, y) {
                            Some(jy) => {
                                lemma_find_id_props(f.targets, y);
                                if f.targets[jy].queue.len() > 0 {
                                    let u = spec_drain(f, jy).targets[jy];
                                    lemma_find_id_update(f.targets, jy, u, x);
                                    assert(f.targets[jy].id == y);
                                    assert(f.targets[i].id == x);
                                    assert(i != jy);
                                    assert(g.targets[i] == f.targets[i]);
                                }
                            },
                            None => {},
                        }
                        lemma_slow_subscriber_helper(g, evs.skip(1), x);
                    },
                }
            },
        }
    }
}

/// A subscriber that never drains is evicted after at most
/// `SUBSCRIBER_CAPACITY + 1` emissions, whatever the other subscribers
/// do: its queue absorbs `SUBSCRIBER_CAPACITY` summaries and the next
/// delivery attempt fails and evicts it.
pub proof fn lemma_slow_subscriber_evicted(f: FanoutV, evs: Seq<FanEvent>, x: int)
    requires
        spec_fanout_wf(f),
        forall|k: int| 0 <= k < evs.len() ==> evs[k] != FanEvent::Drain(x),
        match spec_find_id(f.targets, x) {
            Some(i) => f.targets[i].queue.len() == 0,
            None => true,
        },
        spec_emit_count(evs) >= SUBSCRIBER_CAPACITY + 1,
    ensures
        !spec_has_id(spec_run(f, evs).targets, x),
{
    lemma_slow_subscriber_helper(f, evs, x);
}

impl Fanout {
    /// An empty registry with no emission yet.
    pub fn new() -> (r: Fanout)
        ensures
            r@.targets.len() == 0,
            r@.next_id == 0,
            r@.emitted.len() == 0,
            spec_fanout_wf(r@),
    {
        let r = Fanout { targets: Vec::new(), next_id: 0, emitted: Ghost(Seq::empty()) };
        proof {
            assert(slot_views(r.targets@) =~= Seq::<SlotV>::empty());
        }
        r
    }

    /// Registers a new subscriber and returns its identity.
    pub fn register(&mut self) -> (id: usize)
        requires
            old(self).next_id < usize::MAX,
        ensures
            final(self)@ == spec_register(old(self)@),
            id == old(self).next_id,
    {
        let ghost oldv = self@;
        let id = self.next_id;
        self.next_id = self.next_id + 1;
        let slot = SubscriberSlot {
            id,
            queue: Vec::new(),
            delivered: Ghost(Seq::empty()),
            joined_at: Ghost(self.emitted@.len() as int),
        };
        proof {
            assert(wire_views(slot.queue@) =~= Seq::<WireSummaryV>::empty());
            assert(slot@ =~= spec_fresh_slot(oldv));
        }
        self.targets.push(slot);
        proof {
            assert(slot_views(self.targets@) =~= oldv.targets.push(spec_fresh_slot(oldv)));
            assert(self@ =~= spec_register(oldv));
        }
        id
    }

    /// Broadcasts one summary: every subscriber with room receives a copy;
    /// every subscriber with a full queue is evicted.
    pub fn broadcast(&mut self, s: &WireSummary)
        ensures
            final(self)@ == spec_broadcast(old(self)@, s@),
    {
        let ghost oldv = self@;
        let mut pending: Vec<SubscriberSlot> = Vec::new();
        core::mem::swap(&mut pending, &mut self.targets);
        let ghost orig = slot_views(pending@);
        let mut kept: Vec<SubscriberSlot> = Vec::new();
        proof {
            assert(slot_views(kept@) + spec_surviving(slot_views(pending@), s@) =~= spec_surviving(
                orig,
                s@,
            ));
        }
        while pending.len() > 0
            invariant
                slot_views(kept@) + spec_surviving(slot_views(pending@), s@) == spec_surviving(
                    orig,
                    s@,
                ),
            decreases pending@.len(),
        {
            let ghost pv = slot_views(pending@);
            let mut t = pending.remove(0);
            proof {
                assert(slot_views(pending@) =~= pv.skip(1));
            }
            if t.queue.len() < SUBSCRIBER_CAPACITY {
                let ghost tv = t@;
                let w = s.clone();
                proof {
                    assert(w@ =~= s@);
                }
                t.queue.push(w);
                proof {
                    assert(t@ =~= spec_slot_pushed(tv, s@));
                }
                kept.push(t);
                proof {
                    assert(slot_views(kept@) + spec_surviving(slot_views(pending@), s@)
                        =~= spec_surviving(orig, s@));
                }
            }
        }
        self.targets = kept;
        self.emitted = Ghost(self.emitted@.push(s@));
        proof {
            assert(spec_surviving(slot_views(pending@), s@) =~= Seq::<SlotV>::empty());
            assert(slot_views(kept@) =~= spec_surviving(orig, s@));
            assert(self@ =~= spec_broadcast(oldv, s@));
        }
    }

    /// The subscriber at index `i` takes the head of its queue, if any.
    pub fn drain(&mut self, i: usize) -> (r: Option<WireSummary>)
        requires
            i < old(self).targets@.len(),
        ensures
            old(self)@.targets[i as int].queue.len() == 0 ==> r is None && final(self)@ == old(
                self,
            )@,
            old(self)@.targets[i as int].queue.len() > 0 ==> (r matches Some(w) && w@ == old(
                self,
            )@.targets[i as int].queue[0] && final(self)@ == spec_drain(old(self)@, i as int)),
    {
        let ghost oldv = self@;
        let t = &mut self.targets[i];
        if t.queue.len() == 0 {
            proof {
                assert(slot_views(self.targets@) =~= oldv.targets);
                assert(self@ =~= oldv);
            }
            None
        } else {
            let ghost tv = t@;
            let w = t.queue.remove(0);
            t.delivered = Ghost(t.delivered@.push(w@));
            proof {
                assert(wire_views(t.queue@) =~= tv.queue.skip(1));
                assert(tv.queue[0] == w@);
                assert(slot_views(self.targets@) =~= spec_drain(oldv, i as int).targets);
                assert(self@ =~= spec_drain(oldv, i as int));
            }
            Some(w)
        }
    }

    /// How many subscribers are live.
    pub fn len(&self) -> (r: usize)
        ensures
            r == self@.targets.len(),
    {
        self.targets.len()
    }
}

} // verus!

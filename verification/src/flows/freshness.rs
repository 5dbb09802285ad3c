//! What the queues know: every leaf is a candidate for the cap, and in a capture
//! whose packets come in the order of their times every leaf has an alarm no
//! later than it is due. So the cap is kept, it takes the least recently updated
//! leaf, and no leaf that is due outlives a sweep.
use vstd::multiset::Multiset;
use vstd::prelude::*;

use crate::engine::Rules;
use crate::flows::bounds;
use crate::flows::heap::{self, Entry};
use crate::flows::queues;
use crate::flows::state::{
    self, AggregatorConfig, Candidate, GroupKey, Newcomer, Progress, Resolved, Slot, State,
};
use crate::flows::steps;
use crate::flows::stream::{self, CloseReason, StreamId, StreamView};
use crate::flows::tree;
use crate::identity::{Identity, PacketDirection};
use crate::layer::{self, LayerView, PacketMeta, Timestamp};
use crate::packet::Packet;

verus! {

/// Whether slot `i` has a stream without children.
pub open spec fn is_leaf(s: State, i: int) -> bool {
    s.live_at(i) && s.at(i).children.len() == 0
}

/// Whether an entry makes a stream a candidate. A strict one is no later than
/// the stream was last updated.
pub open spec fn is_candidate(lru: Multiset<Entry>, st: StreamView, e: Entry, strict: bool) -> bool {
    &&& lru.count(e) > 0
    &&& state::id_of(e) == st.id
    &&& strict ==> e.time <= st.last_seen && e.seq == st.created_seq
}

pub open spec fn has_candidate(lru: Multiset<Entry>, st: StreamView, strict: bool) -> bool {
    exists|e: Entry| is_candidate(lru, st, e, strict)
}

/// When a stream is due, by its record.
pub open spec fn due_time(config: AggregatorConfig, st: StreamView) -> int {
    let idle = st.last_seen + config.eviction->idle_timeout;
    match st.close_eligible_since {
        Some(since) => if since + config.eviction->close_linger < idle {
            since + config.eviction->close_linger
        } else {
            idle
        },
        None => idle,
    }
}

/// Whether an entry is an alarm that goes off before a stream is due, or then.
pub open spec fn is_alarm(
    expiry: Multiset<Entry>,
    config: AggregatorConfig,
    st: StreamView,
    e: Entry,
) -> bool {
    &&& expiry.count(e) > 0
    &&& state::id_of(e) == st.id
    &&& e.time <= due_time(config, st)
}

pub open spec fn has_alarm(expiry: Multiset<Entry>, config: AggregatorConfig, st: StreamView) -> bool {
    exists|e: Entry| is_alarm(expiry, config, st, e)
}

/// What the queues know of a leaf.
pub open spec fn watched(s: State, st: StreamView, strict: bool) -> bool {
    &&& has_candidate(s.lru, st, strict)
    &&& strict ==> has_alarm(s.expiry, s.config, st)
}

/// The queues know every leaf.
pub open spec fn covered(s: State, strict: bool) -> bool {
    s.config.eviction is Live ==> forall|i: int| #[trigger] is_leaf(s, i) ==> watched(
        s,
        s.at(i),
        strict,
    )
}

/// No stream was updated later than the clock says.
pub open spec fn recent(s: State) -> bool {
    forall|i: int| #[trigger] s.live_at(i) ==> s.at(i).last_seen <= s.clock
}

/// The queues know every leaf and nothing is from the future. Strictly so in a
/// capture whose packets come in order.
pub open spec fn fresh(s: State, strict: bool) -> bool {
    covered(s, strict) && recent(s)
}

/// Whether the queues of `t` know all that those of `s` knew.
pub open spec fn queues_grow(s: State, t: State) -> bool {
    &&& t.config == s.config
    &&& t.clock == s.clock
    &&& forall|e: Entry| #[trigger] s.lru.count(e) > 0 ==> t.lru.count(e) > 0
    &&& forall|e: Entry| #[trigger] s.expiry.count(e) > 0 ==> t.expiry.count(e) > 0
}

/// What the queues know of a record holds of a later record of the same stream.
proof fn lemma_still_watched(s: State, t: State, a: StreamView, b: StreamView, strict: bool)
    requires
        queues_grow(s, t),
        watched(s, a, strict),
        a.id == b.id,
        a.created_seq == b.created_seq,
        strict ==> a.last_seen <= b.last_seen && due_time(s.config, a) <= due_time(s.config, b),
    ensures
        watched(t, b, strict),
{
    let e = choose|e: Entry| is_candidate(s.lru, a, e, strict);
    assert(is_candidate(s.lru, a, e, strict));
    assert(s.lru.count(e) > 0);
    assert(is_candidate(t.lru, b, e, strict));
    if strict {
        let x = choose|x: Entry| is_alarm(s.expiry, s.config, a, x);
        assert(is_alarm(s.expiry, s.config, a, x));
        assert(s.expiry.count(x) > 0);
        assert(is_alarm(t.expiry, t.config, b, x));
    }
}

/// A new state's queues know every leaf if they know all that was known, and
/// each leaf either was one before or is known anew.
proof fn lemma_covered(s: State, t: State, strict: bool)
    requires
        covered(s, strict),
        queues_grow(s, t),
        forall|i: int| #[trigger]
            is_leaf(t, i) ==> watched(t, t.at(i), strict) || t.config.eviction is Never || (is_leaf(
                s,
                i,
            ) && s.at(i).id == t.at(i).id && s.at(i).created_seq == t.at(i).created_seq && (strict
                ==> s.at(i).last_seen <= t.at(i).last_seen && due_time(s.config, s.at(i))
                <= due_time(s.config, t.at(i)))),
    ensures
        covered(t, strict),
{
    if t.config.eviction is Live {
        assert forall|i: int| #[trigger] is_leaf(t, i) implies watched(t, t.at(i), strict) by {
            if !watched(t, t.at(i), strict) {
                assert(is_leaf(s, i));
                lemma_still_watched(s, t, s.at(i), t.at(i), strict);
            }
        }
    }
}

/// Nothing is known too late of an empty store.
pub proof fn nothing_is_overlooked(s: State, strict: bool)
    requires
        s.slots.len() == 0,
    ensures
        fresh(s, strict),
{
}

/// A new stream is known to the queues.
pub proof fn creating_stays_fresh(s: State, n: Newcomer, strict: bool)
    requires
        fresh(s, strict),
        tree::hierarchy(s),
        bounds::timed(s.config),
        s.slots.len() < u32::MAX,
        n.parent is Some ==> s.live(n.parent->0),
        layer::in_time(n.ts),
        n.ts <= s.clock,
    ensures
        fresh(state::created(s, n), strict),
        queues_grow(s, state::created(s, n)),
{
    broadcast use vstd::multiset::group_multiset_axioms;

    let t = state::created(s, n);
    let id = state::next_id(s);
    tree::creating_adds_one(s, n);
    assert(t.get(id) == Some(t.at(id.index as int)));
    assert(queues_grow(s, t));
    assert forall|i: int| #[trigger] t.live_at(i) && i != id.index implies s.live_at(i)
        && t.at(i).id == s.at(i).id && t.at(i).last_seen == s.at(i).last_seen && t.at(
        i,
    ).created_seq == s.at(i).created_seq && t.at(i).close_eligible_since == s.at(
        i,
    ).close_eligible_since && (t.at(i).children.len() == 0 ==> s.at(i).children.len() == 0) by {
        let x = s.at(i).id;
        assert(s.live(x));
        assert(t.live(x));
        assert(t.get(x) == Some(t.at(i)));
    }
    assert forall|i: int| #[trigger] is_leaf(t, i) implies watched(t, t.at(i), strict)
        || t.config.eviction is Never || (is_leaf(s, i) && s.at(i).id == t.at(i).id && s.at(
        i,
    ).created_seq == t.at(i).created_seq && (strict ==> s.at(i).last_seen <= t.at(i).last_seen
        && due_time(s.config, s.at(i)) <= due_time(s.config, t.at(i)))) by {
        assert(t.live_at(i));
        if i == id.index {
            if t.config.eviction is Live {
                let e = Entry {
                    time: n.ts,
                    seq: s.next_seq,
                    index: id.index,
                    generation: id.generation,
                };
                assert(is_candidate(t.lru, t.at(i), e, strict));
                let x = Entry {
                    time: (n.ts + s.config.eviction->idle_timeout) as i128,
                    seq: 0,
                    index: id.index,
                    generation: id.generation,
                };
                assert(is_alarm(t.expiry, t.config, t.at(i), x));
            }
        } else {
            assert(is_leaf(s, i));
        }
    }
    lemma_covered(s, t, strict);
    assert forall|i: int| #[trigger] t.live_at(i) implies t.at(i).last_seen <= t.clock by {
        if i != id.index {
            assert(s.live_at(i));
        }
    }
}

/// What the queues know is a matter of the slots, the queues and the clock.
pub proof fn same_queues_stay_fresh(s: State, t: State, strict: bool)
    requires
        fresh(s, strict),
        t.slots == s.slots,
        t.config == s.config,
        t.lru == s.lru,
        t.expiry == s.expiry,
        s.clock <= t.clock,
    ensures
        fresh(t, strict),
{
    assert forall|i: int| #[trigger] t.live_at(i) implies t.at(i).last_seen <= t.clock by {
        assert(s.live_at(i));
    }
    if s.config.eviction is Live {
        assert forall|i: int| #[trigger] is_leaf(t, i) implies watched(t, t.at(i), strict) by {
            assert(is_leaf(s, i));
        }
    }
}

/// The queues know every leaf but one.
pub open spec fn covered_but(s: State, id: StreamId, strict: bool) -> bool {
    s.config.eviction is Live ==> forall|i: int| #[trigger]
        is_leaf(s, i) && s.at(i).id != id ==> watched(s, s.at(i), strict)
}

/// Once a leaf is gone the queues know the others; its parent, which may be a
/// leaf now, is known anew.
pub proof fn evicting_stays_fresh(s: State, id: StreamId, reason: CloseReason, strict: bool, b: nat)
    requires
        covered_but(s, id, strict),
        recent(s),
        tree::hierarchy(s),
        bounds::within(s, b),
        s.live(id),
        s.get(id)->0.children.len() == 0,
    ensures
        fresh(state::evict(s, id, reason), strict),
{
    broadcast use vstd::multiset::group_multiset_axioms;

    let t = state::evict(s, id, reason);
    let o = s.get(id)->0;
    tree::evicting_removes_one(s, id, reason);
    tree::handles_are_unique(s, id);
    assert(s.live_at(id.index as int));
    assert(queues_grow(s, t));
    assert forall|i: int| #[trigger] t.live_at(i) implies s.live_at(i) && t.at(i).id == s.at(i).id
        && t.at(i).id != id && t.at(i).last_seen == s.at(i).last_seen && t.at(i).created_seq
        == s.at(i).created_seq && t.at(i).close_eligible_since == s.at(i).close_eligible_since && (
    o.parent != Some(s.at(i).id) ==> t.at(i) == s.at(i)) by {
        let x = s.at(i).id;
        assert(s.live(x));
        assert(t.live(x));
        assert(t.get(x) == Some(t.at(i)));
    }
    if t.config.eviction is Live {
        assert forall|i: int| #[trigger] is_leaf(t, i) implies watched(t, t.at(i), strict) by {
            assert(t.live_at(i));
            assert(s.live_at(i));
            if o.parent == Some(s.at(i).id) {
                let q = s.at(i).id;
                assert(s.live(q));
                assert(bounds::stream_within(s.at(i), b));
                let e = Entry {
                    time: s.at(i).last_seen,
                    seq: s.at(i).created_seq,
                    index: q.index,
                    generation: q.generation,
                };
                assert(t.lru.count(e) > 0);
                assert(is_candidate(t.lru, t.at(i), e, strict));
                let d = due_time(s.config, s.at(i));
                let x = Entry {
                    time: d as i128,
                    seq: 0,
                    index: q.index,
                    generation: q.generation,
                };
                assert(d as i128 == d);
                assert(t.expiry.count(x) > 0);
                assert(is_alarm(t.expiry, t.config, t.at(i), x));
            } else {
                assert(is_leaf(s, i));
                lemma_still_watched(s, t, s.at(i), t.at(i), strict);
            }
        }
    }
}

/// What the queues knew of other streams they know without an entry of one.
proof fn lemma_other_watched(
    s: State,
    t: State,
    st: StreamView,
    e: Entry,
    strict: bool,
)
    requires
        watched(s, st, strict),
        state::id_of(e) != st.id,
        t.config == s.config,
        forall|x: Entry| x != e && s.lru.count(x) > 0 ==> #[trigger] t.lru.count(x) > 0,
        forall|x: Entry| x != e && s.expiry.count(x) > 0 ==> #[trigger] t.expiry.count(x) > 0,
    ensures
        watched(t, st, strict),
{
    let c = choose|c: Entry| is_candidate(s.lru, st, c, strict);
    assert(is_candidate(s.lru, st, c, strict));
    assert(t.lru.count(c) > 0);
    assert(is_candidate(t.lru, st, c, strict));
    if strict {
        let x = choose|x: Entry| is_alarm(s.expiry, s.config, st, x);
        assert(is_alarm(s.expiry, s.config, st, x));
        assert(t.expiry.count(x) > 0);
        assert(is_alarm(t.expiry, t.config, st, x));
    }
}

/// A step of a sweep keeps what the queues know.
pub proof fn sweep_step_stays_fresh(s: State, strict: bool, b: nat)
    requires
        fresh(s, strict),
        tree::hierarchy(s),
        bounds::within(s, b),
        state::sweepable(s),
    ensures
        fresh(state::sweep_step(s), strict),
{
    broadcast use vstd::multiset::group_multiset_axioms;

    let e = heap::first(s.expiry);
    heap::first_is_earliest(s.expiry);
    let id = state::id_of(e);
    let t = State { expiry: s.expiry.remove(e), ..s };
    let u = state::sweep_step(s);
    queues::lemma_same_hierarchy(s, t);
    queues::lemma_same_bounds(s, t, b);
    assert(covered_but(t, id, strict)) by {
        assert forall|i: int| #[trigger] is_leaf(t, i) && t.at(i).id != id implies watched(
            t,
            t.at(i),
            strict,
        ) by {
            assert(is_leaf(s, i));
            lemma_other_watched(s, t, s.at(i), e, strict);
        }
    }
    assert(recent(t)) by {
        assert forall|i: int| #[trigger] t.live_at(i) implies t.at(i).last_seen <= t.clock by {
            assert(s.live_at(i));
        }
    }
    match state::deadline(t, id) {
        None => {
            assert(u == t);
            assert forall|i: int| #[trigger] is_leaf(u, i) implies watched(u, u.at(i), strict) by {
                if u.at(i).id == id {
                    assert(s.live_at(i));
                    assert(t.live(id));
                }
            }
        },
        Some(d) => {
            let st = t.get(id)->0;
            tree::handles_are_unique(t, id);
            assert(s.live_at(id.index as int));
            assert(bounds::stream_within(s.at(id.index as int), b));
            if d > t.clock {
                let x = Entry { time: d as i128, ..e };
                assert(d as i128 == d);
                assert(u.expiry == t.expiry.insert(x));
                assert forall|i: int| #[trigger] is_leaf(u, i) implies watched(
                    u,
                    u.at(i),
                    strict,
                ) by {
                    assert(is_leaf(s, i));
                    assert(is_leaf(t, i));
                    if u.at(i).id == id {
                        let c = choose|c: Entry| is_candidate(s.lru, s.at(i), c, strict);
                        assert(is_candidate(s.lru, s.at(i), c, strict));
                        assert(is_candidate(u.lru, u.at(i), c, strict));
                        assert(s.at(i) == st);
                        assert(is_alarm(u.expiry, u.config, u.at(i), x));
                    } else {
                        lemma_still_watched(t, u, t.at(i), u.at(i), strict);
                    }
                }
                assert forall|i: int| #[trigger] u.live_at(i) implies u.at(i).last_seen
                    <= u.clock by {
                    assert(s.live_at(i));
                }
            } else if st.children.len() == 0 {
                evicting_stays_fresh(t, id, state::due_reason(t, st), strict, b);
            } else {
                assert(u == t);
                assert forall|i: int| #[trigger] is_leaf(u, i) implies watched(
                    u,
                    u.at(i),
                    strict,
                ) by {
                    assert(s.live_at(i));
                    assert(u.at(i).id != id);
                }
            }
        },
    }
}

/// A sweep keeps what the queues know.
pub proof fn sweeping_stays_fresh(s: State, strict: bool, b: nat)
    requires
        fresh(s, strict),
        tree::hierarchy(s),
        bounds::within(s, b),
    ensures
        fresh(state::swept(s), strict),
    decreases state::live_count(s.slots), state::due_entries(s),
{
    if state::sweepable(s) {
        bounds::live_count_is_bounded(s.slots);
        queues::sweeping_progresses(s, b);
        sweep_step_stays_fresh(s, strict, b);
        sweeping_stays_fresh(state::sweep_step(s), strict, b);
    }
}

/// A step of the cap keeps what the queues know.
pub proof fn cap_step_stays_fresh(s: State, strict: bool, b: nat)
    requires
        fresh(s, strict),
        tree::hierarchy(s),
        bounds::within(s, b),
        state::over_cap(s),
    ensures
        fresh(state::cap_step(s), strict),
{
    broadcast use vstd::multiset::group_multiset_axioms;

    let e = heap::first(s.lru);
    heap::first_is_earliest(s.lru);
    let id = state::id_of(e);
    let t = State { lru: s.lru.remove(e), ..s };
    let u = state::cap_step(s);
    queues::lemma_same_hierarchy(s, t);
    queues::lemma_same_bounds(s, t, b);
    assert(covered_but(t, id, strict)) by {
        assert forall|i: int| #[trigger] is_leaf(t, i) && t.at(i).id != id implies watched(
            t,
            t.at(i),
            strict,
        ) by {
            assert(is_leaf(s, i));
            lemma_other_watched(s, t, s.at(i), e, strict);
        }
    }
    assert(recent(t)) by {
        assert forall|i: int| #[trigger] t.live_at(i) implies t.at(i).last_seen <= t.clock by {
            assert(s.live_at(i));
        }
    }
    match t.get(id) {
        None => {
            assert(u == t);
            assert forall|i: int| #[trigger] is_leaf(u, i) implies watched(u, u.at(i), strict) by {
                if u.at(i).id == id {
                    assert(s.live_at(i));
                    assert(t.live(id));
                }
            }
        },
        Some(st) => {
            tree::handles_are_unique(t, id);
            if st.children.len() > 0 {
                assert(u == t);
                assert forall|i: int| #[trigger] is_leaf(u, i) implies watched(
                    u,
                    u.at(i),
                    strict,
                ) by {
                    assert(s.live_at(i));
                    assert(u.at(i).id != id);
                }
            } else if st.last_seen != e.time || st.created_seq != e.seq {
                let x = Entry {
                    time: st.last_seen,
                    seq: st.created_seq,
                    index: e.index,
                    generation: e.generation,
                };
                assert(u.lru == t.lru.insert(x));
                assert forall|i: int| #[trigger] is_leaf(u, i) implies watched(
                    u,
                    u.at(i),
                    strict,
                ) by {
                    assert(is_leaf(s, i));
                    assert(is_leaf(t, i));
                    if u.at(i).id == id {
                        assert(s.at(i) == st);
                        assert(is_candidate(u.lru, u.at(i), x, strict));
                        if strict {
                            let a = choose|a: Entry| is_alarm(s.expiry, s.config, s.at(i), a);
                            assert(is_alarm(s.expiry, s.config, s.at(i), a));
                            assert(is_alarm(u.expiry, u.config, u.at(i), a));
                        }
                    } else {
                        lemma_still_watched(t, u, t.at(i), u.at(i), strict);
                    }
                }
                assert forall|i: int| #[trigger] u.live_at(i) implies u.at(i).last_seen
                    <= u.clock by {
                    assert(s.live_at(i));
                }
            } else {
                evicting_stays_fresh(t, id, CloseReason::LruEvicted, strict, b);
            }
        },
    }
}

/// The cap keeps what the queues know.
pub proof fn capping_stays_fresh(s: State, strict: bool, b: nat)
    requires
        fresh(s, strict),
        tree::hierarchy(s),
        bounds::within(s, b),
    ensures
        fresh(state::capped(s), strict),
    decreases state::live_count(s.slots), state::stale_candidates(s),
{
    if state::over_cap(s) {
        bounds::live_count_is_bounded(s.slots);
        queues::capping_progresses(s, b);
        cap_step_stays_fresh(s, strict, b);
        capping_stays_fresh(state::cap_step(s), strict, b);
    }
}

proof fn lemma_leaf_entries(slots: Seq<Slot>, n: int, i: int)
    requires
        0 <= i < n <= slots.len(),
        slots[i].stream is Some,
        slots[i].stream->0.children.len() == 0,
    ensures
        state::leaf_entries(slots, n).count(state::leaf_entry(slots[i].stream->0)) > 0,
    decreases n,
{
    broadcast use vstd::multiset::group_multiset_axioms;

    if i < n - 1 {
        lemma_leaf_entries(slots, n - 1, i);
    }
}

/// Building the candidates anew keeps what the queues know.
pub proof fn compacting_stays_fresh(s: State, strict: bool)
    requires
        fresh(s, strict),
    ensures
        fresh(state::compacted(s), strict),
{
    let t = state::compacted(s);
    if t != s {
        assert forall|i: int| #[trigger] is_leaf(t, i) implies t.config.eviction is Never
            || watched(t, t.at(i), strict) by {
            assert(is_leaf(s, i));
            lemma_leaf_entries(s.slots, s.slots.len() as int, i);
            assert(is_candidate(t.lru, t.at(i), state::leaf_entry(t.at(i)), strict));
            if strict && t.config.eviction is Live {
                let a = choose|a: Entry| is_alarm(s.expiry, s.config, s.at(i), a);
                assert(is_alarm(s.expiry, s.config, s.at(i), a));
                assert(is_alarm(t.expiry, t.config, t.at(i), a));
            }
        }
        assert forall|i: int| #[trigger] t.live_at(i) implies t.at(i).last_seen <= t.clock by {
            assert(s.live_at(i));
        }
    }
}

/// Another record of a stream that is as due as before, or later, keeps what the
/// queues know.
proof fn lemma_put_stays_fresh(s: State, id: StreamId, st: StreamView, strict: bool)
    requires
        fresh(s, strict),
        s.live(id),
        tree::same_place(s.get(id)->0, st),
        st.last_seen <= s.clock,
        strict ==> s.get(id)->0.last_seen <= st.last_seen && due_time(s.config, s.get(id)->0)
            <= due_time(s.config, st),
    ensures
        fresh(s.put(id, st), strict),
{
    let t = s.put(id, st);
    assert forall|i: int| #[trigger] is_leaf(t, i) implies is_leaf(s, i) && s.at(i).id == t.at(
        i,
    ).id && s.at(i).created_seq == t.at(i).created_seq && (strict ==> s.at(i).last_seen <= t.at(
        i,
    ).last_seen && due_time(s.config, s.at(i)) <= due_time(s.config, t.at(i))) by {}
    lemma_covered(s, t, strict);
    assert forall|i: int| #[trigger] t.live_at(i) implies t.at(i).last_seen <= t.clock by {
        assert(s.live_at(i));
    }
}

/// Meeting a flow keeps what the queues know.
proof fn meeting_stays_fresh(s: State, k: GroupKey, id: StreamId, c: Candidate, strict: bool)
    requires
        fresh(s, strict),
    ensures
        fresh(state::with_member(s, k, id, c), strict),
{
    let g = s.groups[k];
    let fresh_one = state::is_new_member(g, c.varying);
    let lost = state::overflows(g, c.varying);
    let t = state::with_member(s, k, id, c);
    let u = State { slots: s.slots, ..t };
    same_queues_stay_fresh(s, u, strict);
    if (fresh_one || lost) && s.live(id) {
        let i = id.index as int;
        assert(s.live_at(i));
        lemma_put_stays_fresh(u, id, state::tallied(s.get(id)->0, fresh_one, lost), strict);
        assert(t =~= u.put(id, state::tallied(s.get(id)->0, fresh_one, lost)));
    } else {
        assert(t =~= u);
    }
}

/// Enrolling a flow leaves the queues alone.
proof fn lemma_enrolled_queues(
    s: State,
    parent: Option<StreamId>,
    protocol: Seq<char>,
    anchors: Seq<Candidate>,
    n: int,
)
    ensures
        ({
            let t = state::enrolled_all(s, parent, protocol, anchors, n);
            t == (State { groups: t.groups, ..s })
        }),
    decreases n,
{
    if n > 0 {
        lemma_enrolled_queues(s, parent, protocol, anchors, n - 1);
    }
}

/// Resolving a layer keeps what the queues know.
pub proof fn resolving_stays_fresh(
    s: State,
    parent: Option<StreamId>,
    key: Seq<u8>,
    rules: Rules,
    layer: LayerView,
    dir: PacketDirection,
    ts: Timestamp,
    strict: bool,
)
    requires
        fresh(s, strict),
        tree::hierarchy(s),
        bounds::timed(s.config),
        parent is Some ==> s.live(parent->0),
        s.slots.len() < u32::MAX,
        layer::in_time(ts),
        ts <= s.clock,
    ensures
        fresh(state::resolved(s, parent, key, rules, layer, dir, ts).state, strict),
        state::resolved(s, parent, key, rules, layer, dir, ts).state.clock == s.clock,
{
    let identity = rules.identity->0;
    if state::lookup(s, parent, layer.protocol, key) is None {
        let n = state::flow(s, parent, key, identity, layer, dir, ts);
        let new = state::created(s, n);
        creating_stays_fresh(s, n, strict);
        match state::anchors_of(s, rules, layer.fields) {
            None => {},
            Some(anchors) => {
                steps::fold_is_there(s, parent, layer.protocol, anchors, 0);
                match state::fold_at(s, parent, layer.protocol, anchors, 0) {
                    Some(i) => {
                        let c = anchors[i];
                        let k = state::group_key(parent, layer.protocol, c.anchor);
                        let u = state::with_node(s, k, identity, c, ts);
                        if !state::has_node(s, k) {
                            let m = state::node(s, k.parent, k.protocol, identity, c, ts);
                            creating_stays_fresh(s, m, strict);
                            same_queues_stay_fresh(state::created(s, m), u, strict);
                        }
                        meeting_stays_fresh(u, k, u.groups[k].node->0, c, strict);
                    },
                    None => {
                        lemma_enrolled_queues(
                            new,
                            parent,
                            layer.protocol,
                            anchors,
                            anchors.len() as int,
                        );
                        same_queues_stay_fresh(
                            new,
                            state::enrolled_all(
                                new,
                                parent,
                                layer.protocol,
                                anchors,
                                anchors.len() as int,
                            ),
                            strict,
                        );
                    },
                }
            },
        }
    }
}

/// Counting a packet keeps what the queues know. Strictly so if the packet is as
/// late as the clock: a packet from the past would make its stream due earlier
/// than its alarm.
pub proof fn attributing_stays_fresh(
    r: Resolved,
    identity: Identity,
    layer: LayerView,
    meta: PacketMeta,
    strict: bool,
    b: nat,
)
    requires
        fresh(r.state, strict),
        tree::hierarchy(r.state),
        bounds::within(r.state, b),
        r.state.live(r.id),
        layer::in_time(meta.timestamp),
        meta.timestamp <= r.state.clock,
        strict ==> meta.timestamp == r.state.clock,
    ensures
        fresh(state::attributed(r, identity, layer, meta), strict),
        state::attributed(r, identity, layer, meta).clock == r.state.clock,
{
    broadcast use vstd::multiset::group_multiset_axioms;

    let s = r.state;
    let st = s.get(r.id)->0;
    let ts = meta.timestamp;
    let after = stream::touched(st, identity, layer.fields, ts, r.dir, meta.origlen as int);
    let u = s.put(r.id, after);
    let t = state::attributed(r, identity, layer, meta);
    let at = r.id.index as int;
    tree::handles_are_unique(s, r.id);
    assert(s.live_at(at));
    assert(bounds::stream_within(s.at(at), b));
    assert(st.last_seen <= s.clock);
    assert forall|i: int| #[trigger] t.live_at(i) implies t.at(i).last_seen <= t.clock by {
        assert(s.live_at(i));
    }
    assert(queues_grow(s, t));
    assert forall|i: int| #[trigger] is_leaf(t, i) implies watched(t, t.at(i), strict)
        || t.config.eviction is Never || (is_leaf(s, i) && s.at(i).id == t.at(i).id && s.at(
        i,
    ).created_seq == t.at(i).created_seq && (strict ==> s.at(i).last_seen <= t.at(i).last_seen
        && due_time(s.config, s.at(i)) <= due_time(s.config, t.at(i)))) by {
        assert(is_leaf(s, i));
        if i == at && strict && t.config.eviction is Live && due_time(s.config, s.at(i))
            > due_time(s.config, t.at(i)) {
            assert(stream::became_eligible(st, after));
            let x = Entry {
                time: (ts + s.config.eviction->close_linger) as i128,
                seq: 0,
                index: r.id.index,
                generation: r.id.generation,
            };
            assert(t.expiry.count(x) > 0);
            assert(is_alarm(t.expiry, t.config, t.at(i), x));
            let c = choose|c: Entry| is_candidate(s.lru, s.at(i), c, strict);
            assert(watched(s, s.at(i), strict));
            assert(is_candidate(s.lru, s.at(i), c, strict));
            assert(is_candidate(t.lru, t.at(i), c, strict));
        }
    }
    lemma_covered(s, t, strict);
}

/// Taking a layer in keeps what the queues know.
pub proof fn taking_stays_fresh(
    p: Progress,
    layer: LayerView,
    meta: PacketMeta,
    strict: bool,
    b: nat,
)
    requires
        steps::on_course(p, b),
        fresh(p.state, strict),
        layer::in_time(meta.timestamp),
        meta.timestamp <= p.state.clock,
        strict ==> meta.timestamp == p.state.clock,
        p.state.slots.len() < u32::MAX,
        b + state::layer_weight(meta) <= u64::MAX,
    ensures
        fresh(state::taken(p, layer, meta).state, strict),
        state::taken(p, layer, meta).state.clock == p.state.clock,
{
    let s = State { load: (p.state.load + state::layer_weight(meta)) as nat, ..p.state };
    queues::lemma_same_hierarchy(p.state, s);
    queues::lemma_same_bounds(p.state, s, b);
    same_queues_stay_fresh(p.state, s, strict);
    match s.rules(layer.protocol) {
        None => {},
        Some(rules) => match rules.identity {
            None => {},
            Some(identity) => match crate::flows::key::key_of(identity, layer.fields) {
                Err(_) => {
                    same_queues_stay_fresh(s, state::taken(p, layer, meta).state, strict);
                },
                Ok((key, dir)) => {
                    let r = state::resolved(
                        s,
                        p.parent,
                        key,
                        rules,
                        layer,
                        dir,
                        meta.timestamp,
                    );
                    steps::resolving_keeps(s, p.parent, key, rules, layer, dir, meta.timestamp, b);
                    resolving_stays_fresh(
                        s,
                        p.parent,
                        key,
                        rules,
                        layer,
                        dir,
                        meta.timestamp,
                        strict,
                    );
                    attributing_stays_fresh(r, identity, layer, meta, strict, b + 3);
                },
            },
        },
    }
}

proof fn taking_all_stays_fresh(
    s: State,
    layers: Seq<LayerView>,
    n: nat,
    meta: PacketMeta,
    strict: bool,
    b: nat,
)
    requires
        tree::hierarchy(s),
        bounds::within(s, b),
        fresh(s, strict),
        layer::in_time(meta.timestamp),
        meta.timestamp <= s.clock,
        strict ==> meta.timestamp == s.clock,
        s.slots.len() + n <= u32::MAX,
        b + n * state::layer_weight(meta) <= u64::MAX,
    ensures
        fresh(state::taken_all(s, layers, n as int, meta).state, strict),
        state::taken_all(s, layers, n as int, meta).state.clock == s.clock,
    decreases n,
{
    let w = state::layer_weight(meta);
    if n > 0 {
        let m = (n - 1) as nat;
        assert(n * w == m * w + w) by (nonlinear_arith)
            requires
                n == m + 1,
        ;
        assert(m * w >= 0) by (nonlinear_arith)
            requires
                w >= 0,
        ;
        taking_all_stays_fresh(s, layers, m, meta, strict, b);
        steps::taking_all_keeps(s, layers, m, meta, b);
        taking_stays_fresh(
            state::taken_all(s, layers, m as int, meta),
            layers[n - 1],
            meta,
            strict,
            (b + m * w) as nat,
        );
    }
}

/// Whether a packet comes in order: no earlier than those before it.
pub open spec fn in_order(s: State, pkt: Packet) -> bool {
    pkt.meta.timestamp >= s.clock
}

/// The state before the cap is enforced.
pub open spec fn uncapped(s: State, pkt: Packet) -> State {
    let p = state::taken_all(
        steps::opened(s, pkt),
        pkt.layers,
        pkt.layers.len() as int,
        pkt.meta,
    );
    state::with_unknown(
        state::with_opaque(p.state, p.parent, pkt.opaque_len as int),
        pkt,
        p.endpoint,
    )
}

/// A packet keeps what the queues know; strictly so if it comes in order.
pub proof fn ingesting_stays_fresh(s: State, pkt: Packet, strict: bool)
    requires
        tree::hierarchy(s),
        bounds::within(s, s.load),
        fresh(s, strict),
        state::has_room(s, pkt),
        strict ==> in_order(s, pkt),
    ensures
        fresh(state::ingested(s, pkt), strict),
        fresh(uncapped(s, pkt), strict),
        tree::hierarchy(uncapped(s, pkt)),
        bounds::within(uncapped(s, pkt), (s.load + state::weight(pkt)) as nat),
        state::ingested(s, pkt) == state::capped(uncapped(s, pkt)),
{
    let w = state::layer_weight(pkt.meta);
    let n = pkt.layers.len();
    assert(n * w >= 0) by (nonlinear_arith)
        requires
            w >= 0,
    ;
    let b = s.load;
    let b1 = b + pkt.meta.origlen as nat + 1;
    let b2 = (b1 + n * w) as nat;
    let b4 = (b + state::weight(pkt)) as nat;
    steps::beginning_keeps(s, pkt, b);
    steps::opening_keeps(s, pkt, b);
    let t0 = state::begun(s, pkt);
    same_queues_stay_fresh(s, t0, strict);
    steps::sweeping_keeps(t0, b1);
    sweeping_stays_fresh(t0, strict, b1);
    compacting_stays_fresh(state::swept(t0), strict);
    let t1 = steps::opened(s, pkt);
    let p = state::taken_all(t1, pkt.layers, n as int, pkt.meta);
    steps::taking_all_keeps(t1, pkt.layers, n, pkt.meta, b1);
    taking_all_stays_fresh(t1, pkt.layers, n, pkt.meta, strict, b1);
    rest_stays_fresh(p, pkt, strict, b, b2, b4);
    capping_stays_fresh(uncapped(s, pkt), strict, b4);
}

proof fn rest_stays_fresh(p: Progress, pkt: Packet, strict: bool, a: nat, b: nat, c: nat)
    requires
        fresh(p.state, strict),
        tree::hierarchy(p.state),
        bounds::within(p.state, b),
        bounds::register_within(p.state.unknowns, a),
        b + pkt.opaque_len <= c,
        a + pkt.opaque_len + 1 <= c <= u64::MAX,
    ensures
        ({
            let t = state::with_unknown(
                state::with_opaque(p.state, p.parent, pkt.opaque_len as int),
                pkt,
                p.endpoint,
            );
            fresh(t, strict) && tree::hierarchy(t) && bounds::within(t, c)
        }),
{
    let s = p.state;
    let t3 = state::with_opaque(s, p.parent, pkt.opaque_len as int);
    steps::leftovers_keep(s, p.parent, pkt.opaque_len as nat, b);
    if p.parent is Some && s.live(p.parent->0) {
        let id = p.parent->0;
        let st = s.get(id)->0;
        assert(s.live_at(id.index as int));
        lemma_put_stays_fresh(
            s,
            id,
            StreamView { opaque_bytes: (st.opaque_bytes + pkt.opaque_len) as u64, ..st },
            strict,
        );
    }
    bounds::within_widens(t3, b + pkt.opaque_len as nat, c);
    steps::registering_keeps(t3, pkt, p.endpoint, a, c);
    same_queues_stay_fresh(t3, state::with_unknown(t3, pkt, p.endpoint), strict);
}

/// Below every stream there is a leaf.
pub proof fn some_leaf(s: State, i: int) -> (j: int)
    requires
        tree::hierarchy(s),
        s.live_at(i),
    ensures
        is_leaf(s, j),
    decreases s.next_seq - s.at(i).created_seq,
{
    if s.at(i).children.len() == 0 {
        i
    } else {
        let c = s.at(i).children[0];
        assert(s.live(c));
        assert(s.get(c)->0.parent == Some(s.at(i).id));
        assert(s.live_at(c.index as int));
        assert(s.at(c.index as int) == s.get(c)->0);
        some_leaf(s, c.index as int)
    }
}

/// After every packet there are no more streams than the cap allows.
pub proof fn the_cap_is_kept(s: State, pkt: Packet)
    requires
        tree::hierarchy(s),
        bounds::within(s, s.load),
        fresh(s, false),
        state::has_room(s, pkt),
        s.config.eviction is Live,
    ensures
        state::live_count(state::ingested(s, pkt).slots) <= s.config.eviction->max_streams,
{
    broadcast use vstd::multiset::group_multiset_axioms;

    let t = state::ingested(s, pkt);
    steps::ingesting_keeps(s, pkt);
    ingesting_stays_fresh(s, pkt, false);
    bounds::live_count_is_bounded(t.slots);
    if state::live_count(t.slots) > s.config.eviction->max_streams {
        assert(exists|i: int| t.live_at(i)) by {
            if forall|i: int| !t.live_at(i) {
                assert forall|i: int| 0 <= i < t.slots.len() implies (
                #[trigger] t.slots[i]).stream is None by {
                    assert(!t.live_at(i));
                }
                lemma_none_live(t.slots);
            }
        }
        let i = choose|i: int| t.live_at(i);
        let j = some_leaf(t, i);
        assert(is_leaf(t, j));
        let e = choose|e: Entry| is_candidate(t.lru, t.at(j), e, false);
        assert(is_candidate(t.lru, t.at(j), e, false));
        assert(t.lru.count(e) <= t.lru.len());
    }
}

proof fn lemma_none_live(slots: Seq<Slot>)
    requires
        forall|i: int| 0 <= i < slots.len() ==> (#[trigger] slots[i]).stream is None,
    ensures
        state::live_count(slots) == 0,
    decreases slots.len(),
{
    if slots.len() > 0 {
        assert forall|i: int| 0 <= i < slots.drop_last().len() implies (
        #[trigger] slots.drop_last()[i]).stream is None by {
            assert(slots[i].stream is None);
        }
        lemma_none_live(slots.drop_last());
        assert(slots[slots.len() - 1].stream is None);
    }
}

/// Whether a stream was updated no later than another; of two updated at the same
/// time, whether it is no younger.
pub open spec fn no_more_recent(a: StreamView, b: StreamView) -> bool {
    a.last_seen < b.last_seen || (a.last_seen == b.last_seen && a.created_seq <= b.created_seq)
}

/// What the cap takes is a leaf, and the least recently updated one; among those
/// updated at the same time, the oldest.
pub proof fn the_cap_takes_the_least_recent(s: State)
    requires
        fresh(s, true),
        tree::hierarchy(s),
        state::over_cap(s),
        state::cap_step(s) != (State { lru: state::cap_step(s).lru, ..s }),
    ensures
        ({
            let id = state::id_of(heap::first(s.lru));
            &&& s.live(id)
            &&& s.get(id)->0.children.len() == 0
            &&& state::cap_step(s) == state::evict(
                (State { lru: s.lru.remove(heap::first(s.lru)), ..s }),
                id,
                CloseReason::LruEvicted,
            )
            &&& forall|i: int| #[trigger]
                is_leaf(s, i) ==> no_more_recent(s.get(id)->0, s.at(i))
        }),
{
    let e = heap::first(s.lru);
    heap::first_is_earliest(s.lru);
    let id = state::id_of(e);
    let t = State { lru: s.lru.remove(e), ..s };
    assert(t.get(id) == s.get(id));
    let st = s.get(id)->0;
    assert forall|i: int| #[trigger] is_leaf(s, i) implies no_more_recent(st, s.at(i)) by {
        let x = choose|x: Entry| is_candidate(s.lru, s.at(i), x, true);
        assert(watched(s, s.at(i), true));
        assert(is_candidate(s.lru, s.at(i), x, true));
        assert(heap::before(e, x));
    }
}

/// After a sweep no leaf is due.
pub proof fn no_due_leaf_outlives_a_sweep(s: State, b: nat)
    requires
        fresh(s, true),
        tree::hierarchy(s),
        bounds::within(s, b),
        s.config.eviction is Live,
    ensures
        forall|i: int| #[trigger]
            is_leaf(state::swept(s), i) ==> due_time(s.config, state::swept(s).at(i)) > s.clock,
{
    broadcast use vstd::multiset::group_multiset_axioms;

    let t = state::swept(s);
    sweeping_stays_fresh(s, true, b);
    steps::sweeping_keeps(s, b);
    assert forall|i: int| #[trigger] is_leaf(t, i) implies due_time(s.config, t.at(i))
        > s.clock by {
        assert(watched(t, t.at(i), true));
        let x = choose|x: Entry| is_alarm(t.expiry, t.config, t.at(i), x);
        assert(is_alarm(t.expiry, t.config, t.at(i), x));
        assert(t.expiry.count(x) <= t.expiry.len());
        heap::first_is_earliest(t.expiry);
        assert(heap::before(heap::first(t.expiry), x));
    }
}

} // verus!

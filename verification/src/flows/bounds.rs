//! The counts: what they add up to, and that none of them outgrows the load.
use vstd::prelude::*;

use crate::flows::rollup::{RollupView, Rollups};
use crate::flows::state::{
    self, AggregatorConfig, Candidate, EvictionPolicy, Group, GroupKey, Newcomer, Slot, State,
};
use crate::flows::stream::{self, CloseReason, StreamId, StreamView};
use crate::flows::tree;
use crate::flows::unknown::{self, Register, Shape};
use crate::layer;

verus! {

/// Changing one slot changes a sum by what that slot adds to it.
pub proof fn total_after_update(slots: Seq<Slot>, i: int, x: Slot, f: spec_fn(Slot) -> int)
    requires
        0 <= i < slots.len(),
    ensures
        state::total(slots.update(i, x), f) == state::total(slots, f) - f(slots[i]) + f(x),
    decreases slots.len(),
{
    let u = slots.update(i, x);
    if i == slots.len() - 1 {
        assert(u.drop_last() =~= slots.drop_last());
    } else {
        assert(u.drop_last() =~= slots.drop_last().update(i, x));
        total_after_update(slots.drop_last(), i, x, f);
    }
}

pub proof fn total_after_push(slots: Seq<Slot>, x: Slot, f: spec_fn(Slot) -> int)
    ensures
        state::total(slots.push(x), f) == state::total(slots, f) + f(x),
{
    assert(slots.push(x).drop_last() =~= slots);
}

/// A sum of quantities that are not negative is at least each of them.
pub proof fn total_covers(slots: Seq<Slot>, i: int, f: spec_fn(Slot) -> int)
    requires
        forall|k: int| 0 <= k < slots.len() ==> f(#[trigger] slots[k]) >= 0,
    ensures
        state::total(slots, f) >= 0,
        0 <= i < slots.len() ==> f(slots[i]) <= state::total(slots, f),
    decreases slots.len(),
{
    if slots.len() > 0 {
        let init = slots.drop_last();
        assert forall|k: int| 0 <= k < init.len() implies f(#[trigger] init[k]) >= 0 by {
            assert(init[k] == slots[k]);
        }
        total_covers(init, i, f);
        assert(f(slots[slots.len() - 1]) >= 0);
        if 0 <= i < init.len() {
            assert(init[i] == slots[i]);
        }
    }
}

pub open spec fn live_quantity() -> spec_fn(Slot) -> int {
    |x: Slot|
        if x.stream is Some {
            1int
        } else {
            0int
        }
}

/// How many streams there are, by their slots.
pub proof fn live_count_is_bounded(slots: Seq<Slot>)
    ensures
        0 <= state::live_count(slots) <= slots.len(),
        state::live_count(slots) == 0 ==> forall|i: int|
            0 <= i < slots.len() ==> (#[trigger] slots[i]).stream is None,
    decreases slots.len(),
{
    if slots.len() > 0 {
        live_count_is_bounded(slots.drop_last());
        assert forall|i: int|
            state::live_count(slots) == 0 && 0 <= i < slots.len() implies (#[trigger] slots[
            i]).stream is None by {
            if i < slots.len() - 1 {
                assert(slots.drop_last()[i] == slots[i]);
            }
        }
    }
}

/// No protocol has more streams than there are slots, and none has a negative
/// sum of bytes or packets.
pub proof fn sums_are_natural(slots: Seq<Slot>, p: Seq<char>)
    ensures
        0 <= state::live_of(slots, p) <= slots.len(),
        0 <= state::bytes_of(slots, p),
        0 <= state::packets_of(slots, p),
        state::live_of(slots, p) <= state::live_count(slots),
    decreases slots.len(),
{
    if slots.len() > 0 {
        sums_are_natural(slots.drop_last(), p);
    }
}

/// Whether a slot's count is within a bound.
pub open spec fn observations_within(r: RollupView, bound: nat) -> bool {
    r is Accumulate ==> r->count <= bound
}

pub open spec fn rollups_within(r: Rollups, bound: nat) -> bool {
    forall|k: int| 0 <= k < r.len() ==> observations_within((#[trigger] r[k]).1, bound)
}

/// Whether a stream's counts are within a bound and its times are times.
pub open spec fn stream_within(st: StreamView, bound: nat) -> bool {
    &&& st.stats.len() == 2
    &&& st.stats[0].packets <= bound
    &&& st.stats[0].bytes <= bound
    &&& st.stats[1].packets <= bound
    &&& st.stats[1].bytes <= bound
    &&& st.opaque_bytes <= bound
    &&& rollups_within(st.rollups, bound)
    &&& st.condensed is Some ==> st.condensed->0.member_flows <= bound
    &&& layer::in_time(st.first_seen)
    &&& layer::in_time(st.last_seen)
    &&& st.close_eligible_since is Some ==> layer::in_time(st.close_eligible_since->0)
}

/// Whether settings are times that a clock can tell.
pub open spec fn timed(config: AggregatorConfig) -> bool {
    match config.eviction {
        EvictionPolicy::Live { idle_timeout, close_linger, .. } => idle_timeout
            <= layer::TIME_LIMIT && close_linger <= layer::TIME_LIMIT,
        EvictionPolicy::Never => true,
    }
}

pub open spec fn register_within(r: Register, bound: nat) -> bool {
    &&& unknown::sound(r)
    &&& r.next_seq <= bound
    &&& forall|k: Shape| #[trigger] r.groups.contains_key(k) ==> r.groups[k].bytes_total <= bound
}

pub open spec fn groups_within(groups: Map<GroupKey, Group>, bound: nat) -> bool {
    forall|k: GroupKey| #[trigger]
        groups.contains_key(k) ==> groups[k].expanded <= bound && groups[k].members.finite()
}

pub open spec fn ever_within(ever: Map<Seq<char>, u64>, bound: nat) -> bool {
    forall|p: Seq<char>| #[trigger] ever.contains_key(p) ==> ever[p] <= bound
}

/// What the streams of one protocol add up to is within a bound.
pub open spec fn sums_within(slots: Seq<Slot>, bound: nat) -> bool {
    forall|p: Seq<char>|
        #![trigger state::bytes_of(slots, p)]
        #![trigger state::packets_of(slots, p)]
        state::bytes_of(slots, p) <= bound && state::packets_of(slots, p) <= bound
}

pub open spec fn streams_within(s: State, bound: nat) -> bool {
    forall|i: int| #[trigger] s.live_at(i) ==> stream_within(s.at(i), bound)
}

/// Every count is within a bound.
pub open spec fn within(s: State, bound: nat) -> bool {
    &&& timed(s.config)
    &&& layer::in_time(s.clock)
    &&& s.stop_classes.len() == 4
    &&& s.stop_classes[0] <= bound
    &&& s.stop_classes[1] <= bound
    &&& s.stop_classes[2] <= bound
    &&& s.stop_classes[3] <= bound
    &&& s.totals.packets <= bound
    &&& s.totals.bytes <= bound
    &&& s.totals.streams_created <= bound
    &&& s.totals.flows_condensed <= bound
    &&& s.totals.key_errors <= bound
    &&& s.next_seq <= bound
    &&& ever_within(s.ever, bound)
    &&& streams_within(s, bound)
    &&& sums_within(s.slots, bound)
    &&& groups_within(s.groups, bound)
    &&& register_within(s.unknowns, bound)
}

/// A larger bound holds too.
pub proof fn within_widens(s: State, a: nat, b: nat)
    requires
        within(s, a),
        a <= b,
    ensures
        within(s, b),
{
    assert forall|i: int| #[trigger] s.live_at(i) implies stream_within(s.at(i), b) by {
        assert(stream_within(s.at(i), a));
        assert(rollups_within(s.at(i).rollups, b)) by {
            assert forall|k: int| 0 <= k < s.at(i).rollups.len() implies observations_within(
                (#[trigger] s.at(i).rollups[k]).1,
                b,
            ) by {
                assert(observations_within(s.at(i).rollups[k].1, a));
            }
        }
    }
}

/// Another record of a stream of the same protocol changes the sums by what it
/// adds.
pub proof fn sums_after_put(s: State, id: StreamId, st: StreamView, p: Seq<char>)
    requires
        s.live(id),
        st.protocol == s.get(id)->0.protocol,
    ensures
        ({
            let t = s.put(id, st);
            let o = s.get(id)->0;
            &&& state::live_count(t.slots) == state::live_count(s.slots)
            &&& state::live_of(t.slots, p) == state::live_of(s.slots, p)
            &&& state::bytes_of(t.slots, p) == state::bytes_of(s.slots, p) + if p == o.protocol {
                state::stream_bytes(st) - state::stream_bytes(o)
            } else {
                0int
            }
            &&& state::packets_of(t.slots, p) == state::packets_of(s.slots, p) + if p
                == o.protocol {
                state::stream_packets(st) - state::stream_packets(o)
            } else {
                0int
            }
        }),
{
    let i = id.index as int;
    let x = Slot { generation: s.slots[i].generation, stream: Some(st) };
    total_after_update(s.slots, i, x, live_quantity());
    total_after_update(
        s.slots,
        i,
        x,
        |x: Slot|
            if state::is_of(x, p) {
                1int
            } else {
                0int
            },
    );
    total_after_update(
        s.slots,
        i,
        x,
        |x: Slot|
            if state::is_of(x, p) {
                state::stream_bytes(x.stream->0)
            } else {
                0int
            },
    );
    total_after_update(
        s.slots,
        i,
        x,
        |x: Slot|
            if state::is_of(x, p) {
                state::stream_packets(x.stream->0)
            } else {
                0int
            },
    );
}

/// The sums with a new stream, which has counted nothing yet.
pub proof fn sums_after_placed(slots: Seq<Slot>, id: StreamId, st: StreamView, p: Seq<char>)
    requires
        id.index <= slots.len(),
        id.index < slots.len() ==> slots[id.index as int].stream is None,
        state::stream_bytes(st) == 0,
        state::stream_packets(st) == 0,
    ensures
        ({
            let t = state::placed(slots, id, st);
            &&& state::live_count(t) == state::live_count(slots) + 1
            &&& state::live_of(t, p) == state::live_of(slots, p) + if p == st.protocol {
                1int
            } else {
                0int
            }
            &&& state::bytes_of(t, p) == state::bytes_of(slots, p)
            &&& state::packets_of(t, p) == state::packets_of(slots, p)
        }),
{
    let i = id.index as int;
    let fl = |x: Slot|
        if state::is_of(x, p) {
            1int
        } else {
            0int
        };
    let fb = |x: Slot|
        if state::is_of(x, p) {
            state::stream_bytes(x.stream->0)
        } else {
            0int
        };
    let fp = |x: Slot|
        if state::is_of(x, p) {
            state::stream_packets(x.stream->0)
        } else {
            0int
        };
    if i < slots.len() {
        let x = Slot { generation: slots[i].generation, stream: Some(st) };
        total_after_update(slots, i, x, live_quantity());
        total_after_update(slots, i, x, fl);
        total_after_update(slots, i, x, fb);
        total_after_update(slots, i, x, fp);
    } else {
        let x = Slot { generation: 0, stream: Some(st) };
        total_after_push(slots, x, live_quantity());
        total_after_push(slots, x, fl);
        total_after_push(slots, x, fb);
        total_after_push(slots, x, fp);
    }
}

/// The sums without a stream.
pub proof fn sums_after_emptied(slots: Seq<Slot>, i: int, generation: u32, p: Seq<char>)
    requires
        0 <= i < slots.len(),
        slots[i].stream is Some,
    ensures
        ({
            let t = slots.update(i, Slot { generation, stream: None });
            let o = slots[i].stream->0;
            &&& state::live_count(t) == state::live_count(slots) - 1
            &&& state::live_of(t, p) == state::live_of(slots, p) - if p == o.protocol {
                1int
            } else {
                0int
            }
            &&& state::bytes_of(t, p) == state::bytes_of(slots, p) - if p == o.protocol {
                state::stream_bytes(o)
            } else {
                0int
            }
            &&& state::packets_of(t, p) == state::packets_of(slots, p) - if p == o.protocol {
                state::stream_packets(o)
            } else {
                0int
            }
        }),
{
    let x = Slot { generation, stream: None };
    total_after_update(slots, i, x, live_quantity());
    total_after_update(
        slots,
        i,
        x,
        |x: Slot|
            if state::is_of(x, p) {
                1int
            } else {
                0int
            },
    );
    total_after_update(
        slots,
        i,
        x,
        |x: Slot|
            if state::is_of(x, p) {
                state::stream_bytes(x.stream->0)
            } else {
                0int
            },
    );
    total_after_update(
        slots,
        i,
        x,
        |x: Slot|
            if state::is_of(x, p) {
                state::stream_packets(x.stream->0)
            } else {
                0int
            },
    );
}

/// Another record of a stream keeps the counts within a bound that has room for
/// what it adds.
pub proof fn within_after_put(s: State, a: nat, id: StreamId, st: StreamView, b: nat)
    requires
        within(s, a),
        s.live(id),
        a <= b,
        stream_within(st, b),
        st.protocol == s.get(id)->0.protocol,
        state::stream_bytes(st) <= state::stream_bytes(s.get(id)->0) + (b - a),
        state::stream_packets(st) <= state::stream_packets(s.get(id)->0) + (b - a),
    ensures
        within(s.put(id, st), b),
{
    within_widens(s, a, b);
    let t = s.put(id, st);
    assert forall|i: int| #[trigger] t.live_at(i) implies stream_within(t.at(i), b) by {
        assert(s.live_at(i));
    }
    assert forall|p: Seq<char>|
        #![trigger state::bytes_of(t.slots, p)]
        #![trigger state::packets_of(t.slots, p)]
        state::bytes_of(t.slots, p) <= b && state::packets_of(t.slots, p) <= b by {
        sums_after_put(s, id, st, p);
        assert(state::bytes_of(s.slots, p) <= a && state::packets_of(s.slots, p) <= a);
    }
}

/// The sums after a stream was created.
pub proof fn sums_after_created(s: State, n: Newcomer, p: Seq<char>)
    requires
        tree::numbered(s),
        tree::recyclable(s),
        s.slots.len() < u32::MAX,
        n.parent is Some ==> s.live(n.parent->0),
    ensures
        ({
            let t = state::created(s, n);
            &&& state::live_count(t.slots) == state::live_count(s.slots) + 1
            &&& state::live_of(t.slots, p) == state::live_of(s.slots, p) + if p == n.protocol {
                1int
            } else {
                0int
            }
            &&& state::bytes_of(t.slots, p) == state::bytes_of(s.slots, p)
            &&& state::packets_of(t.slots, p) == state::packets_of(s.slots, p)
        }),
{
    tree::creating_adds_one(s, n);
    let id = state::next_id(s);
    let rec = state::record(n, id, s.next_seq);
    if s.free.len() > 0 {
        assert(s.free[s.free.len() - 1] < s.slots.len());
    }
    sums_after_placed(s.slots, id, rec, p);
    if n.parent is Some {
        let q = n.parent->0;
        let mid = State { slots: state::placed(s.slots, id, rec), ..s };
        assert(mid.live(q) && mid.get(q) == s.get(q)) by {
            assert(q.index != id.index);
        }
        let o = mid.get(q)->0;
        sums_after_put(mid, q, StreamView { children: o.children.push(id), ..o }, p);
    }
}

/// Creating a stream adds one to the counts at most.
pub proof fn within_after_created(s: State, a: nat, n: Newcomer)
    requires
        within(s, a),
        tree::numbered(s),
        tree::recyclable(s),
        s.slots.len() < u32::MAX,
        n.parent is Some ==> s.live(n.parent->0),
        a < u64::MAX,
        layer::in_time(n.ts),
        rollups_within(n.rollups, 0),
        n.condensed is Some ==> n.condensed->0.member_flows == 0,
    ensures
        within(state::created(s, n), a + 1),
{
    let t = state::created(s, n);
    let id = state::next_id(s);
    let b = a + 1;
    within_widens(s, a, b);
    tree::creating_adds_one(s, n);
    assert forall|i: int| #[trigger] t.live_at(i) implies stream_within(t.at(i), b) by {
        if i == id.index {
            assert(t.get(id) == Some(t.at(i)));
            assert forall|k: int| 0 <= k < n.rollups.len() implies observations_within(
                (#[trigger] n.rollups[k]).1,
                b,
            ) by {
                assert(observations_within(n.rollups[k].1, 0));
            }
        } else {
            assert(s.live_at(i));
            let x = s.at(i).id;
            assert(s.live(x));
            assert(t.get(x) == Some(t.at(i)));
            assert(stream_within(s.at(i), b));
        }
    }
    assert forall|p: Seq<char>|
        #![trigger state::bytes_of(t.slots, p)]
        #![trigger state::packets_of(t.slots, p)]
        state::bytes_of(t.slots, p) <= b && state::packets_of(t.slots, p) <= b by {
        sums_after_created(s, n, p);
        assert(state::bytes_of(s.slots, p) <= a && state::packets_of(s.slots, p) <= a);
    }
    assert forall|p: Seq<char>| #[trigger] t.ever.contains_key(p) implies t.ever[p] <= b by {
        if p == n.protocol {
            if s.ever.contains_key(p) {
                assert(s.ever[p] <= a);
            }
        } else {
            assert(s.ever.contains_key(p));
        }
    }
}

/// The sums after a leaf was evicted.
pub proof fn sums_after_evict(s: State, id: StreamId, reason: CloseReason, p: Seq<char>)
    requires
        tree::hierarchy(s),
        s.live(id),
        s.get(id)->0.children.len() == 0,
    ensures
        ({
            let t = state::evict(s, id, reason);
            let o = s.get(id)->0;
            &&& state::live_count(t.slots) == state::live_count(s.slots) - 1
            &&& state::live_of(t.slots, p) == state::live_of(s.slots, p) - if p == o.protocol {
                1int
            } else {
                0int
            }
            &&& state::bytes_of(t.slots, p) == state::bytes_of(s.slots, p) - if p == o.protocol {
                state::stream_bytes(o)
            } else {
                0int
            }
            &&& state::packets_of(t.slots, p) == state::packets_of(s.slots, p) - if p
                == o.protocol {
                state::stream_packets(o)
            } else {
                0int
            }
        }),
{
    let i = id.index as int;
    let o = s.get(id)->0;
    let g = state::next_generation(s.slots[i].generation);
    sums_after_emptied(s.slots, i, g, p);
    tree::handles_are_unique(s, id);
    match o.parent {
        Some(q) => {
            assert(s.live_at(i));
            assert(s.live(q));
            tree::handles_are_unique(s, q);
            assert(q.index != i) by {
                assert(s.get(q)->0.created_seq < o.created_seq);
            }
            let gone = State {
                slots: s.slots.update(i, Slot { generation: g, stream: None }),
                free: s.free.push(id.index),
                groups: state::groups_without(s, o),
                ..s
            };
            assert(gone.get(q) == s.get(q) && gone.live(q));
            let r = gone.get(q)->0;
            sums_after_put(
                gone,
                q,
                StreamView { children: state::without(r.children, id), ..r },
                p,
            );
        },
        None => {},
    }
}

proof fn lemma_struck_within(
    groups: Map<GroupKey, Group>,
    parent: Option<StreamId>,
    protocol: Seq<char>,
    anchors: Seq<Candidate>,
    n: int,
    b: nat,
)
    requires
        groups_within(groups, b),
    ensures
        groups_within(state::struck_all(groups, parent, protocol, anchors, n), b),
    decreases n,
{
    if n > 0 {
        lemma_struck_within(groups, parent, protocol, anchors, n - 1, b);
        let g = state::struck_all(groups, parent, protocol, anchors, n - 1);
        let k = state::group_key(parent, protocol, anchors[n - 1].anchor);
        let t = state::struck(g, k);
        assert forall|x: GroupKey| #[trigger] t.contains_key(x) implies t[x].expanded <= b
            && t[x].members.finite() by {
            assert(g.contains_key(x));
        }
    }
}

/// Evicting a leaf adds to no count.
pub proof fn within_after_evict(s: State, b: nat, id: StreamId, reason: CloseReason)
    requires
        within(s, b),
        tree::hierarchy(s),
        s.live(id),
        s.get(id)->0.children.len() == 0,
    ensures
        within(state::evict(s, id, reason), b),
{
    let t = state::evict(s, id, reason);
    let o = s.get(id)->0;
    tree::evicting_removes_one(s, id, reason);
    assert forall|i: int| #[trigger] t.live_at(i) implies stream_within(t.at(i), b) by {
        assert(s.live_at(i));
        let x = s.at(i).id;
        assert(s.live(x) && x != id);
        assert(t.live(x));
        assert(t.get(x) == Some(t.at(i)));
    }
    assert(s.live_at(id.index as int));
    assert forall|p: Seq<char>|
        #![trigger state::bytes_of(t.slots, p)]
        #![trigger state::packets_of(t.slots, p)]
        state::bytes_of(t.slots, p) <= b && state::packets_of(t.slots, p) <= b by {
        sums_after_evict(s, id, reason, p);
        assert(state::bytes_of(s.slots, p) <= b && state::packets_of(s.slots, p) <= b);
        assert(stream_within(o, b));
    }
    assert(groups_within(t.groups, b)) by {
        assert(t.groups == state::groups_without(s, o));
        match s.rules(o.protocol) {
            Some(rules) => match state::anchors_of(s, rules, o.key_fields) {
                Some(anchors) => lemma_struck_within(
                    s.groups,
                    o.parent,
                    o.protocol,
                    anchors,
                    anchors.len() as int,
                    b,
                ),
                None => {},
            },
            None => {},
        }
    }
}

} // verus!

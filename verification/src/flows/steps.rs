//! What each step of taking a packet in keeps: the hierarchy, and the bounds of
//! the counts.
use vstd::prelude::*;

use crate::engine::Rules;
use crate::flows::bounds;
use crate::flows::queues;
use crate::flows::rollup;
use crate::flows::state::{self, Candidate, Group, GroupKey, Progress, Resolved, State};
use crate::flows::stream::{self, StreamId, StreamView};
use crate::flows::tree;
use crate::flows::unknown;
use crate::identity::{Identity, PacketDirection};
use crate::layer::{self, LayerView, PacketMeta, Timestamp};
use crate::packet::Packet;
use crate::value::Fields;

verus! {

/// Slots that were never written to count nothing.
pub proof fn empty_slots_count_nothing(s: State, identity: Identity)
    ensures
        bounds::rollups_within(state::slots_for(s, identity), 0),
{
}

/// A group with another count and another node, within its bound.
proof fn lemma_group_within(groups: Map<GroupKey, Group>, k: GroupKey, g: Group, a: nat, b: nat)
    requires
        bounds::groups_within(groups, a),
        a <= b,
        g.expanded <= b,
        g.members.finite(),
    ensures
        bounds::groups_within(groups.insert(k, g), b),
{
    let t = groups.insert(k, g);
    assert forall|x: GroupKey| #[trigger] t.contains_key(x) implies t[x].expanded <= b
        && t[x].members.finite() by {
        if x != k {
            assert(groups.contains_key(x));
        }
    }
}

/// A group's condensed node is there once it is needed, and adding it keeps the
/// hierarchy.
pub proof fn adding_a_node_keeps(
    s: State,
    k: GroupKey,
    identity: Identity,
    c: Candidate,
    ts: Timestamp,
    b: nat,
)
    requires
        tree::hierarchy(s),
        bounds::within(s, b),
        s.groups.contains_key(k),
        k.parent is Some ==> s.live(k.parent->0),
        s.slots.len() < u32::MAX,
        b < u64::MAX,
        layer::in_time(ts),
    ensures
        ({
            let t = state::with_node(s, k, identity, c, ts);
            &&& tree::hierarchy(t)
            &&& bounds::within(t, b + 1)
            &&& state::has_node(t, k)
            &&& t.groups.contains_key(k)
            &&& t.slots.len() <= s.slots.len() + 1
            &&& t.config == s.config
            &&& t.protocols == s.protocols
            &&& t.load == s.load
            &&& t.unknowns == s.unknowns
        }),
{
    let t = state::with_node(s, k, identity, c, ts);
    if state::has_node(s, k) {
        bounds::within_widens(s, b, b + 1);
    } else {
        let n = state::node(s, k.parent, k.protocol, identity, c, ts);
        let u = state::created(s, n);
        empty_slots_count_nothing(s, identity);
        tree::creating_adds_one(s, n);
        tree::creating_keeps_the_hierarchy(s, n);
        bounds::within_after_created(s, b, n);
        queues::lemma_same_hierarchy(u, t);
        assert(u.groups == s.groups);
        lemma_group_within(u.groups, k, t.groups[k], b + 1, b + 1);
        assert(t.live(state::next_id(s)));
        assert(u.ever.contains_key(k.protocol) && u.ever[k.protocol] >= 1) by {
            if s.ever.contains_key(k.protocol) {
                assert(s.ever[k.protocol] <= b);
            }
        }
        assert forall|p: Seq<char>| #[trigger] t.ever.contains_key(p) implies t.ever[p] <= b + 1 by {
            assert(u.ever.contains_key(p));
        }
        assert forall|i: int| #[trigger] t.live_at(i) implies bounds::stream_within(
            t.at(i),
            b + 1,
        ) by {
            assert(u.live_at(i));
        }
    }
}

/// Meeting a flow keeps the hierarchy and adds one to the counts at most.
pub proof fn meeting_a_flow_keeps(s: State, k: GroupKey, id: StreamId, c: Candidate, b: nat)
    requires
        tree::hierarchy(s),
        bounds::within(s, b),
        s.groups.contains_key(k),
        b < u64::MAX,
    ensures
        ({
            let t = state::with_member(s, k, id, c);
            &&& tree::hierarchy(t)
            &&& bounds::within(t, b + 1)
            &&& forall|x: StreamId| #[trigger] t.live(x) <==> s.live(x)
            &&& forall|i: int| #[trigger] t.live_at(i) <==> s.live_at(i)
            &&& t.slots.len() == s.slots.len()
            &&& t.config == s.config
            &&& t.protocols == s.protocols
            &&& t.load == s.load
            &&& t.unknowns == s.unknowns
        }),
{
    let g = s.groups[k];
    let fresh = state::is_new_member(g, c.varying);
    let lost = state::overflows(g, c.varying);
    bounds::within_widens(s, b, b + 1);
    let t = if fresh {
        State {
            groups: s.groups.insert(k, Group { members: g.members.insert(c.varying), ..g }),
            totals: crate::flows::state::Totals {
                streams_created: (s.totals.streams_created + 1) as u64,
                flows_condensed: (s.totals.flows_condensed + 1) as u64,
                ..s.totals
            },
            ever: state::counted_up(s.ever, k.protocol),
            ..s
        }
    } else {
        s
    };
    if fresh {
        queues::lemma_same_hierarchy(s, t);
        lemma_group_within(s.groups, k, t.groups[k], b, b + 1);
        assert forall|p: Seq<char>| #[trigger] t.ever.contains_key(p) implies t.ever[p] <= b + 1 by {
            if s.ever.contains_key(p) {
                assert(s.ever[p] <= b);
            }
        }
        assert forall|i: int| #[trigger] t.live_at(i) implies bounds::stream_within(
            t.at(i),
            b + 1,
        ) by {
            assert(s.live_at(i));
        }
        assert(bounds::within(t, b + 1));
    }
    if (fresh || lost) && t.live(id) {
        let st = t.get(id)->0;
        let after = state::tallied(st, fresh, lost);
        assert(s.live_at(id.index as int));
        assert(bounds::stream_within(s.at(id.index as int), b));
        assert(bounds::stream_within(s.at(id.index as int), b + 1));
        tree::updating_keeps_the_hierarchy(t, id, after);
        bounds::within_after_put(t, b + 1, id, after, b + 1);
    }
}

/// One flow more in a group adds one to its count.
pub proof fn enrolling_keeps(s: State, k: GroupKey, b: nat)
    requires
        tree::hierarchy(s),
        bounds::within(s, b),
        b < u64::MAX,
    ensures
        tree::hierarchy(state::enrolled(s, k)),
        bounds::within(state::enrolled(s, k), b + 1),
{
    let t = state::enrolled(s, k);
    queues::lemma_same_hierarchy(s, t);
    bounds::within_widens(s, b, b + 1);
    lemma_group_within(s.groups, k, t.groups[k], b, b + 1);
    assert forall|i: int| #[trigger] t.live_at(i) implies bounds::stream_within(t.at(i), b + 1) by {
        assert(s.live_at(i));
    }
}

/// One flow more in each of some groups.
pub proof fn enrolling_all_keeps(
    s: State,
    parent: Option<StreamId>,
    protocol: Seq<char>,
    anchors: Seq<Candidate>,
    n: nat,
    b: nat,
)
    requires
        tree::hierarchy(s),
        bounds::within(s, b),
        b + n <= u64::MAX,
    ensures
        ({
            let t = state::enrolled_all(s, parent, protocol, anchors, n as int);
            &&& tree::hierarchy(t)
            &&& bounds::within(t, b + n)
            &&& t == (State { groups: t.groups, ..s })
        }),
    decreases n,
{
    if n > 0 {
        let m = (n - 1) as nat;
        enrolling_all_keeps(s, parent, protocol, anchors, m, b);
        enrolling_keeps(
            state::enrolled_all(s, parent, protocol, anchors, m as int),
            state::group_key(parent, protocol, anchors[n - 1].anchor),
            b + m,
        );
    }
}

/// Enrolling a flow changes no stream.
pub proof fn enrolling_leaves_slots(
    s: State,
    parent: Option<StreamId>,
    protocol: Seq<char>,
    anchors: Seq<Candidate>,
    n: int,
)
    ensures
        state::enrolled_all(s, parent, protocol, anchors, n).slots == s.slots,
    decreases n,
{
    if n > 0 {
        enrolling_leaves_slots(s, parent, protocol, anchors, n - 1);
    }
}

/// Where [`state::fold_at`] finds a group.
pub proof fn fold_is_there(
    s: State,
    parent: Option<StreamId>,
    protocol: Seq<char>,
    anchors: Seq<Candidate>,
    i: int,
)
    requires
        0 <= i,
    ensures
        match state::fold_at(s, parent, protocol, anchors, i) {
            Some(k) => i <= k < anchors.len() && state::triggered(
                s,
                state::group_key(parent, protocol, anchors[k].anchor),
            ),
            None => forall|k: int|
                i <= k < anchors.len() ==> !state::triggered(
                    s,
                    state::group_key(parent, protocol, (#[trigger] anchors[k]).anchor),
                ),
        },
    decreases anchors.len() - i,
{
    if i < anchors.len() {
        fold_is_there(s, parent, protocol, anchors, i + 1);
    }
}

/// A stream that is looked up is live, and is the conversation's.
pub proof fn lookup_is_live(s: State, parent: Option<StreamId>, protocol: Seq<char>, key: Seq<u8>)
    requires
        tree::numbered(s),
    ensures
        state::lookup(s, parent, protocol, key) matches Some(id) ==> s.live(id) && {
            let st = s.get(id)->0;
            st.parent == parent && st.protocol == protocol && st.key == key
        },
{
    if exists|i: int| state::oldest(s, i, parent, protocol, key) {
        let i = choose|i: int| state::oldest(s, i, parent, protocol, key);
        assert(state::oldest(s, i, parent, protocol, key));
        assert(s.live_at(i));
    }
}

/// Folding a flow into its anchor's node keeps the hierarchy, and the node is
/// live.
pub proof fn folding_keeps(
    s: State,
    k: GroupKey,
    identity: Identity,
    c: Candidate,
    ts: Timestamp,
    b: nat,
)
    requires
        tree::hierarchy(s),
        bounds::within(s, b),
        s.groups.contains_key(k),
        k.parent is Some ==> s.live(k.parent->0),
        s.slots.len() < u32::MAX,
        b + 2 <= u64::MAX,
        layer::in_time(ts),
    ensures
        ({
            let r = state::folded(s, k, identity, c, ts);
            &&& tree::hierarchy(r.state)
            &&& bounds::within(r.state, b + 2)
            &&& r.state.live(r.id)
            &&& r.state.slots.len() <= s.slots.len() + 1
            &&& r.state.config == s.config
            &&& r.state.protocols == s.protocols
            &&& r.state.load == s.load
            &&& r.state.unknowns == s.unknowns
        }),
{
    let t = state::with_node(s, k, identity, c, ts);
    adding_a_node_keeps(s, k, identity, c, ts, b);
    meeting_a_flow_keeps(t, k, t.groups[k].node->0, c, b + 1);
}

/// Resolving a layer keeps the hierarchy, adds three to the counts at most, and
/// leads to a live stream.
pub proof fn resolving_keeps(
    s: State,
    parent: Option<StreamId>,
    key: Seq<u8>,
    rules: Rules,
    layer: LayerView,
    dir: PacketDirection,
    ts: Timestamp,
    b: nat,
)
    requires
        tree::hierarchy(s),
        bounds::within(s, b),
        parent is Some ==> s.live(parent->0),
        s.slots.len() < u32::MAX,
        b + 3 <= u64::MAX,
        layer::in_time(ts),
    ensures
        ({
            let r = state::resolved(s, parent, key, rules, layer, dir, ts);
            &&& tree::hierarchy(r.state)
            &&& bounds::within(r.state, b + 3)
            &&& r.state.live(r.id)
            &&& r.state.slots.len() <= s.slots.len() + 1
            &&& r.state.config == s.config
            &&& r.state.protocols == s.protocols
            &&& r.state.load == s.load
            &&& r.state.unknowns == s.unknowns
        }),
{
    let identity = rules.identity->0;
    lookup_is_live(s, parent, layer.protocol, key);
    bounds::within_widens(s, b, b + 3);
    if state::lookup(s, parent, layer.protocol, key) is None {
        let n = state::flow(s, parent, key, identity, layer, dir, ts);
        let fresh = state::created(s, n);
        empty_slots_count_nothing(s, identity);
        tree::creating_adds_one(s, n);
        tree::creating_keeps_the_hierarchy(s, n);
        bounds::within_after_created(s, b, n);
        assert(fresh.live(state::next_id(s)));
        match state::anchors_of(s, rules, layer.fields) {
            None => {
                bounds::within_widens(fresh, b + 1, b + 3);
            },
            Some(anchors) => {
                fold_is_there(s, parent, layer.protocol, anchors, 0);
                match state::fold_at(s, parent, layer.protocol, anchors, 0) {
                    Some(i) => {
                        let k = state::group_key(parent, layer.protocol, anchors[i].anchor);
                        folding_keeps(s, k, identity, anchors[i], ts, b);
                        let r = state::folded(s, k, identity, anchors[i], ts);
                        bounds::within_widens(r.state, b + 2, b + 3);
                    },
                    None => {
                        enrolling_all_keeps(
                            fresh,
                            parent,
                            layer.protocol,
                            anchors,
                            anchors.len(),
                            b + 1,
                        );
                        let t = state::enrolled_all(
                            fresh,
                            parent,
                            layer.protocol,
                            anchors,
                            anchors.len() as int,
                        );
                        assert(t.live(state::next_id(s)));
                        bounds::within_widens(t, b + 1 + anchors.len(), b + 3);
                    },
                }
            },
        }
    }
}

/// What a stream retains counts one observation more at most.
proof fn lemma_rollups_within(
    r: rollup::Rollups,
    fields: Fields,
    base: Timestamp,
    ts: Timestamp,
    dir: PacketDirection,
    b: nat,
)
    requires
        bounds::rollups_within(r, b),
        b < u64::MAX,
    ensures
        bounds::rollups_within(rollup::updated(r, fields, base, ts, dir), b + 1),
{
    let t = rollup::updated(r, fields, base, ts, dir);
    assert forall|k: int| 0 <= k < t.len() implies bounds::observations_within(
        (#[trigger] t[k]).1,
        b + 1,
    ) by {
        assert(bounds::observations_within(r[k].1, b));
        assert(t[k] == rollup::updated_slot(r[k], fields, base, ts, dir));
    }
}

/// Counting a packet keeps a stream's counts within what the packet adds.
pub proof fn touching_stays_within(
    st: StreamView,
    identity: Identity,
    fields: Fields,
    ts: Timestamp,
    dir: PacketDirection,
    bytes: nat,
    b: nat,
)
    requires
        bounds::stream_within(st, b),
        layer::in_time(ts),
        b + bytes + 1 <= u64::MAX,
    ensures
        ({
            let t = stream::touched(st, identity, fields, ts, dir, bytes as int);
            &&& bounds::stream_within(t, b + bytes + 1)
            &&& t.protocol == st.protocol
            &&& tree::same_place(st, t)
            &&& state::stream_bytes(t) == state::stream_bytes(st) + bytes
            &&& state::stream_packets(t) == state::stream_packets(st) + 1
        }),
{
    lemma_rollups_within(st.rollups, fields, st.first_seen, ts, dir, b);
    let r = rollup::updated(st.rollups, fields, st.first_seen, ts, dir);
    assert(bounds::rollups_within(r, b + bytes + 1)) by {
        assert forall|k: int| 0 <= k < r.len() implies bounds::observations_within(
            (#[trigger] r[k]).1,
            b + bytes + 1,
        ) by {
            assert(bounds::observations_within(r[k].1, b + 1));
        }
    }
}

/// Counting a packet in a layer's stream keeps the hierarchy.
pub proof fn attributing_keeps(
    r: Resolved,
    identity: Identity,
    layer: LayerView,
    meta: PacketMeta,
    b: nat,
)
    requires
        tree::hierarchy(r.state),
        bounds::within(r.state, b),
        r.state.live(r.id),
        layer::in_time(meta.timestamp),
        b + meta.origlen + 1 <= u64::MAX,
    ensures
        ({
            let t = state::attributed(r, identity, layer, meta);
            &&& tree::hierarchy(t)
            &&& bounds::within(t, b + meta.origlen as nat + 1)
            &&& forall|x: StreamId| #[trigger] t.live(x) <==> r.state.live(x)
            &&& forall|i: int| #[trigger] t.live_at(i) <==> r.state.live_at(i)
            &&& t.slots.len() == r.state.slots.len()
            &&& t.config == r.state.config
            &&& t.protocols == r.state.protocols
            &&& t.load == r.state.load
            &&& t.unknowns == r.state.unknowns
        }),
{
    let s = r.state;
    let st = s.get(r.id)->0;
    let c = b + meta.origlen as nat + 1;
    assert(s.live_at(r.id.index as int));
    assert(bounds::stream_within(s.at(r.id.index as int), b));
    let after = stream::touched(
        st,
        identity,
        layer.fields,
        meta.timestamp,
        r.dir,
        meta.origlen as int,
    );
    touching_stays_within(
        st,
        identity,
        layer.fields,
        meta.timestamp,
        r.dir,
        meta.origlen as nat,
        b,
    );
    let u = s.put(r.id, after);
    tree::updating_keeps_the_hierarchy(s, r.id, after);
    bounds::within_after_put(s, b, r.id, after, c);
    let t = state::attributed(r, identity, layer, meta);
    queues::lemma_same_hierarchy(u, t);
    queues::lemma_same_bounds(u, t, c);
    assert forall|x: StreamId| #[trigger] t.live(x) <==> s.live(x) by {
        assert(u.live(x) <==> s.live(x));
    }
    assert forall|i: int| #[trigger] t.live_at(i) <==> s.live_at(i) by {
        assert(u.live_at(i) <==> s.live_at(i));
    }
}

/// Whether a packet has been taken in so far without harm: the hierarchy is
/// consistent, the counts are within a bound and the last layer's stream is
/// live.
pub open spec fn on_course(p: Progress, b: nat) -> bool {
    &&& tree::hierarchy(p.state)
    &&& bounds::within(p.state, b)
    &&& p.parent is Some ==> p.state.live(p.parent->0)
}

/// Taking a layer in keeps the hierarchy and adds the layer's weight to the
/// counts at most.
pub proof fn taking_keeps(p: Progress, layer: LayerView, meta: PacketMeta, b: nat)
    requires
        on_course(p, b),
        layer::in_time(meta.timestamp),
        p.state.slots.len() < u32::MAX,
        b + state::layer_weight(meta) <= u64::MAX,
    ensures
        ({
            let q = state::taken(p, layer, meta);
            &&& on_course(q, b + state::layer_weight(meta) as nat)
            &&& q.state.slots.len() <= p.state.slots.len() + 1
            &&& q.state.config == p.state.config
            &&& q.state.protocols == p.state.protocols
            &&& q.state.unknowns == p.state.unknowns
            &&& q.state.load == p.state.load + state::layer_weight(meta)
        }),
{
    let s = State { load: (p.state.load + state::layer_weight(meta)) as nat, ..p.state };
    let c = b + state::layer_weight(meta) as nat;
    queues::lemma_same_hierarchy(p.state, s);
    queues::lemma_same_bounds(p.state, s, b);
    bounds::within_widens(s, b, c);
    assert(p.parent is Some ==> s.live(p.parent->0));
    match s.rules(layer.protocol) {
        None => {},
        Some(rules) => match rules.identity {
            None => {},
            Some(identity) => match crate::flows::key::key_of(identity, layer.fields) {
                Err(_) => {
                    let t = state::taken(p, layer, meta).state;
                    queues::lemma_same_hierarchy(s, t);
                    assert forall|i: int| #[trigger] t.live_at(i) implies bounds::stream_within(
                        t.at(i),
                        c,
                    ) by {
                        assert(s.live_at(i));
                    }
                    assert(p.parent is Some ==> t.live(p.parent->0));
                },
                Ok((key, dir)) => {
                    let r = state::resolved(
                        s,
                        p.parent,
                        key,
                        rules,
                        layer,
                        dir,
                        meta.timestamp,
                    );
                    resolving_keeps(s, p.parent, key, rules, layer, dir, meta.timestamp, b);
                    attributing_keeps(r, identity, layer, meta, b + 3);
                },
            },
        },
    }
}

/// Taking layers in keeps the hierarchy.
pub proof fn taking_all_keeps(s: State, layers: Seq<LayerView>, n: nat, meta: PacketMeta, b: nat)
    requires
        tree::hierarchy(s),
        bounds::within(s, b),
        layer::in_time(meta.timestamp),
        s.slots.len() + n <= u32::MAX,
        b + n * state::layer_weight(meta) <= u64::MAX,
    ensures
        ({
            let q = state::taken_all(s, layers, n as int, meta);
            &&& on_course(q, (b + n * state::layer_weight(meta)) as nat)
            &&& q.state.slots.len() <= s.slots.len() + n
            &&& q.state.config == s.config
            &&& q.state.protocols == s.protocols
            &&& q.state.unknowns == s.unknowns
            &&& q.state.load == s.load + n * state::layer_weight(meta)
        }),
    decreases n,
{
    let w = state::layer_weight(meta);
    if n > 0 {
        let m = (n - 1) as nat;
        assert(n * w == m * w + w) by (nonlinear_arith)
            requires
                n == m + 1,
        ;
        assert(m * w >= 0) by (nonlinear_arith)
            requires
                w >= 0,
        ;
        taking_all_keeps(s, layers, m, meta, b);
        taking_keeps(
            state::taken_all(s, layers, m as int, meta),
            layers[n - 1],
            meta,
            (b + m * w) as nat,
        );
    } else {
        assert(n * w == 0) by (nonlinear_arith)
            requires
                n == 0,
        ;
    }
}

/// What a step of a queue leaves alone.
pub open spec fn settled(s: State, t: State) -> bool {
    &&& t.protocols == s.protocols
    &&& t.config == s.config
    &&& t.clock == s.clock
    &&& t.totals == s.totals
    &&& t.next_seq == s.next_seq
    &&& t.stop_classes == s.stop_classes
    &&& t.ever == s.ever
    &&& t.unknowns == s.unknowns
    &&& t.load == s.load
    &&& t.slots.len() == s.slots.len()
}

/// A sweep keeps the hierarchy and the counts, and leaves no entry that is due.
pub proof fn sweeping_keeps(s: State, b: nat)
    requires
        tree::hierarchy(s),
        bounds::within(s, b),
    ensures
        tree::hierarchy(state::swept(s)),
        bounds::within(state::swept(s), b),
        settled(s, state::swept(s)),
        !state::sweepable(state::swept(s)),
    decreases state::live_count(s.slots), state::due_entries(s),
{
    if state::sweepable(s) {
        bounds::live_count_is_bounded(s.slots);
        queues::sweeping_progresses(s, b);
        sweeping_keeps(state::sweep_step(s), b);
    }
}

/// The cap keeps the hierarchy and the counts, and is not exceeded as long as
/// there are candidates.
pub proof fn capping_keeps(s: State, b: nat)
    requires
        tree::hierarchy(s),
        bounds::within(s, b),
    ensures
        tree::hierarchy(state::capped(s)),
        bounds::within(state::capped(s), b),
        settled(s, state::capped(s)),
        !state::over_cap(state::capped(s)),
    decreases state::live_count(s.slots), state::stale_candidates(s),
{
    if state::over_cap(s) {
        bounds::live_count_is_bounded(s.slots);
        queues::capping_progresses(s, b);
        capping_keeps(state::cap_step(s), b);
    }
}

/// Counting a packet keeps the hierarchy.
pub proof fn beginning_keeps(s: State, pkt: Packet, b: nat)
    requires
        tree::hierarchy(s),
        bounds::within(s, b),
        layer::in_time(pkt.meta.timestamp),
        b + pkt.meta.origlen + 1 <= u64::MAX,
    ensures
        tree::hierarchy(state::begun(s, pkt)),
        bounds::within(state::begun(s, pkt), b + pkt.meta.origlen as nat + 1),
{
    let t = state::begun(s, pkt);
    let c = b + pkt.meta.origlen as nat + 1;
    bounds::within_widens(s, b, c);
    queues::lemma_same_hierarchy(s, t);
    assert forall|i: int| #[trigger] t.live_at(i) implies bounds::stream_within(t.at(i), c) by {
        assert(s.live_at(i));
    }
}

/// Payload that nothing took keeps the hierarchy.
pub proof fn leftovers_keep(s: State, innermost: Option<StreamId>, bytes: nat, b: nat)
    requires
        tree::hierarchy(s),
        bounds::within(s, b),
        b + bytes <= u64::MAX,
    ensures
        ({
            let t = state::with_opaque(s, innermost, bytes as int);
            &&& tree::hierarchy(t)
            &&& bounds::within(t, b + bytes)
            &&& forall|i: int| #[trigger] t.live_at(i) <==> s.live_at(i)
            &&& forall|x: StreamId| #[trigger] t.live(x) <==> s.live(x)
            &&& t == (State { slots: t.slots, ..s })
            &&& t.slots.len() == s.slots.len()
        }),
{
    bounds::within_widens(s, b, b + bytes);
    if innermost is Some && s.live(innermost->0) {
        let id = innermost->0;
        let st = s.get(id)->0;
        let after = StreamView { opaque_bytes: (st.opaque_bytes + bytes) as u64, ..st };
        assert(s.live_at(id.index as int));
        assert(bounds::stream_within(s.at(id.index as int), b));
        assert(bounds::stream_within(s.at(id.index as int), b + bytes));
        tree::updating_keeps_the_hierarchy(s, id, after);
        bounds::within_after_put(s, b + bytes, id, after, b + bytes);
    }
}

/// Registering an unknown payload keeps the hierarchy.
pub proof fn registering_keeps(
    s: State,
    pkt: Packet,
    endpoint: Option<unknown::Endpoint>,
    a: nat,
    b: nat,
)
    requires
        tree::hierarchy(s),
        bounds::within(s, b),
        bounds::register_within(s.unknowns, a),
        a + pkt.opaque_len + 1 <= b <= u64::MAX,
    ensures
        tree::hierarchy(state::with_unknown(s, pkt, endpoint)),
        bounds::within(state::with_unknown(s, pkt, endpoint), b),
        pkt.unknown is Some ==> unknown::has_room(
            s.unknowns,
            if pkt.opaque_len > u32::MAX {
                u32::MAX
            } else {
                pkt.opaque_len as u32
            },
        ),
{
    let t = state::with_unknown(s, pkt, endpoint);
    if pkt.unknown is Some {
        queues::lemma_same_hierarchy(s, t);
        let bytes: u32 = if pkt.opaque_len > u32::MAX {
            u32::MAX
        } else {
            pkt.opaque_len as u32
        };
        let o = unknown::Occurrence {
            diagnostics: pkt.unknown->0,
            bytes,
            ts: pkt.meta.timestamp,
            endpoint,
        };
        assert(unknown::has_room(s.unknowns, bytes)) by {
            assert forall|k: unknown::Shape| #[trigger]
                s.unknowns.groups.contains_key(k) implies s.unknowns.groups[k].bytes_total + bytes
                <= u64::MAX by {
                assert(s.unknowns.groups[k].bytes_total <= a);
            }
        }
        unknown::ingesting_keeps_the_bound(s.unknowns, o, s.config.unknown);
        assert forall|k: unknown::Shape| #[trigger]
            t.unknowns.groups.contains_key(k) implies t.unknowns.groups[k].bytes_total <= b by {
            if s.unknowns.groups.contains_key(k) {
                assert(s.unknowns.groups[k].bytes_total <= a);
            }
        }
        assert forall|i: int| #[trigger] t.live_at(i) implies bounds::stream_within(t.at(i), b) by {
            assert(s.live_at(i));
        }
    }
}

/// The state before a packet's layers are taken in.
pub open spec fn opened(s: State, pkt: Packet) -> State {
    state::compacted(state::swept(state::begun(s, pkt)))
}

pub proof fn opening_keeps(s: State, pkt: Packet, b: nat)
    requires
        tree::hierarchy(s),
        bounds::within(s, b),
        layer::in_time(pkt.meta.timestamp),
        b + pkt.meta.origlen + 1 <= u64::MAX,
    ensures
        ({
            let t = opened(s, pkt);
            &&& tree::hierarchy(t)
            &&& bounds::within(t, b + pkt.meta.origlen as nat + 1)
            &&& t.slots.len() == s.slots.len()
            &&& t.config == s.config
            &&& t.protocols == s.protocols
            &&& t.unknowns == s.unknowns
            &&& t.load == s.load + pkt.meta.origlen + pkt.opaque_len + 4
        }),
{
    let c = b + pkt.meta.origlen as nat + 1;
    beginning_keeps(s, pkt, b);
    let u = state::swept(state::begun(s, pkt));
    sweeping_keeps(state::begun(s, pkt), c);
    queues::lemma_same_hierarchy(u, state::compacted(u));
    queues::lemma_same_bounds(u, state::compacted(u), c);
}

/// A packet keeps the hierarchy consistent and adds its weight to the counts at
/// most.
pub proof fn ingesting_keeps(s: State, pkt: Packet)
    requires
        tree::hierarchy(s),
        bounds::within(s, s.load),
        state::has_room(s, pkt),
    ensures
        tree::hierarchy(state::ingested(s, pkt)),
        bounds::within(state::ingested(s, pkt), state::ingested(s, pkt).load),
        state::ingested(s, pkt).load == s.load + state::weight(pkt),
        state::ingested(s, pkt).slots.len() <= s.slots.len() + pkt.layers.len(),
        state::ingested(s, pkt).config == s.config,
        state::ingested(s, pkt).protocols == s.protocols,
        !state::over_cap(state::ingested(s, pkt)),
{
    let w = state::layer_weight(pkt.meta);
    let n = pkt.layers.len();
    assert(n * w >= 0) by (nonlinear_arith)
        requires
            w >= 0,
    ;
    let b = s.load;
    let b1 = b + pkt.meta.origlen as nat + 1;
    let b2 = (b1 + n * w) as nat;
    let b3 = b2 + pkt.opaque_len as nat;
    let b4 = (b + state::weight(pkt)) as nat;
    let t1 = opened(s, pkt);
    opening_keeps(s, pkt, b);
    let p = state::taken_all(t1, pkt.layers, n as int, pkt.meta);
    taking_all_keeps(t1, pkt.layers, n, pkt.meta, b1);
    leftovers_keep(p.state, p.parent, pkt.opaque_len as nat, b2);
    let t3 = state::with_opaque(p.state, p.parent, pkt.opaque_len as int);
    bounds::within_widens(t3, b3, b4);
    registering_keeps(t3, pkt, p.endpoint, b, b4);
    let t4 = state::with_unknown(t3, pkt, p.endpoint);
    capping_keeps(t4, b4);
}

} // verus!

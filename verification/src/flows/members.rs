//! The members of condensed nodes: a node counts the distinct flows that were
//! folded into it, exactly until there are more than it can tell apart.
use vstd::prelude::*;

use crate::engine::Rules;
use crate::flows::bounds;
use crate::flows::placing;
use crate::flows::queues;
use crate::flows::state::{
    self, Candidate, Group, GroupKey, Newcomer, Progress, Resolved, State, CONDENSE_MEMBER_CAP,
};
use crate::flows::steps;
use crate::flows::stream::{CloseReason, Condensed, StreamId, StreamView};
use crate::flows::tree;
use crate::identity::{Identity, PacketDirection};
use crate::layer::{self, LayerView, PacketMeta, Timestamp};
use crate::packet::Packet;

verus! {

/// Whether a condensed node counts a group's members: as many as the group tells
/// apart, no more than it can, and with `overflow` only if it can tell no more.
pub open spec fn counts(info: Condensed, g: Group) -> bool {
    &&& g.members.finite()
    &&& info.member_flows == g.members.len()
    &&& g.members.len() <= CONDENSE_MEMBER_CAP
    &&& info.overflow ==> g.members.len() == CONDENSE_MEMBER_CAP
}

/// Whether a group's node counts its members. A group without a node has none.
pub open spec fn group_counted(s: State, g: Group) -> bool {
    match g.node {
        None => g.members == Set::<Seq<u8>>::empty(),
        Some(id) => s.live(id) && s.get(id)->0.condensed is Some && counts(
            s.get(id)->0.condensed->0,
            g,
        ),
    }
}

/// Every condensed node counts its group's members.
pub open spec fn counted(s: State) -> bool {
    forall|k: GroupKey| #[trigger] s.groups.contains_key(k) ==> group_counted(s, s.groups[k])
}

/// Nodes go on counting their members as long as they stay as they are, and the
/// groups keep their nodes and members.
proof fn lemma_counted(s: State, t: State)
    requires
        counted(s),
        forall|x: StreamId| #[trigger]
            s.live(x) && s.get(x)->0.condensed is Some ==> t.live(x) && t.get(x)->0.condensed
                == s.get(x)->0.condensed,
        forall|k: GroupKey| #[trigger]
            t.groups.contains_key(k) ==> (s.groups.contains_key(k) && t.groups[k].node
                == s.groups[k].node && t.groups[k].members == s.groups[k].members) || (
            t.groups[k].node is None && t.groups[k].members == Set::<Seq<u8>>::empty()),
    ensures
        counted(t),
{
    assert forall|k: GroupKey| #[trigger] t.groups.contains_key(k) implies group_counted(
        t,
        t.groups[k],
    ) by {
        if s.groups.contains_key(k) {
            assert(group_counted(s, s.groups[k]));
        }
    }
}

proof fn creating_counts(s: State, n: Newcomer)
    requires
        counted(s),
        tree::hierarchy(s),
        s.slots.len() < u32::MAX,
        n.parent is Some ==> s.live(n.parent->0),
    ensures
        counted(state::created(s, n)),
{
    let t = state::created(s, n);
    tree::creating_adds_one(s, n);
    assert forall|x: StreamId| #[trigger]
        s.live(x) && s.get(x)->0.condensed is Some implies t.live(x) && t.get(x)->0.condensed
        == s.get(x)->0.condensed by {
        assert(t.live(x));
    }
    lemma_counted(s, t);
}

proof fn lemma_enrolled_counted(
    s: State,
    parent: Option<StreamId>,
    protocol: Seq<char>,
    anchors: Seq<Candidate>,
    n: int,
)
    requires
        counted(s),
    ensures
        ({
            let t = state::enrolled_all(s, parent, protocol, anchors, n);
            counted(t) && t == (State { groups: t.groups, ..s })
        }),
    decreases n,
{
    if n > 0 {
        lemma_enrolled_counted(s, parent, protocol, anchors, n - 1);
        let u = state::enrolled_all(s, parent, protocol, anchors, n - 1);
        let t = state::enrolled_all(s, parent, protocol, anchors, n);
        assert forall|x: StreamId| #[trigger] u.live(x) implies t.live(x) && t.get(x) == u.get(
            x,
        ) by {}
        lemma_counted(u, t);
    }
}

/// A flow folded into a condensed node is counted once, however often it comes:
/// the node counts the distinct flows of its group.
pub proof fn folding_counts(
    s: State,
    k: GroupKey,
    identity: Identity,
    c: Candidate,
    ts: Timestamp,
    b: nat,
)
    requires
        counted(s),
        placing::placed(s),
        tree::hierarchy(s),
        bounds::within(s, b),
        s.groups.contains_key(k),
        c.anchor == k.anchor,
        k.parent is Some ==> s.live(k.parent->0),
        s.slots.len() < u32::MAX,
        b + 2 <= u64::MAX,
        layer::in_time(ts),
    ensures
        ({
            let r = state::folded(s, k, identity, c, ts);
            let before = s.groups[k].members;
            let info = r.state.get(r.id)->0.condensed->0;
            &&& counted(r.state)
            &&& r.state.groups[k].members == if before.len() < CONDENSE_MEMBER_CAP {
                before.insert(c.varying)
            } else {
                before
            }
            &&& info.member_flows == r.state.groups[k].members.len()
            &&& !r.state.groups[k].members.contains(c.varying) ==> info.overflow
        }),
{
    let u = state::with_node(s, k, identity, c, ts);
    steps::adding_a_node_keeps(s, k, identity, c, ts, b);
    placing::adding_a_node_in_place(s, k, identity, c, ts);
    let id = u.groups[k].node->0;
    assert(group_counted(s, s.groups[k]));
    assert(counted(u) && u.groups[k].members == s.groups[k].members) by {
        if !state::has_node(s, k) {
            let n = state::node(s, k.parent, k.protocol, identity, c, ts);
            let made = state::created(s, n);
            creating_counts(s, n);
            tree::creating_adds_one(s, n);
            assert(s.groups[k].node is None);
            assert forall|g: GroupKey| #[trigger] u.groups.contains_key(g) implies group_counted(
                u,
                u.groups[g],
            ) by {
                if g == k {
                    assert(made.get(id) == Some(state::record(n, id, s.next_seq)));
                    assert(u.get(id) == made.get(id));
                    assert(Set::<Seq<u8>>::empty().len() == 0);
                } else {
                    assert(made.groups.contains_key(g));
                    assert(group_counted(made, made.groups[g]));
                    if made.groups[g].node is Some {
                        let x = made.groups[g].node->0;
                        assert(u.get(x) == made.get(x));
                    }
                }
            }
        }
    }
    steps::meeting_a_flow_keeps(u, k, id, c, b + 1);
    let t = state::with_member(u, k, id, c);
    let g = u.groups[k];
    assert(group_counted(u, g));
    assert(u.live_at(id.index as int));
    assert(bounds::stream_within(u.at(id.index as int), b + 1));
    if g.members.contains(c.varying) {
        assert(g.members.insert(c.varying) =~= g.members);
    }
    assert forall|x: GroupKey| #[trigger] t.groups.contains_key(x) implies group_counted(
        t,
        t.groups[x],
    ) by {
        assert(u.groups.contains_key(x));
        assert(group_counted(u, u.groups[x]));
        if x != k && u.groups[x].node is Some {
            let y = u.groups[x].node->0;
            assert(placing::node_of(u.groups, x) is Some);
            assert(placing::is_node_of(u, x, y));
            assert(placing::is_node_of(u, k, id));
            assert(y != id) by {
                if y == id {
                    placing::anchors_are_recovered(x.anchor);
                    placing::anchors_are_recovered(k.anchor);
                }
            }
            tree::handles_are_unique(u, y);
            tree::handles_are_unique(u, id);
            assert(t.get(y) == u.get(y));
        }
    }
}

proof fn resolving_counts(
    s: State,
    parent: Option<StreamId>,
    key: Seq<u8>,
    rules: Rules,
    layer: LayerView,
    dir: PacketDirection,
    ts: Timestamp,
    b: nat,
)
    requires
        counted(s),
        placing::placed(s),
        tree::hierarchy(s),
        bounds::within(s, b),
        parent is Some ==> s.live(parent->0),
        s.slots.len() < u32::MAX,
        b + 3 <= u64::MAX,
        layer::in_time(ts),
    ensures
        counted(state::resolved(s, parent, key, rules, layer, dir, ts).state),
{
    let identity = rules.identity->0;
    if state::lookup(s, parent, layer.protocol, key) is None {
        let n = state::flow(s, parent, key, identity, layer, dir, ts);
        creating_counts(s, n);
        match state::anchors_of(s, rules, layer.fields) {
            None => {},
            Some(anchors) => {
                steps::fold_is_there(s, parent, layer.protocol, anchors, 0);
                match state::fold_at(s, parent, layer.protocol, anchors, 0) {
                    Some(i) => {
                        let k = state::group_key(parent, layer.protocol, anchors[i].anchor);
                        folding_counts(s, k, identity, anchors[i], ts, b);
                    },
                    None => {
                        lemma_enrolled_counted(
                            state::created(s, n),
                            parent,
                            layer.protocol,
                            anchors,
                            anchors.len() as int,
                        );
                    },
                }
            },
        }
    }
}

proof fn attributing_counts(
    r: Resolved,
    identity: Identity,
    layer: LayerView,
    meta: PacketMeta,
    b: nat,
)
    requires
        counted(r.state),
        tree::hierarchy(r.state),
        bounds::within(r.state, b),
        r.state.live(r.id),
        layer::in_time(meta.timestamp),
        b + meta.origlen + 1 <= u64::MAX,
    ensures
        counted(state::attributed(r, identity, layer, meta)),
{
    let s = r.state;
    let t = state::attributed(r, identity, layer, meta);
    steps::attributing_keeps(r, identity, layer, meta, b);
    assert forall|x: StreamId| #[trigger]
        s.live(x) && s.get(x)->0.condensed is Some implies t.live(x) && t.get(x)->0.condensed
        == s.get(x)->0.condensed by {}
    lemma_counted(s, t);
}

proof fn taking_counts(p: Progress, layer: LayerView, meta: PacketMeta, b: nat)
    requires
        counted(p.state),
        placing::placed(p.state),
        steps::on_course(p, b),
        layer::in_time(meta.timestamp),
        p.state.slots.len() < u32::MAX,
        b + state::layer_weight(meta) <= u64::MAX,
    ensures
        counted(state::taken(p, layer, meta).state),
{
    let s = State { load: (p.state.load + state::layer_weight(meta)) as nat, ..p.state };
    queues::lemma_same_hierarchy(p.state, s);
    queues::lemma_same_bounds(p.state, s, b);
    placing::same_slots_in_place(p.state, s);
    same_slots_counted(p.state, s);
    match s.rules(layer.protocol) {
        None => {},
        Some(rules) => match rules.identity {
            None => {},
            Some(identity) => match crate::flows::key::key_of(identity, layer.fields) {
                Err(_) => {
                    same_slots_counted(s, state::taken(p, layer, meta).state);
                },
                Ok((key, dir)) => {
                    let r = state::resolved(
                        s,
                        p.parent,
                        key,
                        rules,
                        layer,
                        dir,
                        meta.timestamp,
                    );
                    steps::resolving_keeps(s, p.parent, key, rules, layer, dir, meta.timestamp, b);
                    resolving_counts(s, p.parent, key, rules, layer, dir, meta.timestamp, b);
                    attributing_counts(r, identity, layer, meta, b + 3);
                },
            },
        },
    }
}

proof fn same_slots_counted(s: State, t: State)
    requires
        counted(s),
        t.slots == s.slots,
        t.groups == s.groups,
    ensures
        counted(t),
{
    assert forall|x: StreamId| #[trigger] s.live(x) implies t.live(x) && t.get(x) == s.get(x) by {}
    lemma_counted(s, t);
}

proof fn taking_all_counts(s: State, layers: Seq<LayerView>, n: nat, meta: PacketMeta, b: nat)
    requires
        counted(s),
        placing::placed(s),
        tree::hierarchy(s),
        bounds::within(s, b),
        layer::in_time(meta.timestamp),
        n <= layers.len(),
        s.slots.len() + n <= u32::MAX,
        b + n * state::layer_weight(meta) <= u64::MAX,
    ensures
        counted(state::taken_all(s, layers, n as int, meta).state),
    decreases n,
{
    let w = state::layer_weight(meta);
    if n > 0 {
        let m = (n - 1) as nat;
        assert(n * w == m * w + w) by (nonlinear_arith)
            requires
                n == m + 1,
        ;
        assert(m * w >= 0) by (nonlinear_arith)
            requires
                w >= 0,
        ;
        taking_all_counts(s, layers, m, meta, b);
        steps::taking_all_keeps(s, layers, m, meta, b);
        placing::streams_nest_as_layers(s, layers, m, meta, b);
        taking_counts(
            state::taken_all(s, layers, m as int, meta),
            layers[n - 1],
            meta,
            (b + m * w) as nat,
        );
    }
}

/// Striking flows from groups leaves nodes and members alone.
proof fn lemma_struck_members(
    groups: Map<GroupKey, Group>,
    parent: Option<StreamId>,
    protocol: Seq<char>,
    anchors: Seq<Candidate>,
    n: int,
    k: GroupKey,
)
    ensures
        ({
            let t = state::struck_all(groups, parent, protocol, anchors, n);
            t.contains_key(k) ==> groups.contains_key(k) && t[k].node == groups[k].node
                && t[k].members == groups[k].members
        }),
    decreases n,
{
    if n > 0 {
        lemma_struck_members(groups, parent, protocol, anchors, n - 1, k);
    }
}

proof fn lemma_without_members(s: State, st: StreamView, k: GroupKey)
    ensures
        ({
            let t = state::groups_without(s, st);
            t.contains_key(k) ==> s.groups.contains_key(k) && t[k].node == s.groups[k].node
                && t[k].members == s.groups[k].members
        }),
{
    if s.config.condense_threshold > 0 && st.condensed is None {
        match s.rules(st.protocol) {
            Some(rules) => match state::anchors_of(s, rules, st.key_fields) {
                Some(anchors) => lemma_struck_members(
                    s.groups,
                    st.parent,
                    st.protocol,
                    anchors,
                    anchors.len() as int,
                    k,
                ),
                None => {},
            },
            None => {},
        }
    }
}

proof fn evicting_counts(s: State, id: StreamId, reason: CloseReason)
    requires
        counted(s),
        placing::placed(s),
        tree::hierarchy(s),
        s.live(id),
        s.get(id)->0.children.len() == 0,
    ensures
        counted(state::evict(s, id, reason)),
{
    let t = state::evict(s, id, reason);
    let o = s.get(id)->0;
    tree::evicting_removes_one(s, id, reason);
    tree::evicting_keeps_the_hierarchy(s, id, reason);
    placing::evicting_in_place(s, id, reason);
    assert(t.groups == state::groups_without(s, o));
    assert forall|k: GroupKey| #[trigger] t.groups.contains_key(k) implies group_counted(
        t,
        t.groups[k],
    ) by {
        lemma_without_members(s, o, k);
        assert(group_counted(s, s.groups[k]));
        if t.groups[k].node is Some {
            let x = t.groups[k].node->0;
            assert(placing::node_of(t.groups, k) is Some);
            assert(placing::is_node_of(t, k, x));
            assert(s.live(x) && x != id);
        }
    }
}

proof fn sweeping_counts(s: State, b: nat)
    requires
        counted(s),
        placing::placed(s),
        tree::hierarchy(s),
        bounds::within(s, b),
    ensures
        counted(state::swept(s)),
    decreases state::live_count(s.slots), state::due_entries(s),
{
    if state::sweepable(s) {
        bounds::live_count_is_bounded(s.slots);
        queues::sweeping_progresses(s, b);
        let e = crate::flows::heap::first(s.expiry);
        let id = state::id_of(e);
        let t = State { expiry: s.expiry.remove(e), ..s };
        let u = state::sweep_step(s);
        placing::same_slots_in_place(s, t);
        same_slots_counted(s, t);
        queues::lemma_same_hierarchy(s, t);
        if u.slots == s.slots && u.groups == s.groups {
            placing::same_slots_in_place(s, u);
            same_slots_counted(s, u);
        } else {
            let reason = state::due_reason(t, t.get(id)->0);
            placing::evicting_in_place(t, id, reason);
            evicting_counts(t, id, reason);
        }
        sweeping_counts(u, b);
    }
}

proof fn capping_counts(s: State, b: nat)
    requires
        counted(s),
        placing::placed(s),
        tree::hierarchy(s),
        bounds::within(s, b),
    ensures
        counted(state::capped(s)),
    decreases state::live_count(s.slots), state::stale_candidates(s),
{
    if state::over_cap(s) {
        bounds::live_count_is_bounded(s.slots);
        queues::capping_progresses(s, b);
        let e = crate::flows::heap::first(s.lru);
        let id = state::id_of(e);
        let t = State { lru: s.lru.remove(e), ..s };
        let u = state::cap_step(s);
        placing::same_slots_in_place(s, t);
        same_slots_counted(s, t);
        queues::lemma_same_hierarchy(s, t);
        if u.slots == s.slots && u.groups == s.groups {
            placing::same_slots_in_place(s, u);
            same_slots_counted(s, u);
        } else {
            placing::evicting_in_place(t, id, CloseReason::LruEvicted);
            evicting_counts(t, id, CloseReason::LruEvicted);
        }
        capping_counts(u, b);
    }
}

proof fn opening_counts(s: State, pkt: Packet, b: nat)
    requires
        counted(s),
        placing::placed(s),
        tree::hierarchy(s),
        bounds::within(s, b),
        layer::in_time(pkt.meta.timestamp),
        b + pkt.meta.origlen + 1 <= u64::MAX,
    ensures
        counted(steps::opened(s, pkt)),
{
    let b1 = b + pkt.meta.origlen as nat + 1;
    steps::beginning_keeps(s, pkt, b);
    let t0 = state::begun(s, pkt);
    placing::same_slots_in_place(s, t0);
    same_slots_counted(s, t0);
    sweeping_counts(t0, b1);
    same_slots_counted(state::swept(t0), steps::opened(s, pkt));
}

proof fn rest_counts(p: Progress, pkt: Packet, a: nat, b: nat, c: nat)
    requires
        counted(p.state),
        placing::placed(p.state),
        tree::hierarchy(p.state),
        bounds::within(p.state, b),
        bounds::register_within(p.state.unknowns, a),
        b + pkt.opaque_len <= c,
        a + pkt.opaque_len + 1 <= c <= u64::MAX,
    ensures
        counted(
            state::capped(
                state::with_unknown(
                    state::with_opaque(p.state, p.parent, pkt.opaque_len as int),
                    pkt,
                    p.endpoint,
                ),
            ),
        ),
{
    let s = p.state;
    let t3 = state::with_opaque(s, p.parent, pkt.opaque_len as int);
    steps::leftovers_keep(s, p.parent, pkt.opaque_len as nat, b);
    assert forall|x: StreamId| #[trigger]
        s.live(x) && s.get(x)->0.condensed is Some implies t3.live(x) && t3.get(x)->0.condensed
        == s.get(x)->0.condensed by {}
    lemma_counted(s, t3);
    assert forall|i: int| #[trigger] s.live_at(i) implies placing::same_conversation(
        s.at(i),
        t3.at(i),
    ) && s.at(i).id == t3.at(i).id by {}
    placing::staying_in_place(s, t3);
    bounds::within_widens(t3, b + pkt.opaque_len as nat, c);
    steps::registering_keeps(t3, pkt, p.endpoint, a, c);
    let t4 = state::with_unknown(t3, pkt, p.endpoint);
    placing::same_slots_in_place(t3, t4);
    same_slots_counted(t3, t4);
    capping_counts(t4, c);
}

/// After every packet each condensed node counts the distinct flows of its group:
/// exactly as long as it has not overflowed, and at least as many after.
pub proof fn nodes_count_their_members(s: State, pkt: Packet)
    requires
        counted(s),
        placing::placed(s),
        tree::hierarchy(s),
        bounds::within(s, s.load),
        state::has_room(s, pkt),
    ensures
        counted(state::ingested(s, pkt)),
{
    let w = state::layer_weight(pkt.meta);
    let n = pkt.layers.len();
    assert(n * w >= 0) by (nonlinear_arith)
        requires
            w >= 0,
    ;
    let b = s.load;
    let b1 = b + pkt.meta.origlen as nat + 1;
    let b2 = (b1 + n * w) as nat;
    let b4 = (b + state::weight(pkt)) as nat;
    let t1 = steps::opened(s, pkt);
    steps::opening_keeps(s, pkt, b);
    placing::opening_in_place(s, pkt, b);
    opening_counts(s, pkt, b);
    let p = state::taken_all(t1, pkt.layers, n as int, pkt.meta);
    steps::taking_all_keeps(t1, pkt.layers, n, pkt.meta, b1);
    placing::streams_nest_as_layers(t1, pkt.layers, n, pkt.meta, b1);
    taking_all_counts(t1, pkt.layers, n, pkt.meta, b1);
    rest_counts(p, pkt, b, b2, b4);
}

/// A condensed node says that it left a flow out from the first one on that it could not
/// tell apart, and only from then on.
pub proof fn nodes_own_up_to_what_they_left_out(
    s: State,
    k: GroupKey,
    identity: Identity,
    c: Candidate,
    ts: Timestamp,
    b: nat,
)
    requires
        counted(s),
        placing::placed(s),
        tree::hierarchy(s),
        bounds::within(s, b),
        s.groups.contains_key(k),
        c.anchor == k.anchor,
        k.parent is Some ==> s.live(k.parent->0),
        s.slots.len() < u32::MAX,
        b + 2 <= u64::MAX,
        layer::in_time(ts),
    ensures
        ({
            let r = state::folded(s, k, identity, c, ts);
            let node = s.groups[k].node;
            let left_out = node is Some && s.live(node->0) && s.get(
                node->0,
            )->0.condensed->0.overflow;
            r.state.get(r.id)->0.condensed->0.overflow <==> left_out
                || !r.state.groups[k].members.contains(c.varying)
        }),
{
    folding_counts(s, k, identity, c, ts, b);
    placing::adding_a_node_in_place(s, k, identity, c, ts);
    let u = state::with_node(s, k, identity, c, ts);
    let id = u.groups[k].node->0;
    if !state::has_node(s, k) {
        let n = state::node(s, k.parent, k.protocol, identity, c, ts);
        tree::creating_adds_one(s, n);
        let made = state::created(s, n);
        assert(made.get(id) == Some(state::record(n, id, s.next_seq)));
        assert(u.get(id) == made.get(id));
    }
    assert(u.live(id) && u.get(id)->0.condensed is Some);
}

} // verus!

//! What streams carry: a packet is counted once in the stream of each of its layers,
//! with its length on the wire, and in no other.
use vstd::prelude::*;

use crate::engine::Rules;
use crate::flows::bounds;
use crate::flows::key;
use crate::flows::placing;
use crate::flows::queues;
use crate::flows::state::{self, Candidate, GroupKey, Progress, State};
use crate::flows::steps;
use crate::flows::stream::{DirStats, StreamId};
use crate::flows::tree;
use crate::identity::{Identity, PacketDirection};
use crate::layer::{self, LayerView, PacketMeta, Timestamp};

verus! {

/// What a stream has carried, per direction; nothing before it was there.
pub open spec fn carried(s: State, id: StreamId) -> Seq<DirStats> {
    match s.get(id) {
        Some(st) => st.stats,
        None => seq![state::no_stats(), state::no_stats()],
    }
}

/// The packets in both directions.
pub open spec fn packets(stats: Seq<DirStats>) -> int {
    stats[0].packets + stats[1].packets
}

/// The bytes in both directions.
pub open spec fn bytes(stats: Seq<DirStats>) -> int {
    stats[0].bytes + stats[1].bytes
}

/// Whether every stream of `t` carries what it carried in `s`.
spec fn nothing_carried(s: State, t: State) -> bool {
    forall|x: StreamId| #[trigger] t.live(x) ==> carried(t, x) == carried(s, x)
}

proof fn creating_carries_nothing(s: State, n: state::Newcomer)
    requires
        tree::hierarchy(s),
        s.slots.len() < u32::MAX,
        n.parent is Some ==> s.live(n.parent->0),
    ensures
        nothing_carried(s, state::created(s, n)),
{
    let t = state::created(s, n);
    tree::creating_adds_one(s, n);
    assert forall|x: StreamId| #[trigger] t.live(x) implies carried(t, x) == carried(s, x) by {
        if s.live(x) {
            assert(t.get(x) is Some);
        }
    }
}

proof fn lemma_nothing_carried(s: State, t: State, u: State)
    requires
        nothing_carried(s, t),
        nothing_carried(t, u),
        forall|x: StreamId| #[trigger] u.live(x) ==> t.live(x),
    ensures
        nothing_carried(s, u),
{
    assert forall|x: StreamId| #[trigger] u.live(x) implies carried(u, x) == carried(s, x) by {
        assert(t.live(x));
    }
}

proof fn same_slots_carry_the_same(s: State, t: State)
    requires
        t.slots == s.slots,
    ensures
        nothing_carried(s, t),
        forall|x: StreamId| #[trigger] t.live(x) ==> s.live(x),
{
    assert forall|x: StreamId| #[trigger] t.live(x) implies carried(t, x) == carried(s, x) by {
        assert(s.get(x) == t.get(x));
    }
}

proof fn adding_a_node_carries_nothing(
    s: State,
    k: GroupKey,
    identity: Identity,
    c: Candidate,
    ts: Timestamp,
)
    requires
        tree::hierarchy(s),
        k.parent is Some ==> s.live(k.parent->0),
        s.slots.len() < u32::MAX,
    ensures
        nothing_carried(s, state::with_node(s, k, identity, c, ts)),
{
    let u = state::with_node(s, k, identity, c, ts);
    if !state::has_node(s, k) {
        let n = state::node(s, k.parent, k.protocol, identity, c, ts);
        let made = state::created(s, n);
        creating_carries_nothing(s, n);
        same_slots_carry_the_same(made, u);
        lemma_nothing_carried(s, made, u);
    }
}

proof fn meeting_carries_nothing(s: State, k: GroupKey, id: StreamId, c: Candidate)
    ensures
        nothing_carried(s, state::with_member(s, k, id, c)),
        forall|x: StreamId| #[trigger] state::with_member(s, k, id, c).live(x) ==> s.live(x),
{
    let t = state::with_member(s, k, id, c);
    assert forall|x: StreamId| #[trigger] t.live(x) implies s.live(x) && carried(t, x) == carried(
        s,
        x,
    ) by {}
}

proof fn resolving_carries_nothing(
    s: State,
    parent: Option<StreamId>,
    key: Seq<u8>,
    rules: Rules,
    layer: LayerView,
    dir: PacketDirection,
    ts: Timestamp,
)
    requires
        tree::hierarchy(s),
        parent is Some ==> s.live(parent->0),
        s.slots.len() < u32::MAX,
    ensures
        nothing_carried(s, state::resolved(s, parent, key, rules, layer, dir, ts).state),
{
    let identity = rules.identity->0;
    let t = state::resolved(s, parent, key, rules, layer, dir, ts).state;
    if state::lookup(s, parent, layer.protocol, key) is None {
        let n = state::flow(s, parent, key, identity, layer, dir, ts);
        let fresh = state::created(s, n);
        creating_carries_nothing(s, n);
        if state::anchors_of(s, rules, layer.fields) is Some {
            let anchors = state::anchors_of(s, rules, layer.fields)->0;
            match state::fold_at(s, parent, layer.protocol, anchors, 0) {
                Some(i) => {
                    let k = state::group_key(parent, layer.protocol, anchors[i].anchor);
                    let u = state::with_node(s, k, identity, anchors[i], ts);
                    adding_a_node_carries_nothing(s, k, identity, anchors[i], ts);
                    meeting_carries_nothing(u, k, u.groups[k].node->0, anchors[i]);
                    lemma_nothing_carried(s, u, t);
                },
                None => {
                    let m = anchors.len() as int;
                    steps::enrolling_leaves_slots(fresh, parent, layer.protocol, anchors, m);
                    same_slots_carry_the_same(fresh, t);
                    lemma_nothing_carried(s, fresh, t);
                },
            }
        }
    }
}

/// A layer that forms a stream counts the packet once in that stream, with its
/// length on the wire, and in no other; a layer that forms none counts it in none.
pub proof fn a_layer_counts_the_packet_once(p: Progress, layer: LayerView, meta: PacketMeta, b: nat)
    requires
        steps::on_course(p, b),
        layer::in_time(meta.timestamp),
        p.state.slots.len() < u32::MAX,
        b + state::layer_weight(meta) <= u64::MAX,
    ensures
        ({
            let q = state::taken(p, layer, meta);
            let here = if placing::forms_stream(p.state, layer) {
                q.parent
            } else {
                None
            };
            &&& here matches Some(id) ==> packets(carried(q.state, id)) == packets(
                carried(p.state, id),
            ) + 1
            &&& here matches Some(id) ==> bytes(carried(q.state, id)) == bytes(carried(p.state, id))
                + meta.origlen
            &&& forall|x: StreamId| #[trigger]
                q.state.live(x) && Some(x) != here ==> carried(q.state, x) == carried(p.state, x)
        }),
{
    let s = State { load: (p.state.load + state::layer_weight(meta)) as nat, ..p.state };
    let q = state::taken(p, layer, meta);
    queues::lemma_same_hierarchy(p.state, s);
    queues::lemma_same_bounds(p.state, s, b);
    same_slots_carry_the_same(p.state, s);
    assert forall|x: StreamId| #[trigger] s.get(x) == p.state.get(x) by {}
    if placing::forms_stream(p.state, layer) {
        let rules = s.rules(layer.protocol)->0;
        let identity = rules.identity->0;
        let (k, dir) = key::key_of(identity, layer.fields)->Ok_0;
        let ts = meta.timestamp;
        let r = state::resolved(s, p.parent, k, rules, layer, dir, ts);
        steps::resolving_keeps(s, p.parent, k, rules, layer, dir, ts, b);
        resolving_carries_nothing(s, p.parent, k, rules, layer, dir, ts);
        attributing_counts_once(r, identity, layer, meta, b + 3);
        assert(carried(p.state, r.id) == carried(s, r.id));
        assert forall|x: StreamId| #[trigger] q.state.live(x) && Some(x) != q.parent implies carried(
            q.state,
            x,
        ) == carried(p.state, x) by {
            assert(r.state.live(x));
            assert(carried(p.state, x) == carried(s, x));
        }
    } else {
        assert(q.state.slots == s.slots);
        same_slots_carry_the_same(s, q.state);
        assert forall|x: StreamId| #[trigger] q.state.live(x) implies carried(q.state, x) == carried(
            p.state,
            x,
        ) by {
            assert(s.live(x));
        }
    }
}

proof fn attributing_counts_once(
    r: state::Resolved,
    identity: Identity,
    layer: LayerView,
    meta: PacketMeta,
    b: nat,
)
    requires
        tree::hierarchy(r.state),
        bounds::within(r.state, b),
        r.state.live(r.id),
        b + meta.origlen + 1 <= u64::MAX,
    ensures
        ({
            let t = state::attributed(r, identity, layer, meta);
            &&& packets(carried(t, r.id)) == packets(carried(r.state, r.id)) + 1
            &&& bytes(carried(t, r.id)) == bytes(carried(r.state, r.id)) + meta.origlen
            &&& forall|x: StreamId| #[trigger]
                t.live(x) ==> r.state.live(x) && (x != r.id ==> carried(t, x) == carried(
                    r.state,
                    x,
                ))
        }),
{
    let t = state::attributed(r, identity, layer, meta);
    let i0 = r.id.index as int;
    assert(r.state.live_at(i0));
    assert(bounds::stream_within(r.state.at(i0), b));
    assert forall|x: StreamId| #[trigger] t.live(x) implies r.state.live(x) && (x != r.id ==> carried(
        t,
        x,
    ) == carried(r.state, x)) by {
        if x.index != r.id.index {
            assert(t.get(x) == r.state.get(x));
        }
    }
}

} // verus!

//! The records of streams: what holds of every live stream's own record.
use vstd::prelude::*;

use crate::engine::{Registration, Rules};
use crate::flows::bounds;
use crate::flows::capture;
use crate::flows::heap;
use crate::flows::key;
use crate::flows::queues;
use crate::flows::rollup;
use crate::flows::state::{
    self, AggregatorConfig, Candidate, GroupKey, Newcomer, Progress, Resolved, State,
};
use crate::flows::steps;
use crate::flows::stream::{self, CloseReason, StreamId, StreamView};
use crate::flows::tree;
use crate::identity::{Identity, PacketDirection};
use crate::layer::{self, LayerView, PacketMeta, Timestamp};
use crate::packet::Packet;

verus! {

/// What holds of a live stream: what it retains is within its caps, it has been
/// over since some time exactly if it is over, only a session can be over, a
/// condensed node has no session, and it is not closed.
pub open spec fn sane(st: StreamView) -> bool {
    &&& forall|i: int| 0 <= i < st.rollups.len() ==> rollup::bounded((#[trigger] st.rollups[i]).1)
    &&& st.close_eligible <==> st.close_eligible_since is Some
    &&& st.close_eligible ==> st.state is Some
    &&& st.condensed is Some ==> st.state is None
    &&& st.closed is None
}

/// Every live stream's record is sane.
pub open spec fn all_sane(s: State) -> bool {
    forall|i: int| #[trigger] s.live_at(i) ==> sane(s.at(i))
}

/// Whether a stream changed in nothing that its record's sanity depends on.
spec fn alike(a: StreamView, b: StreamView) -> bool {
    &&& a.rollups == b.rollups
    &&& a.close_eligible == b.close_eligible
    &&& a.close_eligible_since == b.close_eligible_since
    &&& a.state == b.state
    &&& a.condensed is Some <==> b.condensed is Some
    &&& a.closed == b.closed
}

proof fn lemma_alike(s: State, t: State)
    requires
        all_sane(s),
        forall|i: int| #[trigger] t.live_at(i) ==> s.live_at(i) && alike(s.at(i), t.at(i)),
    ensures
        all_sane(t),
{
    assert forall|i: int| #[trigger] t.live_at(i) implies sane(t.at(i)) by {
        assert(sane(s.at(i)));
    }
}

proof fn lemma_same_records(s: State, t: State)
    requires
        all_sane(s),
        t.slots == s.slots,
    ensures
        all_sane(t),
{
    assert forall|i: int| #[trigger] t.live_at(i) implies s.live_at(i) && alike(
        s.at(i),
        t.at(i),
    ) by {}
    lemma_alike(s, t);
}

proof fn creating_stays_sane(s: State, n: Newcomer)
    requires
        all_sane(s),
        tree::hierarchy(s),
        s.slots.len() < u32::MAX,
        n.parent is Some ==> s.live(n.parent->0),
        sane(state::record(n, state::next_id(s), s.next_seq)),
    ensures
        all_sane(state::created(s, n)),
{
    let t = state::created(s, n);
    let id = state::next_id(s);
    tree::creating_adds_one(s, n);
    assert(t.get(id) == Some(t.at(id.index as int)));
    assert forall|i: int| #[trigger] t.live_at(i) implies sane(t.at(i)) by {
        if i != id.index {
            assert(s.live_at(i));
            let x = s.at(i).id;
            assert(s.live(x));
            assert(t.get(x) == Some(t.at(i)));
        }
    }
}

proof fn adding_a_node_stays_sane(
    s: State,
    k: GroupKey,
    identity: Identity,
    c: Candidate,
    ts: Timestamp,
)
    requires
        all_sane(s),
        tree::hierarchy(s),
        k.parent is Some ==> s.live(k.parent->0),
        s.slots.len() < u32::MAX,
    ensures
        all_sane(state::with_node(s, k, identity, c, ts)),
{
    if !state::has_node(s, k) {
        let n = state::node(s, k.parent, k.protocol, identity, c, ts);
        creating_stays_sane(s, n);
        lemma_same_records(state::created(s, n), state::with_node(s, k, identity, c, ts));
    }
}

proof fn meeting_stays_sane(s: State, k: GroupKey, id: StreamId, c: Candidate)
    requires
        all_sane(s),
    ensures
        all_sane(state::with_member(s, k, id, c)),
{
    let t = state::with_member(s, k, id, c);
    assert forall|i: int| #[trigger] t.live_at(i) implies s.live_at(i) && alike(
        s.at(i),
        t.at(i),
    ) by {}
    lemma_alike(s, t);
}

proof fn folding_stays_sane(
    s: State,
    k: GroupKey,
    identity: Identity,
    c: Candidate,
    ts: Timestamp,
)
    requires
        all_sane(s),
        tree::hierarchy(s),
        k.parent is Some ==> s.live(k.parent->0),
        s.slots.len() < u32::MAX,
    ensures
        all_sane(state::folded(s, k, identity, c, ts).state),
{
    let u = state::with_node(s, k, identity, c, ts);
    adding_a_node_stays_sane(s, k, identity, c, ts);
    meeting_stays_sane(u, k, u.groups[k].node->0, c);
}

proof fn resolving_stays_sane(
    s: State,
    parent: Option<StreamId>,
    key: Seq<u8>,
    rules: Rules,
    layer: LayerView,
    dir: PacketDirection,
    ts: Timestamp,
    b: nat,
)
    requires
        all_sane(s),
        tree::hierarchy(s),
        bounds::within(s, b),
        parent is Some ==> s.live(parent->0),
        s.slots.len() < u32::MAX,
        b + 3 <= u64::MAX,
        layer::in_time(ts),
    ensures
        all_sane(state::resolved(s, parent, key, rules, layer, dir, ts).state),
{
    let identity = rules.identity->0;
    if state::lookup(s, parent, layer.protocol, key) is None {
        let n = state::flow(s, parent, key, identity, layer, dir, ts);
        creating_stays_sane(s, n);
        if state::anchors_of(s, rules, layer.fields) is Some {
            let anchors = state::anchors_of(s, rules, layer.fields)->0;
            steps::fold_is_there(s, parent, layer.protocol, anchors, 0);
            match state::fold_at(s, parent, layer.protocol, anchors, 0) {
                Some(i) => {
                    let k = state::group_key(parent, layer.protocol, anchors[i].anchor);
                    folding_stays_sane(s, k, identity, anchors[i], ts);
                },
                None => {
                    let fresh = state::created(s, n);
                    let m = anchors.len() as int;
                    steps::enrolling_leaves_slots(fresh, parent, layer.protocol, anchors, m);
                    let t = state::enrolled_all(fresh, parent, layer.protocol, anchors, m);
                    assert forall|i: int| #[trigger] t.live_at(i) implies fresh.live_at(i) && alike(
                        fresh.at(i),
                        t.at(i),
                    ) by {}
                    lemma_alike(fresh, t);
                },
            }
        }
    }
}

/// A packet leaves its stream's record sane.
pub proof fn touching_stays_sane(
    st: StreamView,
    identity: Identity,
    fields: crate::value::Fields,
    ts: Timestamp,
    dir: PacketDirection,
    bytes: int,
)
    requires
        sane(st),
        rollup::all_countable(st.rollups),
    ensures
        sane(stream::touched(st, identity, fields, ts, dir, bytes)),
{
    let t = stream::touched(st, identity, fields, ts, dir, bytes);
    assert forall|i: int| 0 <= i < t.rollups.len() implies rollup::bounded(
        (#[trigger] t.rollups[i]).1,
    ) by {
        let slot = st.rollups[i];
        assert(rollup::bounded(slot.1));
        assert(rollup::countable(slot.1));
        if fields.contains_key(slot.0) {
            rollup::observed_stays_bounded(slot.1, st.first_seen, ts, dir, fields[slot.0]);
        }
    }
}

proof fn attributing_stays_sane(
    r: Resolved,
    identity: Identity,
    layer: LayerView,
    meta: PacketMeta,
    b: nat,
)
    requires
        all_sane(r.state),
        tree::hierarchy(r.state),
        bounds::within(r.state, b),
        r.state.live(r.id),
        layer::in_time(meta.timestamp),
        b + meta.origlen + 1 <= u64::MAX,
    ensures
        all_sane(state::attributed(r, identity, layer, meta)),
{
    let s = r.state;
    let t = state::attributed(r, identity, layer, meta);
    let i0 = r.id.index as int;
    assert(s.live_at(i0));
    assert(bounds::stream_within(s.at(i0), b));
    assert(rollup::all_countable(s.at(i0).rollups));
    touching_stays_sane(
        s.at(i0),
        identity,
        layer.fields,
        meta.timestamp,
        r.dir,
        meta.origlen as int,
    );
    assert forall|i: int| #[trigger] t.live_at(i) implies sane(t.at(i)) by {
        assert(s.live_at(i));
        if i != i0 {
            assert(t.at(i) == s.at(i));
        }
    }
}

proof fn taking_stays_sane(p: Progress, layer: LayerView, meta: PacketMeta, b: nat)
    requires
        all_sane(p.state),
        steps::on_course(p, b),
        layer::in_time(meta.timestamp),
        p.state.slots.len() < u32::MAX,
        b + state::layer_weight(meta) <= u64::MAX,
    ensures
        all_sane(state::taken(p, layer, meta).state),
{
    let s = State { load: (p.state.load + state::layer_weight(meta)) as nat, ..p.state };
    let q = state::taken(p, layer, meta);
    queues::lemma_same_hierarchy(p.state, s);
    queues::lemma_same_bounds(p.state, s, b);
    lemma_same_records(p.state, s);
    match s.rules(layer.protocol) {
        None => {},
        Some(rules) => match rules.identity {
            None => {},
            Some(identity) => match key::key_of(identity, layer.fields) {
                Err(_) => {
                    lemma_same_records(s, q.state);
                },
                Ok((key, dir)) => {
                    let ts = meta.timestamp;
                    let r = state::resolved(s, p.parent, key, rules, layer, dir, ts);
                    steps::resolving_keeps(s, p.parent, key, rules, layer, dir, ts, b);
                    resolving_stays_sane(s, p.parent, key, rules, layer, dir, ts, b);
                    attributing_stays_sane(r, identity, layer, meta, b + 3);
                },
            },
        },
    }
}

proof fn taking_all_stays_sane(s: State, layers: Seq<LayerView>, n: nat, meta: PacketMeta, b: nat)
    requires
        all_sane(s),
        tree::hierarchy(s),
        bounds::within(s, b),
        layer::in_time(meta.timestamp),
        n <= layers.len(),
        s.slots.len() + n <= u32::MAX,
        b + n * state::layer_weight(meta) <= u64::MAX,
    ensures
        all_sane(state::taken_all(s, layers, n as int, meta).state),
    decreases n,
{
    let w = state::layer_weight(meta);
    if n > 0 {
        let m = (n - 1) as nat;
        assert(n * w == m * w + w) by (nonlinear_arith)
            requires
                n == m + 1,
        ;
        assert(m * w >= 0) by (nonlinear_arith)
            requires
                w >= 0,
        ;
        taking_all_stays_sane(s, layers, m, meta, b);
        steps::taking_all_keeps(s, layers, m, meta, b);
        taking_stays_sane(
            state::taken_all(s, layers, m as int, meta),
            layers[n - 1],
            meta,
            (b + m * w) as nat,
        );
    }
}

proof fn evicting_stays_sane(s: State, id: StreamId, reason: CloseReason)
    requires
        all_sane(s),
        tree::hierarchy(s),
        s.live(id),
        s.get(id)->0.children.len() == 0,
    ensures
        all_sane(state::evict(s, id, reason)),
{
    let t = state::evict(s, id, reason);
    tree::evicting_removes_one(s, id, reason);
    assert forall|i: int| #[trigger] t.live_at(i) implies s.live_at(i) && alike(
        s.at(i),
        t.at(i),
    ) by {
        assert(s.live_at(i));
        let x = s.at(i).id;
        assert(s.live(x));
        assert(t.get(x) == Some(t.at(i)));
    }
    lemma_alike(s, t);
}

proof fn sweeping_stays_sane(s: State, b: nat)
    requires
        all_sane(s),
        tree::hierarchy(s),
        bounds::within(s, b),
    ensures
        all_sane(state::swept(s)),
    decreases state::live_count(s.slots), state::due_entries(s),
{
    if state::sweepable(s) {
        bounds::live_count_is_bounded(s.slots);
        queues::sweeping_progresses(s, b);
        let e = heap::first(s.expiry);
        let t = State { expiry: s.expiry.remove(e), ..s };
        let u = state::sweep_step(s);
        lemma_same_records(s, t);
        queues::lemma_same_hierarchy(s, t);
        if u.slots == s.slots {
            lemma_same_records(s, u);
        } else {
            let id = state::id_of(e);
            evicting_stays_sane(t, id, state::due_reason(t, t.get(id)->0));
        }
        sweeping_stays_sane(u, b);
    }
}

proof fn capping_stays_sane(s: State, b: nat)
    requires
        all_sane(s),
        tree::hierarchy(s),
        bounds::within(s, b),
    ensures
        all_sane(state::capped(s)),
    decreases state::live_count(s.slots), state::stale_candidates(s),
{
    if state::over_cap(s) {
        bounds::live_count_is_bounded(s.slots);
        queues::capping_progresses(s, b);
        let e = heap::first(s.lru);
        let t = State { lru: s.lru.remove(e), ..s };
        let u = state::cap_step(s);
        lemma_same_records(s, t);
        queues::lemma_same_hierarchy(s, t);
        if u.slots == s.slots {
            lemma_same_records(s, u);
        } else {
            evicting_stays_sane(t, state::id_of(e), CloseReason::LruEvicted);
        }
        capping_stays_sane(u, b);
    }
}

/// A packet leaves every record sane.
pub proof fn ingesting_stays_sane(s: State, pkt: Packet)
    requires
        all_sane(s),
        tree::hierarchy(s),
        bounds::within(s, s.load),
        state::has_room(s, pkt),
    ensures
        all_sane(state::ingested(s, pkt)),
{
    let w = state::layer_weight(pkt.meta);
    let n = pkt.layers.len();
    assert(n * w >= 0) by (nonlinear_arith)
        requires
            w >= 0,
    ;
    let b = s.load;
    let b1 = b + pkt.meta.origlen as nat + 1;
    let b2 = (b1 + n * w) as nat;
    let b4 = (b + state::weight(pkt)) as nat;
    let t0 = state::begun(s, pkt);
    steps::beginning_keeps(s, pkt, b);
    lemma_same_records(s, t0);
    sweeping_stays_sane(t0, b1);
    let t1 = steps::opened(s, pkt);
    lemma_same_records(state::swept(t0), t1);
    steps::opening_keeps(s, pkt, b);
    let p = state::taken_all(t1, pkt.layers, n as int, pkt.meta);
    steps::taking_all_keeps(t1, pkt.layers, n, pkt.meta, b1);
    taking_all_stays_sane(t1, pkt.layers, n, pkt.meta, b1);
    let t3 = state::with_opaque(p.state, p.parent, pkt.opaque_len as int);
    steps::leftovers_keep(p.state, p.parent, pkt.opaque_len as nat, b2);
    assert forall|i: int| #[trigger] t3.live_at(i) implies p.state.live_at(i) && alike(
        p.state.at(i),
        t3.at(i),
    ) by {
        assert(p.state.live_at(i));
    }
    lemma_alike(p.state, t3);
    bounds::within_widens(t3, b2 + pkt.opaque_len as nat, b4);
    steps::registering_keeps(t3, pkt, p.endpoint, b, b4);
    let t4 = state::with_unknown(t3, pkt, p.endpoint);
    lemma_same_records(t3, t4);
    capping_stays_sane(t4, b4);
}

/// After any capture every live stream retains no more than its caps allow, has
/// been over since some time exactly if its session is over, and is not closed.
pub proof fn every_capture_keeps_sane_records(
    protocols: Seq<Registration>,
    config: AggregatorConfig,
    packets: Seq<Packet>,
    n: nat,
)
    requires
        bounds::timed(config),
        n <= packets.len(),
        capture::fits(state::initial(protocols, config), packets, n as int),
    ensures
        all_sane(capture::after(state::initial(protocols, config), packets, n as int)),
    decreases n,
{
    let s = state::initial(protocols, config);
    if n > 0 {
        let m = (n - 1) as nat;
        assert(capture::fits(s, packets, m as int));
        every_capture_keeps_sane_records(protocols, config, packets, m);
        capture::every_capture_is_well_kept(protocols, config, packets, m);
        assert(state::has_room(capture::after(s, packets, n - 1), packets[n - 1]));
        ingesting_stays_sane(capture::after(s, packets, m as int), packets[n - 1]);
    }
}

} // verus!

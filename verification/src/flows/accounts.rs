//! The counts of flows: what adds to them, and that they agree.
use vstd::prelude::*;

use crate::engine::{Registration, Rules};
use crate::flows::bounds;
use crate::flows::capture;
use crate::flows::placing;
use crate::flows::state::{self, AggregatorConfig, Candidate, GroupKey, Progress, State};
use crate::flows::steps;
use crate::flows::stream::{CloseReason, StreamId};
use crate::flows::tree;
use crate::identity::{Identity, PacketDirection};
use crate::layer::{self, LayerView, PacketMeta, Timestamp};
use crate::packet::Packet;

verus! {

/// The sum of some protocols' flows.
pub open spec fn ever_total(m: Map<Seq<char>, u64>) -> int
    decreases m.dom().len(),
{
    if !m.dom().finite() || m.dom().len() == 0 {
        0
    } else {
        let p = m.dom().choose();
        m[p] + ever_total(m.remove(p))
    }
}

/// The sum does not depend on the order of summing.
pub proof fn lemma_total_without(m: Map<Seq<char>, u64>, p: Seq<char>)
    requires
        m.dom().finite(),
        m.contains_key(p),
    ensures
        ever_total(m) == m[p] + ever_total(m.remove(p)),
    decreases m.dom().len(),
{
    let q = m.dom().choose();
    assert(m.dom().contains(p));
    assert(m.dom().contains(q));
    assert(m.remove(p).dom() =~= m.dom().remove(p));
    assert(m.remove(q).dom() =~= m.dom().remove(q));
    if p != q {
        lemma_total_without(m.remove(q), p);
        lemma_total_without(m.remove(p), q);
        assert(m.remove(p).remove(q) =~= m.remove(q).remove(p));
    }
}

/// Another count of one protocol changes the sum by the difference.
proof fn lemma_total_with(m: Map<Seq<char>, u64>, p: Seq<char>, n: u64)
    requires
        m.dom().finite(),
    ensures
        m.insert(p, n).dom().finite(),
        ever_total(m.insert(p, n)) == ever_total(m) + n - if m.contains_key(p) {
            m[p] as int
        } else {
            0
        },
{
    let t = m.insert(p, n);
    assert(t.dom() =~= m.dom().insert(p));
    lemma_total_without(t, p);
    assert(t.remove(p) =~= m.remove(p));
    if m.contains_key(p) {
        lemma_total_without(m, p);
    } else {
        assert(m.remove(p) =~= m);
    }
}

/// The flows of all protocols add up to the flows ever created.
pub open spec fn adds_up(s: State) -> bool {
    s.ever.dom().finite() && ever_total(s.ever) == s.totals.streams_created
}

/// The packets of all kinds of end add up to the packets.
pub open spec fn classes_add_up(s: State) -> bool {
    &&& s.stop_classes.len() == 4
    &&& s.stop_classes[0] + s.stop_classes[1] + s.stop_classes[2] + s.stop_classes[3]
        == s.totals.packets
}

proof fn lemma_counted_up(s: State, p: Seq<char>, b: nat)
    requires
        adds_up(s),
        bounds::within(s, b),
        b < u64::MAX,
    ensures
        state::counted_up(s.ever, p).dom().finite(),
        ever_total(state::counted_up(s.ever, p)) == s.totals.streams_created + 1,
{
    if s.ever.contains_key(p) {
        assert(s.ever[p] <= b);
        lemma_total_with(s.ever, p, (s.ever[p] + 1) as u64);
    } else {
        lemma_total_with(s.ever, p, 1);
    }
}

/// Whether a new flow is folded into a condensed node.
pub open spec fn folds(s: State, parent: Option<StreamId>, rules: Rules, layer: LayerView) -> bool {
    match state::anchors_of(s, rules, layer.fields) {
        Some(anchors) => state::fold_at(s, parent, layer.protocol, anchors, 0) is Some,
        None => false,
    }
}

/// How a layer is resolved decides what is counted: nothing for a conversation
/// that has a stream; one flow for a new stream; one flow, which is also counted
/// as condensed, for a flow that a condensed node meets for the first time.
pub proof fn resolving_accounts_for_flows(
    s: State,
    parent: Option<StreamId>,
    key: Seq<u8>,
    rules: Rules,
    layer: LayerView,
    dir: PacketDirection,
    ts: Timestamp,
    b: nat,
)
    requires
        adds_up(s),
        bounds::within(s, b),
        b + 3 <= u64::MAX,
    ensures
        ({
            let t = state::resolved(s, parent, key, rules, layer, dir, ts).state;
            let created = t.totals.streams_created - s.totals.streams_created;
            let condensed = t.totals.flows_condensed - s.totals.flows_condensed;
            &&& adds_up(t)
            &&& t.totals.packets == s.totals.packets
            &&& t.totals.bytes == s.totals.bytes
            &&& t.totals.key_errors == s.totals.key_errors
            &&& t.stop_classes == s.stop_classes
            &&& 0 <= condensed <= created <= 1
            &&& state::lookup(s, parent, layer.protocol, key) is Some ==> created == 0
            &&& state::lookup(s, parent, layer.protocol, key) is None ==> if folds(
                s,
                parent,
                rules,
                layer,
            ) {
                condensed == created
            } else {
                created == 1 && condensed == 0
            }
        }),
{
    let identity = rules.identity->0;
    if state::lookup(s, parent, layer.protocol, key) is None {
        let n = state::flow(s, parent, key, identity, layer, dir, ts);
        lemma_counted_up(s, n.protocol, b);
        match state::anchors_of(s, rules, layer.fields) {
            None => {},
            Some(anchors) => match state::fold_at(s, parent, layer.protocol, anchors, 0) {
                Some(i) => {
                    let c = anchors[i];
                    let k = state::group_key(parent, layer.protocol, c.anchor);
                    lemma_folded(s, k, identity, c, ts, b);
                },
                None => {
                    lemma_enrolled_counts(
                        state::created(s, n),
                        parent,
                        layer.protocol,
                        anchors,
                        anchors.len() as int,
                    );
                },
            },
        }
    }
}

proof fn lemma_enrolled_counts(
    s: State,
    parent: Option<StreamId>,
    protocol: Seq<char>,
    anchors: Seq<Candidate>,
    n: int,
)
    ensures
        ({
            let t = state::enrolled_all(s, parent, protocol, anchors, n);
            t == (State { groups: t.groups, ..s })
        }),
    decreases n,
{
    if n > 0 {
        lemma_enrolled_counts(s, parent, protocol, anchors, n - 1);
    }
}

proof fn lemma_folded(
    s: State,
    k: GroupKey,
    identity: Identity,
    c: Candidate,
    ts: Timestamp,
    b: nat,
)
    requires
        adds_up(s),
        bounds::within(s, b),
        b + 3 <= u64::MAX,
    ensures
        ({
            let t = state::folded(s, k, identity, c, ts).state;
            let created = t.totals.streams_created - s.totals.streams_created;
            &&& adds_up(t)
            &&& t.totals.packets == s.totals.packets
            &&& t.totals.bytes == s.totals.bytes
            &&& t.totals.key_errors == s.totals.key_errors
            &&& t.stop_classes == s.stop_classes
            &&& t.totals.flows_condensed - s.totals.flows_condensed == created
            &&& 0 <= created <= 1
        }),
{
    let u = state::with_node(s, k, identity, c, ts);
    assert(u.totals == s.totals && adds_up(u) && u.ever.dom().finite() && (forall|p: Seq<char>|
        #[trigger] u.ever.contains_key(p) ==> u.ever[p] <= b)) by {
        if !state::has_node(s, k) {
            let n = state::node(s, k.parent, k.protocol, identity, c, ts);
            let t = state::created(s, n);
            lemma_counted_up(s, k.protocol, b);
            if s.ever.contains_key(k.protocol) {
                assert(s.ever[k.protocol] <= b);
            }
            lemma_total_with(t.ever, k.protocol, (t.ever[k.protocol] - 1) as u64);
            assert forall|p: Seq<char>| #[trigger] u.ever.contains_key(p) implies u.ever[p]
                <= b by {
                if p != k.protocol {
                    assert(s.ever.contains_key(p));
                }
            }
        }
    }
    if u.ever.contains_key(k.protocol) {
        lemma_total_with(u.ever, k.protocol, (u.ever[k.protocol] + 1) as u64);
    } else {
        lemma_total_with(u.ever, k.protocol, 1);
    }
}

/// Whether the protocol of every stream is one that flows are counted of.
pub open spec fn listed(s: State) -> bool {
    forall|i: int| #[trigger] s.live_at(i) ==> s.ever.contains_key(s.at(i).protocol)
}

/// Whether flows of as many protocols are counted as before, and every stream that
/// was not there before is of one of them.
spec fn lists_on(s: State, t: State) -> bool {
    &&& forall|p: Seq<char>| s.ever.contains_key(p) ==> #[trigger] t.ever.contains_key(p)
    &&& forall|i: int| #[trigger]
        t.live_at(i) ==> (s.live_at(i) && s.at(i).protocol == t.at(i).protocol)
            || t.ever.contains_key(t.at(i).protocol)
}

proof fn lemma_lists_on(s: State, t: State, u: State)
    requires
        lists_on(s, t),
        lists_on(t, u),
    ensures
        lists_on(s, u),
{
    assert forall|p: Seq<char>| s.ever.contains_key(p) implies #[trigger] u.ever.contains_key(
        p,
    ) by {
        assert(t.ever.contains_key(p));
    }
    assert forall|i: int| #[trigger] u.live_at(i) implies (s.live_at(i) && s.at(i).protocol == u.at(
        i,
    ).protocol) || u.ever.contains_key(u.at(i).protocol) by {
        if t.live_at(i) && t.at(i).protocol == u.at(i).protocol {
            if t.ever.contains_key(t.at(i).protocol) {
                assert(u.ever.contains_key(t.at(i).protocol));
            }
        }
    }
}

proof fn creating_lists_on(s: State, n: state::Newcomer)
    ensures
        lists_on(s, state::created(s, n)),
        state::created(s, n).ever.contains_key(n.protocol),
{
    let t = state::created(s, n);
    let id = state::next_id(s);
    let r = state::record(n, id, s.next_seq);
    let w = State { slots: state::placed(s.slots, id, r), ..s };
    assert forall|i: int| #[trigger] t.live_at(i) implies (s.live_at(i) && s.at(i).protocol == t.at(
        i,
    ).protocol) || t.ever.contains_key(t.at(i).protocol) by {
        if i < s.slots.len() && i != id.index {
            assert(w.slots[i] == s.slots[i]);
        }
    }
}

proof fn enrolling_lists_on(
    s: State,
    parent: Option<StreamId>,
    protocol: Seq<char>,
    anchors: Seq<Candidate>,
    n: int,
)
    ensures
        lists_on(s, state::enrolled_all(s, parent, protocol, anchors, n)),
{
    lemma_enrolled_counts(s, parent, protocol, anchors, n);
    let t = state::enrolled_all(s, parent, protocol, anchors, n);
    assert forall|i: int| #[trigger] t.live_at(i) implies s.live_at(i) && s.at(i).protocol == t.at(
        i,
    ).protocol by {}
}

proof fn folding_lists_on(
    s: State,
    k: GroupKey,
    identity: Identity,
    c: Candidate,
    ts: Timestamp,
)
    ensures
        lists_on(s, state::folded(s, k, identity, c, ts).state),
{
    let u = state::with_node(s, k, identity, c, ts);
    let t = state::folded(s, k, identity, c, ts).state;
    assert(lists_on(s, u)) by {
        if !state::has_node(s, k) {
            let n = state::node(s, k.parent, k.protocol, identity, c, ts);
            let made = state::created(s, n);
            creating_lists_on(s, n);
            assert forall|i: int| #[trigger] u.live_at(i) implies made.live_at(i) && made.at(i)
                == u.at(i) by {}
            assert(lists_on(made, u));
            lemma_lists_on(s, made, u);
        }
    }
    assert(lists_on(u, t)) by {
        assert forall|i: int| #[trigger] t.live_at(i) implies u.live_at(i) && u.at(i).protocol
            == t.at(i).protocol by {}
    }
    lemma_lists_on(s, u, t);
}

/// Taking a layer in counts a flow of its protocol, if it makes a new stream.
proof fn taking_lists_on(p: Progress, layer: LayerView, meta: PacketMeta)
    ensures
        lists_on(p.state, state::taken(p, layer, meta).state),
{
    let s = State { load: (p.state.load + state::layer_weight(meta)) as nat, ..p.state };
    let t = state::taken(p, layer, meta).state;
    assert(lists_on(p.state, s)) by {
        assert forall|i: int| #[trigger] s.live_at(i) implies p.state.live_at(i) && s.at(i)
            == p.state.at(i) by {}
    }
    assert(lists_on(s, t)) by {
        if placing::forms_stream(s, layer) {
            let rules = s.rules(layer.protocol)->0;
            let identity = rules.identity->0;
            match crate::flows::key::key_of(identity, layer.fields) {
                Ok((key, dir)) => {
                    let ts = meta.timestamp;
                    let r = state::resolved(s, p.parent, key, rules, layer, dir, ts);
                    let n = state::flow(s, p.parent, key, identity, layer, dir, ts);
                    let fresh = state::created(s, n);
                    creating_lists_on(s, n);
                    assert(lists_on(s, r.state)) by {
                        match state::anchors_of(s, rules, layer.fields) {
                            None => {},
                            Some(anchors) => {
                                enrolling_lists_on(
                                    fresh,
                                    p.parent,
                                    layer.protocol,
                                    anchors,
                                    anchors.len() as int,
                                );
                                lemma_lists_on(
                                    s,
                                    fresh,
                                    state::enrolled_all(
                                        fresh,
                                        p.parent,
                                        layer.protocol,
                                        anchors,
                                        anchors.len() as int,
                                    ),
                                );
                                match state::fold_at(s, p.parent, layer.protocol, anchors, 0) {
                                    Some(i) => folding_lists_on(
                                        s,
                                        state::group_key(
                                            p.parent,
                                            layer.protocol,
                                            anchors[i].anchor,
                                        ),
                                        identity,
                                        anchors[i],
                                        ts,
                                    ),
                                    None => {},
                                }
                            },
                        }
                    }
                    assert(lists_on(r.state, t)) by {
                        assert forall|i: int| #[trigger] t.live_at(i) implies r.state.live_at(i)
                            && r.state.at(i).protocol == t.at(i).protocol by {}
                    }
                    lemma_lists_on(s, r.state, t);
                },
                Err(_) => {},
            }
        } else {
            assert forall|i: int| #[trigger] t.live_at(i) implies s.live_at(i) && s.at(i) == t.at(
                i,
            ) by {}
        }
    }
    lemma_lists_on(p.state, s, t);
}

proof fn taking_all_lists_on(s: State, layers: Seq<LayerView>, n: nat, meta: PacketMeta)
    ensures
        lists_on(s, state::taken_all(s, layers, n as int, meta).state),
    decreases n,
{
    if n > 0 {
        let m = (n - 1) as nat;
        let p = state::taken_all(s, layers, m as int, meta);
        taking_all_lists_on(s, layers, m, meta);
        taking_lists_on(p, layers[n - 1], meta);
        lemma_lists_on(s, p.state, state::taken_all(s, layers, n as int, meta).state);
    }
}

proof fn evicting_lists_on(s: State, id: StreamId, reason: CloseReason)
    ensures
        lists_on(s, state::evict(s, id, reason)),
{
    let t = state::evict(s, id, reason);
    assert forall|i: int| #[trigger] t.live_at(i) implies s.live_at(i) && s.at(i).protocol == t.at(
        i,
    ).protocol by {}
}

proof fn sweeping_lists_on(s: State)
    ensures
        lists_on(s, state::swept(s)),
    decreases state::live_count(s.slots), state::due_entries(s),
{
    if state::sweepable(s) {
        let e = crate::flows::heap::first(s.expiry);
        let id = state::id_of(e);
        let t = State { expiry: s.expiry.remove(e), ..s };
        let u = state::sweep_step(s);
        assert(lists_on(s, t)) by {
            assert forall|i: int| #[trigger] t.live_at(i) implies s.live_at(i) && s.at(i) == t.at(
                i,
            ) by {}
        }
        evicting_lists_on(t, id, state::due_reason(t, t.get(id)->0));
        assert(lists_on(t, u)) by {
            if u.slots == t.slots {
                assert forall|i: int| #[trigger] u.live_at(i) implies t.live_at(i) && t.at(i)
                    == u.at(i) by {}
            }
        }
        lemma_lists_on(s, t, u);
        if state::sweep_progress(s, u) {
            sweeping_lists_on(u);
            lemma_lists_on(s, u, state::swept(s));
        }
    }
}

proof fn capping_lists_on(s: State)
    ensures
        lists_on(s, state::capped(s)),
    decreases state::live_count(s.slots), state::stale_candidates(s),
{
    if state::over_cap(s) {
        let e = crate::flows::heap::first(s.lru);
        let id = state::id_of(e);
        let t = State { lru: s.lru.remove(e), ..s };
        let u = state::cap_step(s);
        assert(lists_on(s, t)) by {
            assert forall|i: int| #[trigger] t.live_at(i) implies s.live_at(i) && s.at(i) == t.at(
                i,
            ) by {}
        }
        evicting_lists_on(t, id, CloseReason::LruEvicted);
        assert(lists_on(t, u)) by {
            if u.slots == t.slots {
                assert forall|i: int| #[trigger] u.live_at(i) implies t.live_at(i) && t.at(i)
                    == u.at(i) by {}
            }
        }
        lemma_lists_on(s, t, u);
        if state::cap_progress(s, u) {
            capping_lists_on(u);
            lemma_lists_on(s, u, state::capped(s));
        }
    }
}

/// A packet leaves every stream's protocol among those that flows are counted of.
pub proof fn packets_stay_listed(s: State, pkt: Packet)
    requires
        listed(s),
    ensures
        listed(state::ingested(s, pkt)),
{
    let n = pkt.layers.len();
    let t0 = state::begun(s, pkt);
    let t1 = steps::opened(s, pkt);
    let p = state::taken_all(t1, pkt.layers, n as int, pkt.meta);
    let t3 = state::with_opaque(p.state, p.parent, pkt.opaque_len as int);
    let t4 = state::with_unknown(t3, pkt, p.endpoint);
    assert(lists_on(s, t0)) by {
        assert forall|i: int| #[trigger] t0.live_at(i) implies s.live_at(i) && s.at(i) == t0.at(
            i,
        ) by {}
    }
    sweeping_lists_on(t0);
    assert(lists_on(state::swept(t0), t1)) by {
        let u = state::swept(t0);
        assert forall|i: int| #[trigger] t1.live_at(i) implies u.live_at(i) && u.at(i) == t1.at(
            i,
        ) by {}
    }
    taking_all_lists_on(t1, pkt.layers, n, pkt.meta);
    assert(lists_on(p.state, t4)) by {
        assert forall|i: int| #[trigger] t4.live_at(i) implies p.state.live_at(i) && p.state.at(
            i,
        ).protocol == t4.at(i).protocol by {}
    }
    capping_lists_on(t4);
    lemma_lists_on(s, t0, state::swept(t0));
    lemma_lists_on(s, state::swept(t0), t1);
    lemma_lists_on(s, t1, p.state);
    lemma_lists_on(s, p.state, t4);
    lemma_lists_on(s, t4, state::ingested(s, pkt));
}

/// The end of a capture leaves every stream's protocol among those that flows are
/// counted of.
pub proof fn the_end_stays_listed(s: State, order: Seq<StreamId>, k: nat)
    requires
        listed(s),
    ensures
        listed(state::closed_all(s, order, k as int)),
    decreases k,
{
    if k > 0 {
        let t = state::closed_all(s, order, k - 1);
        let u = state::closed_all(s, order, k as int);
        the_end_stays_listed(s, order, (k - 1) as nat);
        assert forall|i: int| #[trigger] u.live_at(i) implies t.live_at(i) && t.at(i).protocol
            == u.at(i).protocol by {}
    }
}

/// Whether a packet changed the counts as one packet does: its flows are
/// accounted for, and nothing else has changed.
pub open spec fn accounted(s: State, t: State) -> bool {
    &&& adds_up(t)
    &&& t.totals.packets == s.totals.packets
    &&& t.totals.bytes == s.totals.bytes
    &&& t.stop_classes == s.stop_classes
    &&& s.totals.streams_created <= t.totals.streams_created
    &&& s.totals.flows_condensed <= t.totals.flows_condensed
    &&& t.totals.flows_condensed - s.totals.flows_condensed <= t.totals.streams_created
        - s.totals.streams_created
}

/// One if a layer opens a stream of its own for a new flow, else nothing.
pub open spec fn opens(p: Progress, layer: LayerView, meta: PacketMeta) -> nat {
    let s = State { load: (p.state.load + state::layer_weight(meta)) as nat, ..p.state };
    if !placing::forms_stream(s, layer) {
        0
    } else {
        let rules = s.rules(layer.protocol)->0;
        let key = crate::flows::key::key_of(rules.identity->0, layer.fields)->Ok_0.0;
        if state::lookup(s, p.parent, layer.protocol, key) is None && !folds(
            s,
            p.parent,
            rules,
            layer,
        ) {
            1
        } else {
            0
        }
    }
}

/// The streams that the first `n` layers open for new flows.
pub open spec fn opened_by_layers(
    s: State,
    layers: Seq<LayerView>,
    n: int,
    meta: PacketMeta,
) -> nat
    decreases n,
{
    if n <= 0 {
        0
    } else {
        opened_by_layers(s, layers, n - 1, meta) + opens(
            state::taken_all(s, layers, n - 1, meta),
            layers[n - 1],
            meta,
        )
    }
}

/// The streams that the first `n` packets open for new flows.
pub open spec fn opened_by_packets(s: State, packets: Seq<Packet>, n: int) -> nat
    decreases n,
{
    if n <= 0 {
        0
    } else {
        let pkt = packets[n - 1];
        opened_by_packets(s, packets, n - 1) + opened_by_layers(
            steps::opened(capture::after(s, packets, n - 1), pkt),
            pkt.layers,
            pkt.layers.len() as int,
            pkt.meta,
        )
    }
}

/// Taking a layer in accounts for one flow at most: one that gets a stream of its
/// own, or one that is condensed.
pub proof fn taking_accounts(p: Progress, layer: LayerView, meta: PacketMeta, b: nat)
    requires
        steps::on_course(p, b),
        adds_up(p.state),
        b + state::layer_weight(meta) <= u64::MAX,
    ensures
        accounted(p.state, state::taken(p, layer, meta).state),
        state::taken(p, layer, meta).state.totals.streams_created
            <= p.state.totals.streams_created + 1,
        state::taken(p, layer, meta).state.totals.streams_created
            - p.state.totals.streams_created == opens(p, layer, meta) + state::taken(
            p,
            layer,
            meta,
        ).state.totals.flows_condensed - p.state.totals.flows_condensed,
{
    let s = State { load: (p.state.load + state::layer_weight(meta)) as nat, ..p.state };
    crate::flows::queues::lemma_same_bounds(p.state, s, b);
    match s.rules(layer.protocol) {
        None => {},
        Some(rules) => match rules.identity {
            None => {},
            Some(identity) => match crate::flows::key::key_of(identity, layer.fields) {
                Err(_) => {},
                Ok((key, dir)) => {
                    resolving_accounts_for_flows(
                        s,
                        p.parent,
                        key,
                        rules,
                        layer,
                        dir,
                        meta.timestamp,
                        b,
                    );
                },
            },
        },
    }
}

proof fn taking_all_accounts(s: State, layers: Seq<LayerView>, n: nat, meta: PacketMeta, b: nat)
    requires
        tree::hierarchy(s),
        bounds::within(s, b),
        adds_up(s),
        layer::in_time(meta.timestamp),
        s.slots.len() + n <= u32::MAX,
        b + n * state::layer_weight(meta) <= u64::MAX,
    ensures
        accounted(s, state::taken_all(s, layers, n as int, meta).state),
        state::taken_all(s, layers, n as int, meta).state.totals.streams_created
            <= s.totals.streams_created + n,
        state::taken_all(s, layers, n as int, meta).state.totals.streams_created
            - s.totals.streams_created == opened_by_layers(s, layers, n as int, meta)
            + state::taken_all(s, layers, n as int, meta).state.totals.flows_condensed
            - s.totals.flows_condensed,
    decreases n,
{
    let w = state::layer_weight(meta);
    if n > 0 {
        let m = (n - 1) as nat;
        assert(n * w == m * w + w) by (nonlinear_arith)
            requires
                n == m + 1,
        ;
        assert(m * w >= 0) by (nonlinear_arith)
            requires
                w >= 0,
        ;
        taking_all_accounts(s, layers, m, meta, b);
        steps::taking_all_keeps(s, layers, m, meta, b);
        taking_accounts(
            state::taken_all(s, layers, m as int, meta),
            layers[n - 1],
            meta,
            (b + m * w) as nat,
        );
    }
}

/// A packet is counted once, with its length on the wire and the kind of its end,
/// and accounts for as many flows as it has layers at most: those that get streams
/// of their own and those that are condensed. What leaves memory on
/// its account changes no count.
pub proof fn a_packet_is_counted_once(s: State, pkt: Packet)
    requires
        tree::hierarchy(s),
        bounds::within(s, s.load),
        adds_up(s),
        state::has_room(s, pkt),
    ensures
        ({
            let t = state::ingested(s, pkt);
            let i = state::class_index(pkt.stop.spec_class());
            &&& adds_up(t)
            &&& t.totals.packets == s.totals.packets + 1
            &&& t.totals.bytes == s.totals.bytes + pkt.meta.origlen
            &&& t.stop_classes == s.stop_classes.update(i, (s.stop_classes[i] + 1) as u64)
            &&& s.totals.streams_created <= t.totals.streams_created <= s.totals.streams_created
                + pkt.layers.len()
            &&& 0 <= t.totals.flows_condensed - s.totals.flows_condensed
                <= t.totals.streams_created - s.totals.streams_created
            &&& t.totals.streams_created - s.totals.streams_created == opened_by_layers(
                steps::opened(s, pkt),
                pkt.layers,
                pkt.layers.len() as int,
                pkt.meta,
            ) + t.totals.flows_condensed - s.totals.flows_condensed
        }),
{
    let w = state::layer_weight(pkt.meta);
    let n = pkt.layers.len();
    assert(n * w >= 0) by (nonlinear_arith)
        requires
            w >= 0,
    ;
    let b = s.load;
    let b1 = b + pkt.meta.origlen as nat + 1;
    let b2 = (b1 + n * w) as nat;
    let b4 = (b + state::weight(pkt)) as nat;
    steps::beginning_keeps(s, pkt, b);
    steps::sweeping_keeps(state::begun(s, pkt), b1);
    steps::opening_keeps(s, pkt, b);
    let t1 = steps::opened(s, pkt);
    taking_all_accounts(t1, pkt.layers, n, pkt.meta, b1);
    steps::taking_all_keeps(t1, pkt.layers, n, pkt.meta, b1);
    let p = state::taken_all(t1, pkt.layers, n as int, pkt.meta);
    steps::leftovers_keep(p.state, p.parent, pkt.opaque_len as nat, b2);
    let t3 = state::with_opaque(p.state, p.parent, pkt.opaque_len as int);
    bounds::within_widens(t3, b2 + pkt.opaque_len as nat, b4);
    steps::registering_keeps(t3, pkt, p.endpoint, b, b4);
    steps::capping_keeps(state::with_unknown(t3, pkt, p.endpoint), b4);
}

/// What is known of unknown payloads is no matter of the streams: a packet with one
/// adds it, and whatever streams leave takes nothing from it.
pub proof fn unknowns_outlive_streams(s: State, pkt: Packet)
    requires
        tree::hierarchy(s),
        bounds::within(s, s.load),
        state::has_room(s, pkt),
    ensures
        ({
            let p = state::taken_all(
                steps::opened(s, pkt),
                pkt.layers,
                pkt.layers.len() as int,
                pkt.meta,
            );
            state::ingested(s, pkt).unknowns == state::with_unknown(s, pkt, p.endpoint).unknowns
        }),
{
    let w = state::layer_weight(pkt.meta);
    let n = pkt.layers.len();
    assert(n * w >= 0) by (nonlinear_arith)
        requires
            w >= 0,
    ;
    let b = s.load;
    let b1 = b + pkt.meta.origlen as nat + 1;
    let b2 = (b1 + n * w) as nat;
    let b4 = (b + state::weight(pkt)) as nat;
    steps::opening_keeps(s, pkt, b);
    let t1 = steps::opened(s, pkt);
    steps::taking_all_keeps(t1, pkt.layers, n, pkt.meta, b1);
    let p = state::taken_all(t1, pkt.layers, n as int, pkt.meta);
    steps::leftovers_keep(p.state, p.parent, pkt.opaque_len as nat, b2);
    let t3 = state::with_opaque(p.state, p.parent, pkt.opaque_len as int);
    bounds::within_widens(t3, b2 + pkt.opaque_len as nat, b4);
    steps::registering_keeps(t3, pkt, p.endpoint, b, b4);
    steps::capping_keeps(state::with_unknown(t3, pkt, p.endpoint), b4);
}

/// The end of a capture changes no count.
pub proof fn the_end_counts_nothing(s: State, order: Seq<StreamId>, k: nat)
    ensures
        state::closed_all(s, order, k as int).totals == s.totals,
        state::closed_all(s, order, k as int).ever == s.ever,
        state::closed_all(s, order, k as int).stop_classes == s.stop_classes,
        state::closed_all(s, order, k as int).unknowns == s.unknowns,
    decreases k,
{
    if k > 0 {
        the_end_counts_nothing(s, order, (k - 1) as nat);
    }
}

/// Payload that nothing took is counted by the innermost stream alone.
pub proof fn leftovers_go_to_the_innermost(s: State, innermost: Option<StreamId>, bytes: nat, b: nat)
    requires
        tree::hierarchy(s),
        bounds::within(s, b),
        b + bytes <= u64::MAX,
    ensures
        ({
            let t = state::with_opaque(s, innermost, bytes as int);
            forall|x: StreamId| #[trigger]
                s.live(x) ==> t.get(x)->0.opaque_bytes == s.get(x)->0.opaque_bytes + if Some(x)
                    == innermost {
                    bytes as int
                } else {
                    0
                }
        }),
{
    let t = state::with_opaque(s, innermost, bytes as int);
    assert forall|x: StreamId| #[trigger] s.live(x) implies t.get(x)->0.opaque_bytes == s.get(
        x,
    )->0.opaque_bytes + if Some(x) == innermost {
        bytes as int
    } else {
        0
    } by {
        assert(s.live_at(x.index as int));
        assert(bounds::stream_within(s.at(x.index as int), b));
    }
}

/// A conversation whose stream was evicted starts anew: no flow's stream is found
/// for it.
pub proof fn evicted_conversations_start_anew(s: State, id: StreamId, reason: CloseReason)
    requires
        tree::hierarchy(s),
        placing::placed(s),
        s.live(id),
        s.get(id)->0.children.len() == 0,
        s.get(id)->0.condensed is None,
    ensures
        ({
            let o = s.get(id)->0;
            let t = state::evict(s, id, reason);
            state::lookup(t, o.parent, o.protocol, o.key) matches Some(x) ==> t.get(
                x,
            )->0.condensed is Some
        }),
{
    let o = s.get(id)->0;
    let t = state::evict(s, id, reason);
    tree::evicting_keeps_the_hierarchy(s, id, reason);
    tree::evicting_removes_one(s, id, reason);
    tree::handles_are_unique(s, id);
    steps::lookup_is_live(t, o.parent, o.protocol, o.key);
    if let Some(x) = state::lookup(t, o.parent, o.protocol, o.key) {
        assert(t.live(x) && s.live(x));
        assert(s.live_at(id.index as int) && s.live_at(x.index as int));
        tree::handles_are_unique(s, x);
        if t.get(x)->0.condensed is None {
            assert(placing::same_conversation(
                s.at(id.index as int),
                s.at(x.index as int),
            ));
        }
    }
}

/// After any capture the flows of all protocols add up to the flows ever created,
/// which are those that got streams of their own and those that were condensed; the
/// packets of all kinds of end add up to the packets, and every stream's
/// protocol is one that flows are counted of.
pub proof fn every_capture_adds_up(
    protocols: Seq<Registration>,
    config: AggregatorConfig,
    packets: Seq<Packet>,
    n: nat,
)
    requires
        bounds::timed(config),
        n <= packets.len(),
        capture::fits(state::initial(protocols, config), packets, n as int),
    ensures
        ({
            let t = capture::after(state::initial(protocols, config), packets, n as int);
            &&& adds_up(t)
            &&& classes_add_up(t)
            &&& listed(t)
            &&& t.totals.streams_created == opened_by_packets(
                state::initial(protocols, config),
                packets,
                n as int,
            ) + t.totals.flows_condensed
        }),
    decreases n,
{
    let s = state::initial(protocols, config);
    if n > 0 {
        let m = (n - 1) as nat;
        assert(capture::fits(s, packets, m as int));
        every_capture_adds_up(protocols, config, packets, m);
        capture::every_capture_is_well_kept(protocols, config, packets, m);
        assert(state::has_room(capture::after(s, packets, n - 1), packets[n - 1]));
        let t = capture::after(s, packets, m as int);
        a_packet_is_counted_once(t, packets[n - 1]);
        packets_stay_listed(t, packets[n - 1]);
    } else {
        assert(s.ever.dom() =~= Set::empty());
    }
}

} // verus!

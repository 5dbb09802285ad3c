//! Why streams leave and what is handed out of them, what a packet is counted as, and
//! what is registered of an unknown payload.
use vstd::prelude::*;

use crate::flows::bounds;
use crate::flows::freshness;
use crate::flows::heap;
use crate::flows::key;
use crate::flows::origins;
use crate::flows::placing;
use crate::flows::queues;
use crate::flows::state::{
    self, AggregatorConfig, Candidate, Evicted, GroupKey, Progress, State,
};
use crate::flows::steps;
use crate::flows::stream::{CloseReason, StreamId, StreamView};
use crate::flows::tree;
use crate::flows::unknown::{self, Endpoint, Occurrence};
use crate::identity::Identity;
use crate::layer::{self, LayerView, PacketMeta, Timestamp};
use crate::packet::Packet;

verus! {

/// Whether a record was handed out as it was, with the reason it left.
pub open spec fn is_parting(e: Evicted, st: StreamView) -> bool {
    e.stream == (StreamView { closed: Some(e.reason), ..st })
}

/// Whether a stream has been without packets for too long.
pub open spec fn is_idle(config: AggregatorConfig, st: StreamView, clock: int) -> bool {
    st.last_seen + config.eviction->idle_timeout <= clock
}

/// Whether a stream's session has been over for long enough.
pub open spec fn has_lingered(config: AggregatorConfig, st: StreamView, clock: int) -> bool {
    st.close_eligible_since is Some && st.close_eligible_since->0 + config.eviction->close_linger
        <= clock
}

/// Whether a stream leaves for the reason given: its session has been over for long
/// enough, or it has been idle for too long and that is not so.
pub open spec fn is_due_for(
    config: AggregatorConfig,
    st: StreamView,
    clock: int,
    reason: CloseReason,
) -> bool {
    match reason {
        CloseReason::ProtocolClose => has_lingered(config, st, clock),
        CloseReason::IdleTimeout => is_idle(config, st, clock) && !has_lingered(config, st, clock),
        CloseReason::LruEvicted => false,
        CloseReason::CaptureEnd => false,
    }
}

/// Evicting a stream hands its record out, if the caller collects them, and takes it
/// out of the store; nothing else is handed out.
pub proof fn leavers_are_handed_out(s: State, id: StreamId, reason: CloseReason)
    requires
        tree::hierarchy(s),
        s.live(id),
        s.get(id)->0.children.len() == 0,
    ensures
        ({
            let t = state::evict(s, id, reason);
            &&& t.get(id) is None
            &&& !s.config.sink ==> t.evicted == s.evicted
            &&& s.config.sink ==> t.evicted.len() == s.evicted.len() + 1 && t.evicted.take(
                s.evicted.len() as int,
            ) == s.evicted && t.evicted.last().reason == reason && is_parting(
                t.evicted.last(),
                s.get(id)->0,
            )
        }),
{
    let t = state::evict(s, id, reason);
    tree::evicting_removes_one(s, id, reason);
    if s.config.sink {
        assert(t.evicted.take(s.evicted.len() as int) =~= s.evicted);
    }
}

/// Whether a stream of `s` that is gone in `t` was handed out as it was, but for its
/// children, which had left before it, and for a reason that holds of it: in a sweep,
/// that it was due; else, that there were too many.
pub open spec fn parts(s: State, t: State, e: Evicted, sweep: bool) -> bool {
    let st = s.get(e.stream.id)->0;
    &&& s.live(e.stream.id)
    &&& !t.live(e.stream.id)
    &&& e.stream == (StreamView { closed: Some(e.reason), children: e.stream.children, ..st })
    &&& sweep ==> is_due_for(s.config, st, s.clock as int, e.reason)
    &&& !sweep ==> e.reason is LruEvicted
}

/// Whether a handle is that of a stream handed out since `n` of them were.
pub open spec fn is_out(t: State, n: nat, x: StreamId) -> bool {
    exists|j: int| n <= j < t.evicted.len() && (#[trigger] t.evicted[j]).stream.id == x
}

/// Whether what was handed out between `s` and `t` are the streams that left, and only
/// those, each for a reason that holds of it; and those that stay are as they were.
pub open spec fn parted(s: State, t: State, sweep: bool) -> bool {
    &&& t.config == s.config
    &&& t.clock == s.clock
    &&& t.evicted.len() >= s.evicted.len()
    &&& forall|j: int| 0 <= j < s.evicted.len() ==> #[trigger] t.evicted[j] == s.evicted[j]
    &&& forall|j: int|
        s.evicted.len() <= j < t.evicted.len() ==> parts(s, t, #[trigger] t.evicted[j], sweep)
    &&& s.config.sink ==> forall|x: StreamId| #[trigger]
        s.live(x) && !t.live(x) ==> is_out(t, s.evicted.len(), x)
    &&& forall|x: StreamId| #[trigger]
        t.live(x) ==> s.live(x) && origins::untouched(s.get(x)->0, t.get(x)->0)
}

proof fn lemma_nothing_parted(s: State, t: State, sweep: bool)
    requires
        t.config == s.config,
        t.clock == s.clock,
        t.evicted == s.evicted,
        t.slots == s.slots,
    ensures
        parted(s, t, sweep),
{
    assert forall|x: StreamId| #[trigger] t.live(x) == s.live(x) && t.get(x) == s.get(x) by {}
}

proof fn lemma_one_parted(s: State, id: StreamId, reason: CloseReason, sweep: bool)
    requires
        tree::hierarchy(s),
        s.live(id),
        s.get(id)->0.children.len() == 0,
        sweep ==> is_due_for(s.config, s.get(id)->0, s.clock as int, reason),
        !sweep ==> reason is LruEvicted,
    ensures
        parted(s, state::evict(s, id, reason), sweep),
{
    let t = state::evict(s, id, reason);
    tree::evicting_removes_one(s, id, reason);
    tree::handles_are_unique(s, id);
    leavers_are_handed_out(s, id, reason);
    assert(t.config == s.config && t.clock == s.clock);
    let n = s.evicted.len() as int;
    if s.config.sink {
        assert(t.evicted[n] == t.evicted.last());
        assert forall|j: int| 0 <= j < n implies #[trigger] t.evicted[j] == s.evicted[j] by {
            assert(t.evicted.take(n)[j] == t.evicted[j]);
        }
        assert(parts(s, t, t.evicted[n], sweep));
        assert forall|x: StreamId| #[trigger] s.live(x) && !t.live(x) implies is_out(
            t,
            s.evicted.len(),
            x,
        ) by {
            assert(t.evicted[n].stream.id == x);
        }
    }
    assert forall|x: StreamId| #[trigger] t.live(x) implies s.live(x) && origins::untouched(
        s.get(x)->0,
        t.get(x)->0,
    ) by {
        assert(s.live(x));
    }
}

/// What parted from a later state parted from an earlier one.
proof fn lemma_parts(s: State, t: State, u: State, e: Evicted, sweep: bool)
    requires
        parted(s, t, sweep),
        parts(t, u, e, sweep),
    ensures
        parts(s, u, e, sweep),
{
    assert(t.live(e.stream.id));
    assert(origins::untouched(s.get(e.stream.id)->0, t.get(e.stream.id)->0));
}

proof fn lemma_parted(s: State, t: State, u: State, sweep: bool)
    requires
        parted(s, t, sweep),
        parted(t, u, sweep),
    ensures
        parted(s, u, sweep),
{
    assert forall|j: int| 0 <= j < s.evicted.len() implies #[trigger] u.evicted[j]
        == s.evicted[j] by {
        assert(t.evicted[j] == s.evicted[j]);
    }
    assert forall|j: int| s.evicted.len() <= j < u.evicted.len() implies parts(
        s,
        u,
        #[trigger] u.evicted[j],
        sweep,
    ) by {
        if j < t.evicted.len() {
            let e = t.evicted[j];
            assert(u.evicted[j] == e);
            assert(parts(s, t, e, sweep));
            assert(!u.live(e.stream.id)) by {
                if u.live(e.stream.id) {
                    assert(t.live(e.stream.id));
                }
            }
        } else {
            lemma_parts(s, t, u, u.evicted[j], sweep);
        }
    }
    if s.config.sink {
        assert forall|x: StreamId| #[trigger] s.live(x) && !u.live(x) implies is_out(
            u,
            s.evicted.len(),
            x,
        ) by {
            if t.live(x) {
                assert(is_out(u, t.evicted.len(), x));
            } else {
                assert(is_out(t, s.evicted.len(), x));
                let j = choose|j: int|
                    s.evicted.len() <= j < t.evicted.len() && (#[trigger] t.evicted[j]).stream.id
                        == x;
                assert(u.evicted[j] == t.evicted[j]);
            }
        }
    }
    assert forall|x: StreamId| #[trigger] u.live(x) implies s.live(x) && origins::untouched(
        s.get(x)->0,
        u.get(x)->0,
    ) by {
        assert(t.live(x));
    }
}

/// One step of a sweep takes a stream that is due, or none.
proof fn a_step_takes_what_is_due(s: State, b: nat)
    requires
        tree::hierarchy(s),
        bounds::within(s, b),
        state::sweepable(s),
    ensures
        parted(s, state::sweep_step(s), true),
{
    let e = heap::first(s.expiry);
    let id = state::id_of(e);
    let t = State { expiry: s.expiry.remove(e), ..s };
    let u = state::sweep_step(s);
    queues::lemma_same_hierarchy(s, t);
    lemma_nothing_parted(s, t, true);
    if u.slots == t.slots && u.evicted == t.evicted {
        lemma_nothing_parted(t, u, true);
    } else {
        let st = t.get(id)->0;
        let reason = state::due_reason(t, st);
        assert(is_due_for(s.config, st, s.clock as int, reason));
        lemma_one_parted(t, id, reason, true);
    }
    lemma_parted(s, t, u, true);
}

/// One step of the cap.
proof fn a_step_of_the_cap_says_so(s: State, b: nat)
    requires
        tree::hierarchy(s),
        bounds::within(s, b),
        state::over_cap(s),
    ensures
        parted(s, state::cap_step(s), false),
{
    let e = heap::first(s.lru);
    let id = state::id_of(e);
    let t = State { lru: s.lru.remove(e), ..s };
    let u = state::cap_step(s);
    queues::lemma_same_hierarchy(s, t);
    lemma_nothing_parted(s, t, false);
    if u.slots == t.slots && u.evicted == t.evicted {
        lemma_nothing_parted(t, u, false);
    } else {
        lemma_one_parted(t, id, CloseReason::LruEvicted, false);
    }
    lemma_parted(s, t, u, false);
}

/// What leaves in a sweep is due: it has been idle for too long, or its session has
/// been over for long enough, and the reason says which. It is handed out as it was, if
/// the caller collects what leaves, and nothing else is.
pub proof fn a_sweep_takes_what_is_due(s: State, b: nat)
    requires
        tree::hierarchy(s),
        bounds::within(s, b),
    ensures
        parted(s, state::swept(s), true),
    decreases state::live_count(s.slots), state::due_entries(s),
{
    if state::sweepable(s) {
        bounds::live_count_is_bounded(s.slots);
        queues::sweeping_progresses(s, b);
        let u = state::sweep_step(s);
        a_step_takes_what_is_due(s, b);
        a_sweep_takes_what_is_due(u, b);
        lemma_parted(s, u, state::swept(s), true);
    } else {
        lemma_nothing_parted(s, s, true);
    }
}

/// What leaves on account of the cap is handed out as it was, and says so.
pub proof fn the_cap_says_so(s: State, b: nat)
    requires
        tree::hierarchy(s),
        bounds::within(s, b),
    ensures
        parted(s, state::capped(s), false),
    decreases state::live_count(s.slots), state::stale_candidates(s),
{
    if state::over_cap(s) {
        bounds::live_count_is_bounded(s.slots);
        queues::capping_progresses(s, b);
        let u = state::cap_step(s);
        a_step_of_the_cap_says_so(s, b);
        the_cap_says_so(u, b);
        lemma_parted(s, u, state::capped(s), false);
    } else {
        lemma_nothing_parted(s, s, false);
    }
}

/// Where packets come in order, no leaf that has been idle for too long, and none whose
/// session has been over for long enough, is left after a sweep.
pub proof fn no_leaf_overstays(s: State, b: nat, i: int)
    requires
        freshness::fresh(s, true),
        tree::hierarchy(s),
        bounds::within(s, b),
        s.config.eviction is Live,
        freshness::is_leaf(state::swept(s), i),
    ensures
        !is_idle(s.config, state::swept(s).at(i), s.clock as int),
        !has_lingered(s.config, state::swept(s).at(i), s.clock as int),
{
    freshness::no_due_leaf_outlives_a_sweep(s, b);
}

/// The number of the first `n` layers whose protocol forms streams but whose key
/// cannot be built.
pub open spec fn keyless(s: State, layers: Seq<LayerView>, n: int) -> nat
    decreases n,
{
    if n <= 0 {
        0
    } else {
        let rules = s.rules(layers[n - 1].protocol);
        keyless(s, layers, n - 1) + if rules is Some && rules->0.identity is Some && key::key_of(
            rules->0.identity->0,
            layers[n - 1].fields,
        ) is Err {
            1nat
        } else {
            0
        }
    }
}

proof fn lemma_folded_counts(s: State, k: GroupKey, id: Identity, c: Candidate, ts: Timestamp)
    ensures
        state::folded(s, k, id, c, ts).state.totals.key_errors == s.totals.key_errors,
        state::folded(s, k, id, c, ts).state.clock == s.clock,
{
}

proof fn lemma_enrolled_counts(
    s: State,
    parent: Option<StreamId>,
    protocol: Seq<char>,
    anchors: Seq<Candidate>,
    n: int,
)
    ensures
        state::enrolled_all(s, parent, protocol, anchors, n).totals == s.totals,
        state::enrolled_all(s, parent, protocol, anchors, n).clock == s.clock,
    decreases n,
{
    if n > 0 {
        lemma_enrolled_counts(s, parent, protocol, anchors, n - 1);
    }
}

/// A layer adds to the errors exactly if its key cannot be built.
proof fn a_layer_counts_its_error(p: Progress, layer: LayerView, meta: PacketMeta)
    requires
        p.state.totals.key_errors < u64::MAX,
    ensures
        state::taken(p, layer, meta).state.totals.key_errors == p.state.totals.key_errors
            + keyless(p.state, seq![layer], 1),
        state::taken(p, layer, meta).state.clock == p.state.clock,
{
    reveal_with_fuel(keyless, 2);
    let s = State { load: (p.state.load + state::layer_weight(meta)) as nat, ..p.state };
    let one = seq![layer];
    assert(one[0] == layer);
    if placing::forms_stream(s, layer) {
        let rules = s.rules(layer.protocol)->0;
        let identity = rules.identity->0;
        let (key, dir) = key::key_of(identity, layer.fields)->Ok_0;
        let ts = meta.timestamp;
        let n = state::flow(s, p.parent, key, identity, layer, dir, ts);
        let fresh = state::created(s, n);
        match state::anchors_of(s, rules, layer.fields) {
            None => {},
            Some(anchors) => {
                lemma_enrolled_counts(
                    fresh,
                    p.parent,
                    layer.protocol,
                    anchors,
                    anchors.len() as int,
                );
                match state::fold_at(s, p.parent, layer.protocol, anchors, 0) {
                    Some(i) => {
                        let k = state::group_key(p.parent, layer.protocol, anchors[i].anchor);
                        lemma_folded_counts(s, k, identity, anchors[i], ts);
                    },
                    None => {},
                }
            },
        }
    }
}

proof fn lemma_keyless(s: State, t: State, layers: Seq<LayerView>, n: int)
    requires
        t.protocols == s.protocols,
    ensures
        keyless(t, layers, n) == keyless(s, layers, n),
    decreases n,
{
    if n > 0 {
        lemma_keyless(s, t, layers, n - 1);
    }
}

proof fn layers_count_their_errors(
    s: State,
    layers: Seq<LayerView>,
    n: nat,
    meta: PacketMeta,
    b: nat,
)
    requires
        tree::hierarchy(s),
        bounds::within(s, b),
        layer::in_time(meta.timestamp),
        n <= layers.len(),
        s.slots.len() + n <= u32::MAX,
        b + n * state::layer_weight(meta) <= u64::MAX,
    ensures
        ({
            let q = state::taken_all(s, layers, n as int, meta);
            &&& q.state.totals.key_errors == s.totals.key_errors + keyless(s, layers, n as int)
            &&& q.state.clock == s.clock
        }),
    decreases n,
{
    let w = state::layer_weight(meta);
    if n > 0 {
        let m = (n - 1) as nat;
        assert(n * w == m * w + w) by (nonlinear_arith)
            requires
                n == m + 1,
        ;
        assert(m * w >= 0) by (nonlinear_arith)
            requires
                w >= 0,
        ;
        layers_count_their_errors(s, layers, m, meta, b);
        steps::taking_all_keeps(s, layers, m, meta, b);
        let p = state::taken_all(s, layers, m as int, meta);
        a_layer_counts_its_error(p, layers[n - 1], meta);
        reveal_with_fuel(keyless, 2);
        assert(seq![layers[n - 1]][0] == layers[n - 1]);
    }
}

/// The innermost layer of the first `n` that forms a stream, by its protocol and the
/// key of its own flow.
pub open spec fn innermost(s: State, layers: Seq<LayerView>, n: int) -> Option<Endpoint>
    decreases n,
{
    if n <= 0 {
        None
    } else if placing::forms_stream(s, layers[n - 1]) {
        let layer = layers[n - 1];
        Some(
            Endpoint {
                protocol: layer.protocol,
                key: key::key_of(s.rules(layer.protocol)->0.identity->0, layer.fields)->Ok_0.0,
            },
        )
    } else {
        innermost(s, layers, n - 1)
    }
}

proof fn lemma_innermost(s: State, layers: Seq<LayerView>, n: nat, meta: PacketMeta, b: nat)
    requires
        tree::hierarchy(s),
        bounds::within(s, b),
        layer::in_time(meta.timestamp),
        n <= layers.len(),
        s.slots.len() + n <= u32::MAX,
        b + n * state::layer_weight(meta) <= u64::MAX,
    ensures
        state::taken_all(s, layers, n as int, meta).endpoint == innermost(s, layers, n as int),
    decreases n,
{
    let w = state::layer_weight(meta);
    if n > 0 {
        let m = (n - 1) as nat;
        assert(n * w == m * w + w) by (nonlinear_arith)
            requires
                n == m + 1,
        ;
        assert(m * w >= 0) by (nonlinear_arith)
            requires
                w >= 0,
        ;
        lemma_innermost(s, layers, m, meta, b);
        steps::taking_all_keeps(s, layers, m, meta, b);
        let p = state::taken_all(s, layers, m as int, meta);
        assert(p.state.rules(layers[n - 1].protocol) == s.rules(layers[n - 1].protocol));
    }
}

proof fn lemma_same_innermost(s: State, t: State, layers: Seq<LayerView>, n: int)
    requires
        t.protocols == s.protocols,
    ensures
        innermost(t, layers, n) == innermost(s, layers, n),
    decreases n,
{
    if n > 0 {
        lemma_same_innermost(s, t, layers, n - 1);
        assert(t.rules(layers[n - 1].protocol) == s.rules(layers[n - 1].protocol));
    }
}

/// A packet moves the clock on to its time, never back; counts each layer whose key
/// cannot be built; and, where its payload is unknown, registers it once, with its
/// length, its time and the innermost conversation around it.
pub proof fn a_packet_leaves_its_marks(s: State, pkt: Packet)
    requires
        tree::hierarchy(s),
        bounds::within(s, s.load),
        state::has_room(s, pkt),
    ensures
        ({
            let t = state::ingested(s, pkt);
            let n = pkt.layers.len() as int;
            &&& t.clock >= s.clock && t.clock >= pkt.meta.timestamp
            &&& t.clock == s.clock || t.clock == pkt.meta.timestamp
            &&& t.totals.key_errors == s.totals.key_errors + keyless(s, pkt.layers, n)
            &&& pkt.unknown is None ==> t.unknowns == s.unknowns
            &&& pkt.unknown matches Some(d) ==> exists|o: Occurrence|
                {
                    &&& t.unknowns == #[trigger] unknown::ingested(s.unknowns, o, s.config.unknown)
                    &&& o.diagnostics == d
                    &&& o.ts == pkt.meta.timestamp
                    &&& o.endpoint == innermost(s, pkt.layers, n)
                    &&& o.bytes <= pkt.opaque_len
                    &&& pkt.opaque_len <= u32::MAX ==> o.bytes == pkt.opaque_len
                    &&& pkt.opaque_len > u32::MAX ==> o.bytes == u32::MAX
                }
        }),
{
    let w = state::layer_weight(pkt.meta);
    let n = pkt.layers.len();
    assert(n * w >= 0) by (nonlinear_arith)
        requires
            w >= 0,
    ;
    let b = s.load;
    let b1 = b + pkt.meta.origlen as nat + 1;
    let b2 = (b1 + n * w) as nat;
    let b4 = (b + state::weight(pkt)) as nat;
    steps::beginning_keeps(s, pkt, b);
    let t0 = state::begun(s, pkt);
    steps::sweeping_keeps(t0, b1);
    steps::opening_keeps(s, pkt, b);
    let t1 = steps::opened(s, pkt);
    steps::taking_all_keeps(t1, pkt.layers, n, pkt.meta, b1);
    layers_count_their_errors(t1, pkt.layers, n, pkt.meta, b1);
    lemma_keyless(s, t1, pkt.layers, n as int);
    lemma_innermost(t1, pkt.layers, n, pkt.meta, b1);
    lemma_same_innermost(s, t1, pkt.layers, n as int);
    let p = state::taken_all(t1, pkt.layers, n as int, pkt.meta);
    steps::leftovers_keep(p.state, p.parent, pkt.opaque_len as nat, b2);
    let t3 = state::with_opaque(p.state, p.parent, pkt.opaque_len as int);
    bounds::within_widens(t3, b2 + pkt.opaque_len as nat, b4);
    steps::registering_keeps(t3, pkt, p.endpoint, b, b4);
    let t4 = state::with_unknown(t3, pkt, p.endpoint);
    steps::capping_keeps(t4, b4);
    if pkt.unknown is Some {
        let o = Occurrence {
            diagnostics: pkt.unknown->0,
            bytes: if pkt.opaque_len > u32::MAX {
                u32::MAX
            } else {
                pkt.opaque_len as u32
            },
            ts: pkt.meta.timestamp,
            endpoint: p.endpoint,
        };
        assert(t4.unknowns == unknown::ingested(s.unknowns, o, s.config.unknown));
    }
}

/// The cap takes nothing as long as there are no more streams than it allows, and never
/// more than those in excess.
pub proof fn the_cap_takes_no_more_than_it_must(s: State, b: nat)
    requires
        tree::hierarchy(s),
        bounds::within(s, b),
    ensures
        ({
            let t = state::capped(s);
            &&& s.config.eviction is Never ==> t == s
            &&& s.config.eviction is Live && state::live_count(s.slots)
                <= s.config.eviction->max_streams ==> t == s
            &&& s.config.eviction is Live && state::live_count(s.slots)
                >= s.config.eviction->max_streams ==> state::live_count(t.slots)
                >= s.config.eviction->max_streams
        }),
    decreases state::live_count(s.slots), state::stale_candidates(s),
{
    if state::over_cap(s) {
        bounds::live_count_is_bounded(s.slots);
        queues::capping_progresses(s, b);
        let u = state::cap_step(s);
        let e = heap::first(s.lru);
        let id = state::id_of(e);
        let t = State { lru: s.lru.remove(e), ..s };
        queues::lemma_same_hierarchy(s, t);
        if u.slots != s.slots {
            bounds::sums_after_evict(t, id, CloseReason::LruEvicted, t.get(id)->0.protocol);
        }
        the_cap_takes_no_more_than_it_must(u, b);
    }
}

} // verus!

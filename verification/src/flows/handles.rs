//! Handles: a slot moves on by one generation with each stream that leaves it, so
//! that a handle out of date stays so until the generations have come round.
use vstd::prelude::*;

use crate::engine::Rules;
use crate::flows::bounds;
use crate::flows::capture;
use crate::flows::heap;
use crate::flows::queues;
use crate::flows::state::{self, Candidate, GroupKey, Newcomer, Progress, Resolved, State};
use crate::flows::steps;
use crate::flows::stream::{CloseReason, StreamId};
use crate::flows::tree;
use crate::identity::{Identity, PacketDirection};
use crate::layer::{self, LayerView, PacketMeta, Timestamp};
use crate::packet::Packet;

verus! {

/// The number of generations before they come round.
pub const GENERATIONS: u64 = 0x1_0000_0000;

/// A generation after `k` further ones.
pub open spec fn moved_on(g: u32, k: nat) -> u32
    decreases k,
{
    if k == 0 {
        g
    } else {
        state::next_generation(moved_on(g, (k - 1) as nat))
    }
}

/// Further generations of a generation add up.
proof fn lemma_moved_on(g: u32, j: nat, k: nat)
    ensures
        moved_on(moved_on(g, j), k) == moved_on(g, j + k),
    decreases k,
{
    if k > 0 {
        lemma_moved_on(g, j, (k - 1) as nat);
    }
}

/// The generation after `k` further ones, as a number.
proof fn lemma_moved_on_by(g: u32, k: nat)
    requires
        k < GENERATIONS,
    ensures
        moved_on(g, k) == if g + k < GENERATIONS {
            g + k
        } else {
            g + k - GENERATIONS
        },
    decreases k,
{
    if k > 0 {
        lemma_moved_on_by(g, (k - 1) as nat);
    }
}

/// Generations differ until they come round.
pub proof fn generations_differ(g: u32, k: nat)
    requires
        0 < k < GENERATIONS,
    ensures
        moved_on(g, k) != g,
{
    lemma_moved_on_by(g, k);
}

/// Whether slot `i` has moved on by `k` generations and, where it has not moved at
/// all, has the stream that it had.
pub open spec fn moved(s: State, t: State, i: int, k: nat) -> bool {
    0 <= i < s.slots.len() ==> {
        &&& i < t.slots.len()
        &&& t.slots[i].generation == moved_on(s.slots[i].generation, k)
        &&& k == 0 && s.live_at(i) ==> t.live_at(i) && t.at(i).created_seq == s.at(i).created_seq
    }
}

proof fn lemma_moved(s: State, t: State, u: State, i: int, j: nat, k: nat)
    requires
        moved(s, t, i, j),
        moved(t, u, i, k),
    ensures
        moved(s, u, i, j + k),
{
    if 0 <= i < s.slots.len() {
        lemma_moved_on(s.slots[i].generation, j, k);
    }
}

/// One if slot `i` changes its generation, else nothing.
pub open spec fn turn(s: State, t: State, i: int) -> nat {
    if s.slots[i].generation != t.slots[i].generation {
        1
    } else {
        0
    }
}

/// How many streams leave slot `i` in a sweep.
pub open spec fn swept_turns(s: State, i: int) -> nat
    decreases state::live_count(s.slots), state::due_entries(s),
{
    if !state::sweepable(s) {
        0
    } else if state::sweep_progress(s, state::sweep_step(s)) {
        turn(s, state::sweep_step(s), i) + swept_turns(state::sweep_step(s), i)
    } else {
        turn(s, state::sweep_step(s), i)
    }
}

/// How many streams leave slot `i` on account of the cap.
pub open spec fn capped_turns(s: State, i: int) -> nat
    decreases state::live_count(s.slots), state::stale_candidates(s),
{
    if !state::over_cap(s) {
        0
    } else if state::cap_progress(s, state::cap_step(s)) {
        turn(s, state::cap_step(s), i) + capped_turns(state::cap_step(s), i)
    } else {
        turn(s, state::cap_step(s), i)
    }
}

/// The state before the cap is applied to a packet's streams.
pub open spec fn uncapped(s: State, pkt: Packet) -> State {
    let p = state::taken_all(
        steps::opened(s, pkt),
        pkt.layers,
        pkt.layers.len() as int,
        pkt.meta,
    );
    state::with_unknown(
        state::with_opaque(p.state, p.parent, pkt.opaque_len as int),
        pkt,
        p.endpoint,
    )
}

/// How many streams leave slot `i` with one packet.
pub open spec fn packet_turns(s: State, pkt: Packet, i: int) -> nat {
    swept_turns(state::begun(s, pkt), i) + capped_turns(uncapped(s, pkt), i)
}

/// How many streams leave slot `i` with the first `n` packets.
pub open spec fn turns(s: State, packets: Seq<Packet>, n: int, i: int) -> nat
    decreases n,
{
    if n <= 0 {
        0
    } else {
        turns(s, packets, n - 1, i) + packet_turns(
            capture::after(s, packets, n - 1),
            packets[n - 1],
            i,
        )
    }
}

/// Evicting a leaf moves its slot on by one generation, and no other slot.
pub proof fn evicting_moves_on(s: State, id: StreamId, reason: CloseReason, i: int)
    requires
        tree::hierarchy(s),
        s.live(id),
        s.get(id)->0.children.len() == 0,
        0 <= i < s.slots.len(),
    ensures
        moved(
            s,
            state::evict(s, id, reason),
            i,
            if i == id.index {
                1
            } else {
                0
            },
        ),
        turn(s, state::evict(s, id, reason), i) == if i == id.index {
            1nat
        } else {
            0
        },
{
    let t = state::evict(s, id, reason);
    tree::evicting_removes_one(s, id, reason);
    let g = s.slots[id.index as int].generation;
    assert(moved_on(g, 1) == state::next_generation(moved_on(g, 0)));
    assert(t.slots[i].generation == if i == id.index {
        state::next_generation(g)
    } else {
        s.slots[i].generation
    });
    if s.live_at(i) && i != id.index {
        let x = s.at(i).id;
        assert(s.live(x));
        assert(t.live(x));
    }
}

/// A sweep moves a slot on by as many generations as streams leave it.
proof fn sweeping_moves_on(s: State, b: nat, i: int)
    requires
        tree::hierarchy(s),
        bounds::within(s, b),
        0 <= i < s.slots.len(),
    ensures
        moved(s, state::swept(s), i, swept_turns(s, i)),
    decreases state::live_count(s.slots), state::due_entries(s),
{
    if state::sweepable(s) {
        bounds::live_count_is_bounded(s.slots);
        queues::sweeping_progresses(s, b);
        let e = heap::first(s.expiry);
        let id = state::id_of(e);
        let t = State { expiry: s.expiry.remove(e), ..s };
        let u = state::sweep_step(s);
        queues::lemma_same_hierarchy(s, t);
        assert(moved(s, u, i, turn(s, u, i))) by {
            if u.slots == s.slots {
                assert(turn(s, u, i) == 0);
            } else {
                assert(t.live(id) && t.get(id)->0.children.len() == 0);
                evicting_moves_on(t, id, state::due_reason(t, t.get(id)->0), i);
                assert(s.live_at(i) == t.live_at(i));
            }
        }
        sweeping_moves_on(u, b, i);
        lemma_moved(s, u, state::swept(s), i, turn(s, u, i), swept_turns(u, i));
    }
}

/// The cap moves a slot on by as many generations as streams leave it.
proof fn capping_moves_on(s: State, b: nat, i: int)
    requires
        tree::hierarchy(s),
        bounds::within(s, b),
        0 <= i < s.slots.len(),
    ensures
        moved(s, state::capped(s), i, capped_turns(s, i)),
    decreases state::live_count(s.slots), state::stale_candidates(s),
{
    if state::over_cap(s) {
        bounds::live_count_is_bounded(s.slots);
        queues::capping_progresses(s, b);
        let e = heap::first(s.lru);
        let id = state::id_of(e);
        let t = State { lru: s.lru.remove(e), ..s };
        let u = state::cap_step(s);
        queues::lemma_same_hierarchy(s, t);
        assert(moved(s, u, i, turn(s, u, i))) by {
            if u.slots == s.slots {
                assert(turn(s, u, i) == 0);
            } else {
                assert(t.live(id) && t.get(id)->0.children.len() == 0);
                evicting_moves_on(t, id, CloseReason::LruEvicted, i);
                assert(s.live_at(i) == t.live_at(i));
            }
        }
        capping_moves_on(u, b, i);
        lemma_moved(s, u, state::capped(s), i, turn(s, u, i), capped_turns(u, i));
    }
}

/// A new stream takes an empty slot and moves none on.
proof fn creating_moves_nothing(s: State, n: Newcomer, i: int)
    requires
        tree::hierarchy(s),
        s.slots.len() < u32::MAX,
        n.parent is Some ==> s.live(n.parent->0),
    ensures
        moved(s, state::created(s, n), i, 0),
{
    let t = state::created(s, n);
    tree::creating_adds_one(s, n);
    if 0 <= i < s.slots.len() {
        assert(t.slots[i].generation == s.slots[i].generation);
        if s.live_at(i) {
            let x = s.at(i).id;
            assert(s.live(x));
            assert(t.live(x));
        }
    }
}

/// Folding a flow into a condensed node moves no slot on.
proof fn folding_moves_nothing(
    s: State,
    k: GroupKey,
    identity: Identity,
    c: Candidate,
    ts: Timestamp,
    i: int,
)
    requires
        tree::hierarchy(s),
        s.slots.len() < u32::MAX,
        k.parent is Some ==> s.live(k.parent->0),
    ensures
        moved(s, state::folded(s, k, identity, c, ts).state, i, 0),
{
    let u = state::with_node(s, k, identity, c, ts);
    let t = state::folded(s, k, identity, c, ts).state;
    assert(moved(s, u, i, 0)) by {
        if !state::has_node(s, k) {
            let n = state::node(s, k.parent, k.protocol, identity, c, ts);
            creating_moves_nothing(s, n, i);
        }
    }
    assert(moved(u, t, i, 0));
    lemma_moved(s, u, t, i, 0, 0);
}

/// Resolving a layer moves no slot on.
proof fn resolving_moves_nothing(
    s: State,
    parent: Option<StreamId>,
    key: Seq<u8>,
    rules: Rules,
    layer: LayerView,
    dir: PacketDirection,
    ts: Timestamp,
    i: int,
)
    requires
        tree::hierarchy(s),
        s.slots.len() < u32::MAX,
        parent is Some ==> s.live(parent->0),
    ensures
        moved(s, state::resolved(s, parent, key, rules, layer, dir, ts).state, i, 0),
{
    let identity = rules.identity->0;
    let n = state::flow(s, parent, key, identity, layer, dir, ts);
    let fresh = state::created(s, n);
    creating_moves_nothing(s, n, i);
    match state::anchors_of(s, rules, layer.fields) {
        None => {},
        Some(anchors) => {
            let m = anchors.len() as int;
            steps::enrolling_leaves_slots(fresh, parent, layer.protocol, anchors, m);
            let t = state::enrolled_all(fresh, parent, layer.protocol, anchors, m);
            assert(moved(fresh, t, i, 0));
            lemma_moved(s, fresh, t, i, 0, 0);
            match state::fold_at(s, parent, layer.protocol, anchors, 0) {
                Some(j) => folding_moves_nothing(
                    s,
                    state::group_key(parent, layer.protocol, anchors[j].anchor),
                    identity,
                    anchors[j],
                    ts,
                    i,
                ),
                None => {},
            }
        },
    }
}

/// Counting a packet in a layer's stream moves no slot on.
proof fn attributing_moves_nothing(
    r: Resolved,
    identity: Identity,
    layer: LayerView,
    meta: PacketMeta,
    i: int,
)
    ensures
        moved(r.state, state::attributed(r, identity, layer, meta), i, 0),
{
    let s = r.state;
    let t = state::attributed(r, identity, layer, meta);
    assert(t.slots.len() == s.slots.len());
    if 0 <= i < s.slots.len() {
        assert(t.slots[i].generation == s.slots[i].generation);
        assert(s.live_at(i) ==> t.live_at(i) && t.at(i).created_seq == s.at(i).created_seq);
    }
}

/// Taking a layer in moves no slot on.
proof fn taking_moves_nothing(p: Progress, layer: LayerView, meta: PacketMeta, b: nat, i: int)
    requires
        steps::on_course(p, b),
        layer::in_time(meta.timestamp),
        p.state.slots.len() < u32::MAX,
        b + state::layer_weight(meta) <= u64::MAX,
    ensures
        moved(p.state, state::taken(p, layer, meta).state, i, 0),
{
    let s = State { load: (p.state.load + state::layer_weight(meta)) as nat, ..p.state };
    let t = state::taken(p, layer, meta).state;
    queues::lemma_same_hierarchy(p.state, s);
    lemma_unmoved(p.state, s, i);
    match s.rules(layer.protocol) {
        None => lemma_unmoved(p.state, t, i),
        Some(rules) => match rules.identity {
            None => lemma_unmoved(p.state, t, i),
            Some(identity) => match crate::flows::key::key_of(identity, layer.fields) {
                Err(_) => lemma_unmoved(p.state, t, i),
                Ok((key, dir)) => {
                    let ts = meta.timestamp;
                    let r = state::resolved(s, p.parent, key, rules, layer, dir, ts);
                    assert(p.parent is Some ==> s.live(p.parent->0));
                    resolving_moves_nothing(s, p.parent, key, rules, layer, dir, ts, i);
                    attributing_moves_nothing(r, identity, layer, meta, i);
                    lemma_moved(s, r.state, t, i, 0, 0);
                    lemma_moved(p.state, s, t, i, 0, 0);
                },
            },
        },
    }
}

proof fn taking_all_moves_nothing(
    s: State,
    layers: Seq<LayerView>,
    n: nat,
    meta: PacketMeta,
    b: nat,
    i: int,
)
    requires
        tree::hierarchy(s),
        bounds::within(s, b),
        layer::in_time(meta.timestamp),
        s.slots.len() + n <= u32::MAX,
        b + n * state::layer_weight(meta) <= u64::MAX,
    ensures
        moved(s, state::taken_all(s, layers, n as int, meta).state, i, 0),
    decreases n,
{
    let w = state::layer_weight(meta);
    if n > 0 {
        let m = (n - 1) as nat;
        assert(n * w == m * w + w) by (nonlinear_arith)
            requires
                n == m + 1,
        ;
        assert(m * w >= 0) by (nonlinear_arith)
            requires
                w >= 0,
        ;
        taking_all_moves_nothing(s, layers, m, meta, b, i);
        steps::taking_all_keeps(s, layers, m, meta, b);
        let p = state::taken_all(s, layers, m as int, meta);
        let t = state::taken_all(s, layers, n as int, meta).state;
        taking_moves_nothing(p, layers[n - 1], meta, (b + m * w) as nat, i);
        lemma_moved(s, p.state, t, i, 0, 0);
    }
}

/// Where the slots are the same, none has moved.
proof fn lemma_unmoved(s: State, t: State, i: int)
    requires
        t.slots == s.slots,
    ensures
        moved(s, t, i, 0),
{
    if s.live_at(i) {
        assert(t.live_at(i) && t.at(i) == s.at(i));
    }
}

/// Payload that nothing took moves no slot on.
proof fn leftovers_move_nothing(s: State, innermost: Option<StreamId>, bytes: int, i: int)
    ensures
        moved(s, state::with_opaque(s, innermost, bytes), i, 0),
{
    let t = state::with_opaque(s, innermost, bytes);
    if 0 <= i < s.slots.len() {
        assert(t.slots[i].generation == s.slots[i].generation);
        assert(s.live_at(i) ==> t.live_at(i) && t.at(i).created_seq == s.at(i).created_seq);
    }
}

/// Counting a packet and sweeping move a slot on by as many generations as streams
/// leave it.
proof fn opening_moves_on(s: State, pkt: Packet, b: nat, i: int)
    requires
        tree::hierarchy(s),
        bounds::within(s, b),
        layer::in_time(pkt.meta.timestamp),
        b + pkt.meta.origlen + 1 <= u64::MAX,
        0 <= i < s.slots.len(),
    ensures
        moved(s, steps::opened(s, pkt), i, swept_turns(state::begun(s, pkt), i)),
{
    let t0 = state::begun(s, pkt);
    let u = state::swept(t0);
    let t1 = steps::opened(s, pkt);
    let k = swept_turns(t0, i);
    steps::beginning_keeps(s, pkt, b);
    lemma_unmoved(s, t0, i);
    sweeping_moves_on(t0, b + pkt.meta.origlen as nat + 1, i);
    lemma_unmoved(u, t1, i);
    lemma_moved(s, t0, u, i, 0, k);
    lemma_moved(s, u, t1, i, k, 0);
}

/// What follows the layers, but for the cap, moves no slot on.
proof fn resting_moves_nothing(p: Progress, pkt: Packet, i: int)
    ensures
        moved(
            p.state,
            state::with_unknown(
                state::with_opaque(p.state, p.parent, pkt.opaque_len as int),
                pkt,
                p.endpoint,
            ),
            i,
            0,
        ),
{
    let t3 = state::with_opaque(p.state, p.parent, pkt.opaque_len as int);
    let t4 = state::with_unknown(t3, pkt, p.endpoint);
    leftovers_move_nothing(p.state, p.parent, pkt.opaque_len as int, i);
    lemma_unmoved(t3, t4, i);
    lemma_moved(p.state, t3, t4, i, 0, 0);
}

/// The state before the cap is applied is in order.
proof fn uncapped_keeps(s: State, pkt: Packet)
    requires
        tree::hierarchy(s),
        bounds::within(s, s.load),
        state::has_room(s, pkt),
    ensures
        tree::hierarchy(uncapped(s, pkt)),
        bounds::within(uncapped(s, pkt), (s.load + state::weight(pkt)) as nat),
{
    let w = state::layer_weight(pkt.meta);
    let n = pkt.layers.len();
    assert(n * w >= 0) by (nonlinear_arith)
        requires
            w >= 0,
    ;
    let b = s.load;
    let b1 = b + pkt.meta.origlen as nat + 1;
    let b2 = (b1 + n * w) as nat;
    let b4 = (b + state::weight(pkt)) as nat;
    let t1 = steps::opened(s, pkt);
    steps::opening_keeps(s, pkt, b);
    steps::taking_all_keeps(t1, pkt.layers, n, pkt.meta, b1);
    let p = state::taken_all(t1, pkt.layers, n as int, pkt.meta);
    steps::leftovers_keep(p.state, p.parent, pkt.opaque_len as nat, b2);
    let t3 = state::with_opaque(p.state, p.parent, pkt.opaque_len as int);
    bounds::within_widens(t3, b2 + pkt.opaque_len as nat, b4);
    steps::registering_keeps(t3, pkt, p.endpoint, b, b4);
}

/// Up to the cap, a packet moves a slot on by as many generations as streams leave it
/// in the sweep.
proof fn layers_move_on(s: State, pkt: Packet, i: int)
    requires
        tree::hierarchy(s),
        bounds::within(s, s.load),
        state::has_room(s, pkt),
        0 <= i < s.slots.len(),
    ensures
        moved(s, uncapped(s, pkt), i, swept_turns(state::begun(s, pkt), i)),
{
    let w = state::layer_weight(pkt.meta);
    let n = pkt.layers.len();
    assert(n * w >= 0) by (nonlinear_arith)
        requires
            w >= 0,
    ;
    let b = s.load;
    let b1 = b + pkt.meta.origlen as nat + 1;
    let t1 = steps::opened(s, pkt);
    let k = swept_turns(state::begun(s, pkt), i);
    opening_moves_on(s, pkt, b, i);
    steps::opening_keeps(s, pkt, b);
    taking_all_moves_nothing(t1, pkt.layers, n, pkt.meta, b1, i);
    let p = state::taken_all(t1, pkt.layers, n as int, pkt.meta);
    lemma_moved(s, t1, p.state, i, k, 0);
    resting_moves_nothing(p, pkt, i);
    lemma_moved(s, p.state, uncapped(s, pkt), i, k, 0);
}

/// A packet moves a slot on by as many generations as streams leave it.
pub proof fn packets_move_on(s: State, pkt: Packet, i: int)
    requires
        tree::hierarchy(s),
        bounds::within(s, s.load),
        state::has_room(s, pkt),
        0 <= i < s.slots.len(),
    ensures
        moved(s, state::ingested(s, pkt), i, packet_turns(s, pkt, i)),
{
    let t4 = uncapped(s, pkt);
    let k = swept_turns(state::begun(s, pkt), i);
    uncapped_keeps(s, pkt);
    layers_move_on(s, pkt, i);
    assert(i < t4.slots.len());
    capping_moves_on(t4, (s.load + state::weight(pkt)) as nat, i);
    lemma_moved(s, t4, state::ingested(s, pkt), i, k, capped_turns(t4, i));
}

/// Over any capture a slot moves on by as many generations as streams leave it and,
/// where none does, keeps the stream that it has.
pub proof fn generations_move_on(s: State, packets: Seq<Packet>, n: nat, i: int)
    requires
        tree::hierarchy(s),
        bounds::within(s, s.load),
        n <= packets.len(),
        capture::fits(s, packets, n as int),
        0 <= i < s.slots.len(),
    ensures
        ({
            let t = capture::after(s, packets, n as int);
            &&& tree::hierarchy(t)
            &&& bounds::within(t, t.load)
            &&& moved(s, t, i, turns(s, packets, n as int, i))
        }),
    decreases n,
{
    if n > 0 {
        let m = (n - 1) as nat;
        assert(capture::fits(s, packets, m as int));
        generations_move_on(s, packets, m, i);
        let t = capture::after(s, packets, m as int);
        let pkt = packets[n - 1];
        assert(state::has_room(capture::after(s, packets, n - 1), packets[n - 1]));
        steps::ingesting_keeps(t, pkt);
        packets_move_on(t, pkt, i);
        lemma_moved(
            s,
            t,
            capture::after(s, packets, n as int),
            i,
            turns(s, packets, m as int, i),
            packet_turns(t, pkt, i),
        );
    }
}

/// How often slot `i` was reused if `k` streams left it: once after each of them, but
/// for the last one where nothing has taken its place.
pub open spec fn reuses(t: State, k: nat, i: int) -> int {
    if t.live_at(i) {
        k as int
    } else {
        k - 1
    }
}

/// A handle leads to its own stream or to none. It leads to its stream as long as
/// that is not evicted; once it is, it leads to none, until its slot has been reused
/// as often as there are generations.
pub proof fn handles_stay_expired(s: State, packets: Seq<Packet>, n: nat, id: StreamId)
    requires
        tree::hierarchy(s),
        bounds::within(s, s.load),
        n <= packets.len(),
        capture::fits(s, packets, n as int),
        s.live(id),
    ensures
        ({
            let t = capture::after(s, packets, n as int);
            let k = turns(s, packets, n as int, id.index as int);
            &&& t.get(id) matches Some(st) ==> st.id == id
            &&& k == 0 ==> t.live(id) && t.get(id)->0.created_seq == s.get(id)->0.created_seq
            &&& k > 0 && reuses(t, k, id.index as int) < GENERATIONS ==> t.get(id) is None
        }),
{
    let i = id.index as int;
    let t = capture::after(s, packets, n as int);
    let k = turns(s, packets, n as int, i);
    generations_move_on(s, packets, n, i);
    assert(s.live_at(i));
    if 0 < k < GENERATIONS {
        generations_differ(id.generation, k);
    }
    if t.live(id) {
        assert(t.live_at(i));
    }
}

/// A handle whose stream left before, and whose slot `j` streams have left since it
/// was given out, leads to no stream either, until the generations have come round.
pub proof fn stale_handles_stay_stale(
    s: State,
    packets: Seq<Packet>,
    n: nat,
    id: StreamId,
    j: nat,
)
    requires
        tree::hierarchy(s),
        bounds::within(s, s.load),
        n <= packets.len(),
        capture::fits(s, packets, n as int),
        id.index < s.slots.len(),
        s.slots[id.index as int].generation == moved_on(id.generation, j),
        j > 0,
    ensures
        ({
            let t = capture::after(s, packets, n as int);
            let k = j + turns(s, packets, n as int, id.index as int);
            &&& t.slots[id.index as int].generation == moved_on(id.generation, k)
            &&& reuses(t, k, id.index as int) < GENERATIONS ==> t.get(id) is None
        }),
{
    let i = id.index as int;
    let t = capture::after(s, packets, n as int);
    let k = turns(s, packets, n as int, i);
    generations_move_on(s, packets, n, i);
    lemma_moved_on(id.generation, j, k);
    if j + k < GENERATIONS {
        generations_differ(id.generation, j + k);
    }
    if t.live(id) {
        assert(t.live_at(i));
    }
}

} // verus!

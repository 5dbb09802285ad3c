//! What a stream's record says: who began it and when, what it is known by, and what
//! each packet adds to it. What was said when it began is never changed.
use vstd::prelude::*;

use crate::engine::{Registration, Rules};
use crate::flows::bounds;
use crate::flows::capture;
use crate::flows::fanout;
use crate::flows::heap;
use crate::flows::key;
use crate::flows::placing;
use crate::flows::queues;
use crate::flows::rollup;
use crate::flows::state::{
    self, AggregatorConfig, Candidate, GroupKey, Newcomer, Progress, Resolved, State,
};
use crate::flows::steps;
use crate::flows::stream::{CloseReason, Condensed, StreamId, StreamView};
use crate::flows::tree;
use crate::identity::{Identity, KeyField, PacketDirection};
use crate::layer::{self, LayerView, PacketMeta, Timestamp};
use crate::packet::Packet;
use crate::value::{Fields, ValueView};

verus! {

/// The anchor's field, on a condensed node.
pub open spec fn label(c: Option<Condensed>) -> Option<Seq<char>> {
    match c {
        Some(c) => Some(c.ephemeral_field),
        None => None,
    }
}

/// Whether two records are of one stream, as it began.
pub open spec fn same_origin(a: StreamView, b: StreamView) -> bool {
    &&& a.id == b.id
    &&& a.protocol == b.protocol
    &&& a.key == b.key
    &&& a.key_fields == b.key_fields
    &&& a.parent == b.parent
    &&& a.initiator == b.initiator
    &&& a.first_seen == b.first_seen
    &&& a.created_seq == b.created_seq
    &&& label(a.condensed) == label(b.condensed)
}

/// Whether two records differ in their children at most.
pub open spec fn untouched(a: StreamView, b: StreamView) -> bool {
    b == (StreamView { children: b.children, ..a })
}

/// Whether every stream of `t` that is older than `s` was there in `s`, and began as
/// it did there.
pub open spec fn descends(s: State, t: State) -> bool {
    &&& s.next_seq <= t.next_seq
    &&& t.protocols == s.protocols
    &&& t.config == s.config
    &&& forall|x: StreamId| #[trigger]
        t.live(x) && t.get(x)->0.created_seq < s.next_seq ==> s.live(x) && same_origin(
            s.get(x)->0,
            t.get(x)->0,
        )
}

proof fn lemma_descends(s: State, t: State, u: State)
    requires
        descends(s, t),
        descends(t, u),
    ensures
        descends(s, u),
{
    assert forall|x: StreamId| #[trigger]
        u.live(x) && u.get(x)->0.created_seq < s.next_seq implies s.live(x) && same_origin(
        s.get(x)->0,
        u.get(x)->0,
    ) by {
        assert(t.live(x));
    }
}

/// Where no stream came and none changed in how it began, all descend.
proof fn lemma_stays(s: State, t: State)
    requires
        t.next_seq == s.next_seq,
        t.protocols == s.protocols,
        t.config == s.config,
        forall|x: StreamId| #[trigger]
            t.live(x) ==> s.live(x) && same_origin(s.get(x)->0, t.get(x)->0),
    ensures
        descends(s, t),
{
}

proof fn lemma_same_slots(s: State, t: State)
    requires
        t.slots == s.slots,
        t.next_seq == s.next_seq,
        t.protocols == s.protocols,
        t.config == s.config,
    ensures
        descends(s, t),
        forall|x: StreamId| #[trigger] t.live(x) == s.live(x) && t.get(x) == s.get(x),
{
    assert forall|x: StreamId| #[trigger] t.live(x) == s.live(x) && t.get(x) == s.get(x) by {}
    lemma_stays(s, t);
}

/// A new stream's record is as it was asked for, and no other changes but for the
/// parent's children.
proof fn creating_descends(s: State, n: Newcomer, b: nat)
    requires
        tree::hierarchy(s),
        bounds::within(s, b),
        b < u64::MAX,
        s.slots.len() < u32::MAX,
        n.parent is Some ==> s.live(n.parent->0),
    ensures
        descends(s, state::created(s, n)),
        forall|x: StreamId| #[trigger]
            state::created(s, n).live(x) && x != state::next_id(s) ==> s.live(x) && untouched(
                s.get(x)->0,
                state::created(s, n).get(x)->0,
            ),
{
    let t = state::created(s, n);
    let id = state::next_id(s);
    tree::creating_adds_one(s, n);
    assert forall|x: StreamId| #[trigger] t.live(x) && x != id implies s.live(x) && untouched(
        s.get(x)->0,
        t.get(x)->0,
    ) by {
        assert(s.live(x));
    }
    assert(t.get(id)->0.created_seq == s.next_seq);
}

/// What a flow's own stream says when it begins: the packet's sender began it, at the
/// packet's time; it is known by the packet's key fields; and it has carried nothing.
pub open spec fn begins(
    st: StreamView,
    identity: Identity,
    fields: Fields,
    dir: PacketDirection,
    ts: Timestamp,
) -> bool {
    &&& st.initiator == dir
    &&& st.first_seen == ts
    &&& st.closed is None
    &&& st.opaque_bytes == 0
    &&& st.children.len() == 0
    &&& forall|name: Seq<char>| #[trigger]
        st.key_fields.contains_key(name) <==> names_it(identity.key, name)
            && fields.contains_key(name)
    &&& forall|name: Seq<char>| #[trigger]
        st.key_fields.contains_key(name) ==> st.key_fields[name] == fields[name]
}

/// Whether a field is an endpoint or a qualifier of a key.
pub open spec fn names_it(key: Seq<KeyField>, name: Seq<char>) -> bool {
    exists|j: int|
        0 <= j < key.len() && ((#[trigger] key[j]).a@ == name || (key[j].b is Some && key[j].b->0@
            == name))
}

proof fn lemma_key_fields(k: Seq<KeyField>, n: int, fields: Fields, name: Seq<char>)
    requires
        0 <= n <= k.len(),
    ensures
        state::key_fields(k, n, fields).contains_key(name) ==> state::key_fields(k, n, fields)[name]
            == fields[name],
        state::key_fields(k, n, fields).contains_key(name) <==> fields.contains_key(name)
            && names_it(k.take(n), name),
    decreases n,
{
    let all = k.take(n);
    if n > 0 {
        lemma_key_fields(k, n - 1, fields, name);
        let before = k.take(n - 1);
        let kf = k[n - 1];
        if names_it(all, name) {
            let j = choose|j: int|
                0 <= j < all.len() && ((#[trigger] all[j]).a@ == name || (all[j].b is Some
                    && all[j].b->0@ == name));
            if j < n - 1 {
                assert(before[j] == all[j]);
            }
        }
        if names_it(before, name) {
            let j = choose|j: int|
                0 <= j < before.len() && ((#[trigger] before[j]).a@ == name || (before[
                j].b is Some && before[j].b->0@ == name));
            assert(all[j] == before[j]);
        }
        assert(all[n - 1] == kf);
    }
}

/// What a group's condensed node says when it begins: it is labelled with the anchor,
/// and with nothing else.
pub open spec fn begins_as_node(st: StreamView, c: Candidate, ts: Timestamp) -> bool {
    &&& st.condensed is Some
    &&& st.condensed->0.ephemeral_field == c.field
    &&& st.key == seq![state::CONDENSED_KEY_SENTINEL] + c.anchor
    &&& st.key_fields == Map::<Seq<char>, ValueView>::empty().insert(c.field, c.value)
    &&& st.initiator == c.dir
    &&& st.first_seen == ts
    &&& st.closed is None
    &&& st.opaque_bytes == 0
    &&& st.children.len() == 0
    &&& st.state is None
}

/// What a layer was resolved to, seen from its stream: a stream that was there, a new
/// one of its own, or the condensed node of one of its anchors.
spec fn resolves(
    s: State,
    r: Resolved,
    rules: Rules,
    layer: LayerView,
    dir: PacketDirection,
    found: bool,
    ts: Timestamp,
) -> bool {
    let st = r.state.get(r.id)->0;
    let identity = rules.identity->0;
    &&& r.state.live(r.id)
    &&& forall|x: StreamId| #[trigger]
        r.state.live(x) && x != r.id ==> s.live(x) && untouched(s.get(x)->0, r.state.get(x)->0)
    &&& s.live(r.id) ==> {
        let before = s.get(r.id)->0;
        st == (StreamView { condensed: st.condensed, ..before }) && label(st.condensed) == label(
            before.condensed,
        )
    }
    &&& found || st.condensed is None ==> r.dir == dir
    &&& !found && st.condensed is Some ==> is_folded(s, r, rules, layer, ts)
    &&& !s.live(r.id) ==> {
        &&& st.stats == seq![state::no_stats(), state::no_stats()]
        &&& st.rollups == state::slots_for(s, identity)
        &&& !st.close_eligible
        &&& st.close_eligible_since is None
        &&& st.condensed is None ==> begins(st, identity, layer.fields, dir, ts) && st.state
            == match identity.lifecycle {
            Some(l) => Some(l.initial),
            None => None,
        }
    }
}

/// Whether a layer was folded into the node of one of its anchors, and counts in the
/// direction that the anchor gives.
pub open spec fn is_folded(
    s: State,
    r: Resolved,
    rules: Rules,
    layer: LayerView,
    ts: Timestamp,
) -> bool {
    let st = r.state.get(r.id)->0;
    exists|c: Candidate|
        {
            &&& state::anchors_of(s, rules, layer.fields) is Some
            &&& #[trigger] state::anchors_of(s, rules, layer.fields)->0.contains(c)
            &&& st.key == seq![state::CONDENSED_KEY_SENTINEL] + c.anchor
            &&& r.dir == c.dir
            &&& !s.live(r.id) ==> begins_as_node(st, c, ts)
        }
}

proof fn folding_resolves(
    s: State,
    parent: Option<StreamId>,
    rules: Rules,
    layer: LayerView,
    dir: PacketDirection,
    ts: Timestamp,
    j: int,
    b: nat,
)
    requires
        tree::hierarchy(s),
        placing::placed(s),
        bounds::within(s, b),
        parent is Some ==> s.live(parent->0),
        s.slots.len() < u32::MAX,
        b + 3 <= u64::MAX,
        layer::in_time(ts),
        state::anchors_of(s, rules, layer.fields) is Some,
        0 <= j < state::anchors_of(s, rules, layer.fields)->0.len(),
        s.groups.contains_key(
            state::group_key(
                parent,
                layer.protocol,
                state::anchors_of(s, rules, layer.fields)->0[j].anchor,
            ),
        ),
    ensures
        ({
            let c = state::anchors_of(s, rules, layer.fields)->0[j];
            let k = state::group_key(parent, layer.protocol, c.anchor);
            let r = state::folded(s, k, rules.identity->0, c, ts);
            &&& descends(s, r.state)
            &&& resolves(s, r, rules, layer, dir, false, ts)
            &&& r.state.get(r.id)->0.condensed is Some
        }),
{
    let anchors = state::anchors_of(s, rules, layer.fields)->0;
    let c = anchors[j];
    assert(anchors.contains(c));
    let identity = rules.identity->0;
    let k = state::group_key(parent, layer.protocol, c.anchor);
    let u = state::with_node(s, k, identity, c, ts);
    let id = u.groups[k].node->0;
    let r = state::folded(s, k, identity, c, ts);
    let t = r.state;
    placing::adding_a_node_in_place(s, k, identity, c, ts);
    assert(u.live(id) && u.get(id)->0.condensed is Some);
    assert(descends(s, u) && (forall|x: StreamId| #[trigger]
        u.live(x) && x != id ==> s.live(x) && untouched(s.get(x)->0, u.get(x)->0))) by {
        if !state::has_node(s, k) {
            let n = state::node(s, k.parent, k.protocol, identity, c, ts);
            let made = state::created(s, n);
            creating_descends(s, n, b);
            tree::creating_adds_one(s, n);
            lemma_same_slots(made, u);
            lemma_descends(s, made, u);
        } else {
            lemma_same_slots(s, u);
        }
    }
    if !state::has_node(s, k) {
        let n = state::node(s, k.parent, k.protocol, identity, c, ts);
        tree::creating_adds_one(s, n);
        assert(u.get(id) == Some(state::record(n, id, s.next_seq)));
        assert(!s.live(id));
    } else {
        assert(u == s);
    }
    assert forall|x: StreamId| #[trigger] t.live(x) implies u.live(x) && (if x == id {
        t.get(x)->0 == (StreamView { condensed: t.get(x)->0.condensed, ..u.get(x)->0 }) && label(
            t.get(x)->0.condensed,
        ) == label(u.get(x)->0.condensed)
    } else {
        t.get(x) == u.get(x)
    }) by {}
    lemma_stays(u, t);
    lemma_descends(s, u, t);
    assert(t.live(id));
    assert(is_folded(s, r, rules, layer, ts));
}

proof fn lemma_enrolled(
    s: State,
    parent: Option<StreamId>,
    protocol: Seq<char>,
    anchors: Seq<Candidate>,
    n: int,
)
    ensures
        ({
            let t = state::enrolled_all(s, parent, protocol, anchors, n);
            t == (State { groups: t.groups, ..s })
        }),
    decreases n,
{
    if n > 0 {
        lemma_enrolled(s, parent, protocol, anchors, n - 1);
    }
}

/// What a layer is resolved to.
proof fn resolving_tells(
    s: State,
    parent: Option<StreamId>,
    key: Seq<u8>,
    rules: Rules,
    layer: LayerView,
    dir: PacketDirection,
    ts: Timestamp,
    b: nat,
)
    requires
        tree::hierarchy(s),
        placing::placed(s),
        bounds::within(s, b),
        parent is Some ==> s.live(parent->0),
        s.slots.len() < u32::MAX,
        b + 3 <= u64::MAX,
        layer::in_time(ts),
    ensures
        ({
            let r = state::resolved(s, parent, key, rules, layer, dir, ts);
            &&& descends(s, r.state)
            &&& resolves(
                s,
                r,
                rules,
                layer,
                dir,
                state::lookup(s, parent, layer.protocol, key) is Some,
                ts,
            )
        }),
{
    let identity = rules.identity->0;
    let r = state::resolved(s, parent, key, rules, layer, dir, ts);
    steps::lookup_is_live(s, parent, layer.protocol, key);
    if state::lookup(s, parent, layer.protocol, key) is Some {
        lemma_same_slots(s, s);
    } else {
        let n = state::flow(s, parent, key, identity, layer, dir, ts);
        let fresh = state::created(s, n);
        let id = state::next_id(s);
        creating_descends(s, n, b);
        tree::creating_adds_one(s, n);
        assert(identity.key.take(identity.key.len() as int) =~= identity.key);
        assert forall|name: Seq<char>| #[trigger]
            fresh.get(id)->0.key_fields.contains_key(name) <==> names_it(identity.key, name)
                && layer.fields.contains_key(name) by {
            lemma_key_fields(identity.key, identity.key.len() as int, layer.fields, name);
        }
        assert forall|name: Seq<char>| #[trigger]
            fresh.get(id)->0.key_fields.contains_key(name) implies fresh.get(id)->0.key_fields[name]
            == layer.fields[name] by {
            lemma_key_fields(identity.key, identity.key.len() as int, layer.fields, name);
        }
        assert(begins(fresh.get(id)->0, identity, layer.fields, dir, ts));
        match state::anchors_of(s, rules, layer.fields) {
            None => {},
            Some(anchors) => {
                steps::fold_is_there(s, parent, layer.protocol, anchors, 0);
                match state::fold_at(s, parent, layer.protocol, anchors, 0) {
                    Some(j) => folding_resolves(s, parent, rules, layer, dir, ts, j, b),
                    None => {
                        let m = anchors.len() as int;
                        let t = state::enrolled_all(fresh, parent, layer.protocol, anchors, m);
                        lemma_enrolled(fresh, parent, layer.protocol, anchors, m);
                        lemma_same_slots(fresh, t);
                        lemma_descends(s, fresh, t);
                    },
                }
            },
        }
    }
}

/// The direction in which a layer's packet counts: that of its key or, where it was
/// folded into a condensed node, that of the node's anchor.
pub open spec fn counted_in(p: Progress, layer: LayerView, meta: PacketMeta) -> PacketDirection {
    let s = State { load: (p.state.load + state::layer_weight(meta)) as nat, ..p.state };
    let rules = s.rules(layer.protocol)->0;
    let found = key::key_of(rules.identity->0, layer.fields)->Ok_0;
    state::resolved(s, p.parent, found.0, rules, layer, found.1, meta.timestamp).dir
}

/// What a packet adds to a stream, in its direction and at its time.
pub open spec fn adds_the_packet(
    before: StreamView,
    st: StreamView,
    identity: Identity,
    fields: Fields,
    meta: PacketMeta,
    dir: PacketDirection,
) -> bool {
    let (mine, other) = if dir is AtoB {
        (0int, 1int)
    } else {
        (1int, 0int)
    };
    &&& st.last_seen == meta.timestamp
    &&& st.stats[mine].packets == before.stats[mine].packets + 1
    &&& st.stats[mine].bytes == before.stats[mine].bytes + meta.origlen
    &&& st.stats[other] == before.stats[other]
    &&& st.opaque_bytes == before.opaque_bytes
    &&& st.closed == before.closed
    &&& (identity.lifecycle is None || before.state is None) ==> st.state == before.state
    &&& identity.lifecycle is Some && before.state is Some ==> {
        let session = identity.lifecycle->0;
        let next = (session.machine)(fields, before.state->0, dir);
        &&& st.state == Some(next)
        &&& st.close_eligible <==> session.closed_states.contains(next)
        &&& st.close_eligible && !before.close_eligible ==> st.close_eligible_since == Some(
            meta.timestamp,
        )
    }
    &&& st.rollups.len() == before.rollups.len()
    &&& forall|i: int|
        0 <= i < st.rollups.len() ==> {
            let name = before.rollups[i].0;
            &&& (#[trigger] st.rollups[i]).0 == name
            &&& !fields.contains_key(name) ==> st.rollups[i].1 == before.rollups[i].1
            &&& fields.contains_key(name) ==> st.rollups[i].1 == rollup::observed(
                before.rollups[i].1,
                before.first_seen,
                meta.timestamp,
                dir,
                fields[name],
            )
        }
}

/// A stream before its first packet: as it began, with nothing carried and nothing
/// retained.
pub open spec fn blank(s: State, identity: Identity, st: StreamView) -> StreamView {
    StreamView {
        stats: seq![state::no_stats(), state::no_stats()],
        rollups: Seq::new(
            identity.rollups.len(),
            |i: int|
                (
                    identity.rollups[i].field@,
                    rollup::unobserved(
                        identity.rollups[i].kind,
                        s.config.rollup_series_default_cap,
                        s.config.rollup_series_max_cap,
                    ),
                ),
        ),
        close_eligible: false,
        close_eligible_since: None,
        state: if st.condensed is Some || identity.lifecycle is None {
            None
        } else {
            Some(identity.lifecycle->0.initial)
        },
        ..st
    }
}

/// A layer that forms a stream adds the packet to that stream and changes no other
/// but for its children. A stream that it makes for a flow says that the packet's
/// sender began it, at the packet's time, and is known by the packet's key fields; a
/// condensed node that it makes is labelled with the anchor. A stream that was there
/// keeps what it said when it began.
pub proof fn a_layer_tells_its_stream(p: Progress, layer: LayerView, meta: PacketMeta, b: nat)
    requires
        steps::on_course(p, b),
        placing::placed(p.state),
        placing::forms_stream(p.state, layer),
        layer::in_time(meta.timestamp),
        p.state.slots.len() < u32::MAX,
        b + state::layer_weight(meta) <= u64::MAX,
    ensures
        ({
            let s = p.state;
            let q = state::taken(p, layer, meta);
            let t = q.state;
            let id = q.parent->0;
            let st = t.get(id)->0;
            let rules = s.rules(layer.protocol)->0;
            let identity = rules.identity->0;
            let (key, dir) = key::key_of(identity, layer.fields)->Ok_0;
            let found = state::lookup(s, p.parent, layer.protocol, key) is Some;
            let d = counted_in(p, layer, meta);
            &&& q.parent is Some
            &&& t.live(id)
            &&& descends(s, t)
            &&& forall|x: StreamId| #[trigger]
                t.live(x) && x != id ==> s.live(x) && untouched(s.get(x)->0, t.get(x)->0)
            &&& s.live(id) ==> same_origin(s.get(id)->0, st)
            &&& adds_the_packet(
                if s.live(id) {
                    s.get(id)->0
                } else {
                    blank(s, identity, st)
                },
                st,
                identity,
                layer.fields,
                meta,
                d,
            )
            &&& found || st.condensed is None ==> d == dir
            &&& !s.live(id) && st.condensed is None ==> begins(
                st,
                identity,
                layer.fields,
                dir,
                meta.timestamp,
            )
            &&& !found && st.condensed is Some ==> exists|c: Candidate|
                {
                    &&& state::anchors_of(s, rules, layer.fields) is Some
                    &&& #[trigger] state::anchors_of(s, rules, layer.fields)->0.contains(c)
                    &&& st.key == seq![state::CONDENSED_KEY_SENTINEL] + c.anchor
                    &&& d == c.dir
                    &&& !s.live(id) ==> begins_as_node(st, c, meta.timestamp)
                }
        }),
{
    let s = State { load: (p.state.load + state::layer_weight(meta)) as nat, ..p.state };
    let q = state::taken(p, layer, meta);
    let t = q.state;
    queues::lemma_same_hierarchy(p.state, s);
    queues::lemma_same_bounds(p.state, s, b);
    placing::same_slots_in_place(p.state, s);
    lemma_same_slots(p.state, s);
    let rules = s.rules(layer.protocol)->0;
    let identity = rules.identity->0;
    let (key, dir) = key::key_of(identity, layer.fields)->Ok_0;
    let ts = meta.timestamp;
    let r = state::resolved(s, p.parent, key, rules, layer, dir, ts);
    lemma_same_lookup(p.state, s, p.parent, layer.protocol, key);
    assert(p.parent is Some ==> s.live(p.parent->0));
    resolving_tells(s, p.parent, key, rules, layer, dir, ts, b);
    steps::resolving_keeps(s, p.parent, key, rules, layer, dir, ts, b);
    attributing_adds(r, identity, layer, meta, b + 3);
    lemma_descends(p.state, s, r.state);
    lemma_descends(p.state, r.state, t);
    let id = r.id;
    let st = t.get(id)->0;
    if !s.live(id) {
        assert(blank(p.state, identity, st).rollups =~= state::slots_for(s, identity));
    }
    assert(state::anchors_of(s, rules, layer.fields) == state::anchors_of(
        p.state,
        rules,
        layer.fields,
    ));
    if r.state.get(id)->0.condensed is Some && state::lookup(s, p.parent, layer.protocol, key) is None {
        let c = choose|c: Candidate|
            {
                &&& state::anchors_of(s, rules, layer.fields) is Some
                &&& #[trigger] state::anchors_of(s, rules, layer.fields)->0.contains(c)
                &&& r.state.get(id)->0.key == seq![state::CONDENSED_KEY_SENTINEL] + c.anchor
                &&& r.dir == c.dir
                &&& !s.live(r.id) ==> begins_as_node(r.state.get(id)->0, c, ts)
            };
        assert(state::anchors_of(p.state, rules, layer.fields)->0.contains(c));
        assert(st.key == seq![state::CONDENSED_KEY_SENTINEL] + c.anchor);
    }
}

/// A flow that has a stream is resolved to it.
pub proof fn found_streams_are_live(p: Progress, layer: LayerView, meta: PacketMeta, b: nat)
    requires
        steps::on_course(p, b),
        placing::forms_stream(p.state, layer),
        state::lookup(
            p.state,
            p.parent,
            layer.protocol,
            key::key_of(p.state.rules(layer.protocol)->0.identity->0, layer.fields)->Ok_0.0,
        ) is Some,
    ensures
        ({
            let q = state::taken(p, layer, meta);
            let found = key::key_of(
                p.state.rules(layer.protocol)->0.identity->0,
                layer.fields,
            )->Ok_0.0;
            let before = p.state.get(q.parent->0)->0;
            &&& q.parent is Some
            &&& p.state.live(q.parent->0)
            &&& before.parent == p.parent
            &&& before.protocol == layer.protocol
            &&& before.key == found
        }),
{
    let s = State { load: (p.state.load + state::layer_weight(meta)) as nat, ..p.state };
    queues::lemma_same_hierarchy(p.state, s);
    let found = key::key_of(p.state.rules(layer.protocol)->0.identity->0, layer.fields)->Ok_0.0;
    lemma_same_lookup(p.state, s, p.parent, layer.protocol, found);
    steps::lookup_is_live(s, p.parent, layer.protocol, found);
}

proof fn lemma_same_lookup(
    s: State,
    t: State,
    parent: Option<StreamId>,
    protocol: Seq<char>,
    key: Seq<u8>,
)
    requires
        t.slots == s.slots,
    ensures
        state::lookup(t, parent, protocol, key) is Some <==> state::lookup(
            s,
            parent,
            protocol,
            key,
        ) is Some,
{
    assert forall|i: int| #[trigger] state::matches(s, i, parent, protocol, key) == state::matches(
        t,
        i,
        parent,
        protocol,
        key,
    ) by {}
    assert forall|i: int| #[trigger] state::oldest(s, i, parent, protocol, key) == state::oldest(
        t,
        i,
        parent,
        protocol,
        key,
    ) by {
        assert(s.at(i) == t.at(i));
        if state::oldest(s, i, parent, protocol, key) {
            assert forall|j: int| #[trigger] state::matches(t, j, parent, protocol, key) implies t.at(
                i,
            ).created_seq <= t.at(j).created_seq by {
                assert(state::matches(s, j, parent, protocol, key));
            }
        }
        if state::oldest(t, i, parent, protocol, key) {
            assert forall|j: int| #[trigger] state::matches(s, j, parent, protocol, key) implies s.at(
                i,
            ).created_seq <= s.at(j).created_seq by {
                assert(state::matches(t, j, parent, protocol, key));
            }
        }
    }
    if exists|i: int| state::oldest(s, i, parent, protocol, key) {
        let i = choose|i: int| state::oldest(s, i, parent, protocol, key);
        assert(state::oldest(t, i, parent, protocol, key));
    }
    if exists|i: int| state::oldest(t, i, parent, protocol, key) {
        let i = choose|i: int| state::oldest(t, i, parent, protocol, key);
        assert(state::oldest(s, i, parent, protocol, key));
    }
}

/// Counting a packet in a stream adds it there and nowhere else.
proof fn attributing_adds(
    r: Resolved,
    identity: Identity,
    layer: LayerView,
    meta: PacketMeta,
    b: nat,
)
    requires
        tree::hierarchy(r.state),
        bounds::within(r.state, b),
        r.state.live(r.id),
        b + meta.origlen + 1 <= u64::MAX,
    ensures
        ({
            let s = r.state;
            let t = state::attributed(r, identity, layer, meta);
            let before = s.get(r.id)->0;
            let st = t.get(r.id)->0;
            &&& descends(s, t)
            &&& t.live(r.id)
            &&& forall|x: StreamId| #[trigger]
                t.live(x) ==> s.live(x) && (x != r.id ==> t.get(x) == s.get(x))
            &&& same_origin(before, st)
            &&& st.condensed == before.condensed
            &&& st.children == before.children
            &&& adds_the_packet(before, st, identity, layer.fields, meta, r.dir)
        }),
{
    let s = r.state;
    let t = state::attributed(r, identity, layer, meta);
    let i0 = r.id.index as int;
    assert(s.live_at(i0));
    assert(bounds::stream_within(s.at(i0), b));
    assert forall|x: StreamId| #[trigger] t.live(x) implies s.live(x) && (x != r.id ==> t.get(x)
        == s.get(x)) by {
        if x.index != r.id.index {
            assert(t.get(x) == s.get(x));
        }
    }
    lemma_stays(s, t);
}

/// A leaf that leaves changes no other stream but for its parent's children.
proof fn evicting_descends(s: State, id: StreamId, reason: CloseReason)
    requires
        tree::hierarchy(s),
        s.live(id),
        s.get(id)->0.children.len() == 0,
    ensures
        descends(s, state::evict(s, id, reason)),
        forall|x: StreamId| #[trigger]
            state::evict(s, id, reason).live(x) ==> s.live(x) && untouched(
                s.get(x)->0,
                state::evict(s, id, reason).get(x)->0,
            ),
{
    let t = state::evict(s, id, reason);
    tree::evicting_removes_one(s, id, reason);
    assert forall|x: StreamId| #[trigger] t.live(x) implies s.live(x) && untouched(
        s.get(x)->0,
        t.get(x)->0,
    ) by {
        assert(s.live(x));
    }
    assert forall|x: StreamId| #[trigger] t.live(x) implies s.live(x) && same_origin(
        s.get(x)->0,
        t.get(x)->0,
    ) by {}
    lemma_stays(s, t);
}

/// Whether every stream of `t` was there in `s` with the same record, but for its
/// children.
pub open spec fn remains(s: State, t: State) -> bool {
    &&& descends(s, t)
    &&& forall|x: StreamId| #[trigger]
        t.live(x) ==> s.live(x) && untouched(s.get(x)->0, t.get(x)->0)
}

proof fn lemma_remains(s: State, t: State, u: State)
    requires
        remains(s, t),
        remains(t, u),
    ensures
        remains(s, u),
{
    lemma_descends(s, t, u);
    assert forall|x: StreamId| #[trigger] u.live(x) implies s.live(x) && untouched(
        s.get(x)->0,
        u.get(x)->0,
    ) by {
        assert(t.live(x));
    }
}

/// A sweep changes no stream that stays.
pub proof fn sweeping_changes_no_record(s: State, b: nat)
    requires
        tree::hierarchy(s),
        bounds::within(s, b),
    ensures
        remains(s, state::swept(s)),
    decreases state::live_count(s.slots), state::due_entries(s),
{
    lemma_same_slots(s, s);
    if state::sweepable(s) {
        bounds::live_count_is_bounded(s.slots);
        queues::sweeping_progresses(s, b);
        let e = heap::first(s.expiry);
        let id = state::id_of(e);
        let t = State { expiry: s.expiry.remove(e), ..s };
        let u = state::sweep_step(s);
        lemma_same_slots(s, t);
        queues::lemma_same_hierarchy(s, t);
        assert(remains(t, u)) by {
            if u.slots == t.slots {
                lemma_same_slots(t, u);
            } else {
                evicting_descends(t, id, state::due_reason(t, t.get(id)->0));
            }
        }
        lemma_remains(s, t, u);
        sweeping_changes_no_record(u, b);
        lemma_remains(s, u, state::swept(s));
    }
}

/// The cap changes no stream that stays.
pub proof fn capping_changes_no_record(s: State, b: nat)
    requires
        tree::hierarchy(s),
        bounds::within(s, b),
    ensures
        remains(s, state::capped(s)),
    decreases state::live_count(s.slots), state::stale_candidates(s),
{
    lemma_same_slots(s, s);
    if state::over_cap(s) {
        bounds::live_count_is_bounded(s.slots);
        queues::capping_progresses(s, b);
        let e = heap::first(s.lru);
        let id = state::id_of(e);
        let t = State { lru: s.lru.remove(e), ..s };
        let u = state::cap_step(s);
        lemma_same_slots(s, t);
        queues::lemma_same_hierarchy(s, t);
        assert(remains(t, u)) by {
            if u.slots == t.slots {
                lemma_same_slots(t, u);
            } else {
                evicting_descends(t, id, CloseReason::LruEvicted);
            }
        }
        lemma_remains(s, t, u);
        capping_changes_no_record(u, b);
        lemma_remains(s, u, state::capped(s));
    }
}

proof fn taking_all_descends(s: State, layers: Seq<LayerView>, n: nat, meta: PacketMeta, b: nat)
    requires
        placing::placed(s),
        tree::hierarchy(s),
        bounds::within(s, b),
        layer::in_time(meta.timestamp),
        n <= layers.len(),
        s.slots.len() + n <= u32::MAX,
        b + n * state::layer_weight(meta) <= u64::MAX,
    ensures
        descends(s, state::taken_all(s, layers, n as int, meta).state),
    decreases n,
{
    let w = state::layer_weight(meta);
    if n > 0 {
        let m = (n - 1) as nat;
        assert(n * w == m * w + w) by (nonlinear_arith)
            requires
                n == m + 1,
        ;
        assert(m * w >= 0) by (nonlinear_arith)
            requires
                w >= 0,
        ;
        taking_all_descends(s, layers, m, meta, b);
        steps::taking_all_keeps(s, layers, m, meta, b);
        placing::streams_nest_as_layers(s, layers, m, meta, b);
        let p = state::taken_all(s, layers, m as int, meta);
        let q = state::taken_all(s, layers, n as int, meta);
        let layer = layers[n - 1];
        if placing::forms_stream(p.state, layer) {
            a_layer_tells_its_stream(p, layer, meta, (b + m * w) as nat);
        } else {
            lemma_same_slots(p.state, q.state);
        }
        lemma_descends(s, p.state, q.state);
    } else {
        lemma_same_slots(s, s);
    }
}

/// A packet changes nothing of what a stream that was there said when it began.
pub proof fn packets_leave_origins(s: State, pkt: Packet)
    requires
        placing::placed(s),
        tree::hierarchy(s),
        bounds::within(s, s.load),
        state::has_room(s, pkt),
    ensures
        descends(s, state::ingested(s, pkt)),
{
    let w = state::layer_weight(pkt.meta);
    let n = pkt.layers.len();
    assert(n * w >= 0) by (nonlinear_arith)
        requires
            w >= 0,
    ;
    let b = s.load;
    let b1 = b + pkt.meta.origlen as nat + 1;
    let b2 = (b1 + n * w) as nat;
    let b4 = (b + state::weight(pkt)) as nat;
    let t0 = state::begun(s, pkt);
    let t1 = steps::opened(s, pkt);
    steps::beginning_keeps(s, pkt, b);
    lemma_same_slots(s, t0);
    sweeping_changes_no_record(t0, b1);
    lemma_same_slots(state::swept(t0), t1);
    lemma_descends(s, t0, state::swept(t0));
    lemma_descends(s, state::swept(t0), t1);
    steps::opening_keeps(s, pkt, b);
    placing::opening_in_place(s, pkt, b);
    taking_all_descends(t1, pkt.layers, n, pkt.meta, b1);
    steps::taking_all_keeps(t1, pkt.layers, n, pkt.meta, b1);
    let p = state::taken_all(t1, pkt.layers, n as int, pkt.meta);
    lemma_descends(s, t1, p.state);
    steps::leftovers_keep(p.state, p.parent, pkt.opaque_len as nat, b2);
    let t3 = state::with_opaque(p.state, p.parent, pkt.opaque_len as int);
    assert forall|x: StreamId| #[trigger] t3.live(x) implies p.state.live(x) && same_origin(
        p.state.get(x)->0,
        t3.get(x)->0,
    ) by {}
    lemma_stays(p.state, t3);
    bounds::within_widens(t3, b2 + pkt.opaque_len as nat, b4);
    steps::registering_keeps(t3, pkt, p.endpoint, b, b4);
    let t4 = state::with_unknown(t3, pkt, p.endpoint);
    lemma_same_slots(t3, t4);
    capping_changes_no_record(t4, b4);
    lemma_descends(s, p.state, t3);
    lemma_descends(s, t3, t4);
    lemma_descends(s, t4, state::ingested(s, pkt));
}

/// Over any capture a stream keeps what it said when it began: who began it and when,
/// its parent, its key and its key fields.
pub proof fn origins_are_kept(
    protocols: Seq<Registration>,
    config: AggregatorConfig,
    packets: Seq<Packet>,
    m: nat,
    n: nat,
)
    requires
        bounds::timed(config),
        m <= n <= packets.len(),
        capture::fits(state::initial(protocols, config), packets, n as int),
    ensures
        descends(
            capture::after(state::initial(protocols, config), packets, m as int),
            capture::after(state::initial(protocols, config), packets, n as int),
        ),
    decreases n,
{
    let s = state::initial(protocols, config);
    let from = capture::after(s, packets, m as int);
    if m == n {
        lemma_same_slots(from, from);
    } else {
        let k = (n - 1) as nat;
        assert(capture::fits(s, packets, k as int));
        origins_are_kept(protocols, config, packets, m, k);
        capture::every_capture_is_well_kept(protocols, config, packets, k);
        assert(state::has_room(capture::after(s, packets, n - 1), packets[n - 1]));
        packets_leave_origins(capture::after(s, packets, k as int), packets[n - 1]);
        lemma_descends(
            from,
            capture::after(s, packets, k as int),
            capture::after(s, packets, n as int),
        );
    }
}

/// Whether an anchor's flows are folded: as many of them as the threshold says have
/// streams of their own, or there is a condensed node already.
pub open spec fn is_crowded(s: State, k: GroupKey) -> bool {
    ||| fanout::crowd(s, k) >= s.config.condense_threshold
    ||| s.groups.contains_key(k) && s.groups[k].node is Some
}

/// A flow without a stream gets its own as long as fewer flows than the threshold fan
/// out from either of its sides, and is folded from then on. Where condensing is off,
/// or the protocol has nothing that varies, every flow gets its own.
pub proof fn the_threshold_decides(
    s: State,
    parent: Option<StreamId>,
    key: Seq<u8>,
    rules: Rules,
    layer: LayerView,
    dir: PacketDirection,
    ts: Timestamp,
    b: nat,
)
    requires
        placing::placed(s),
        tree::hierarchy(s),
        bounds::within(s, b),
        fanout::exact(s),
        parent is Some ==> s.live(parent->0),
        s.slots.len() < u32::MAX,
        b + 3 <= u64::MAX,
        layer::in_time(ts),
        rules.identity is Some,
        state::lookup(s, parent, layer.protocol, key) is None,
    ensures
        ({
            let r = state::resolved(s, parent, key, rules, layer, dir, ts);
            let st = r.state.get(r.id)->0;
            let sides = state::candidates(rules.identity->0, rules.condense->0, layer.fields);
            let may_fold = s.config.condense_threshold > 0 && rules.condense is Some && sides
                is Some;
            st.condensed is Some <==> may_fold && exists|j: int|
                0 <= j < sides->0.len() && is_crowded(
                    s,
                    state::group_key(parent, layer.protocol, (#[trigger] sides->0[j]).anchor),
                )
        }),
{
    let r = state::resolved(s, parent, key, rules, layer, dir, ts);
    let n = state::flow(s, parent, key, rules.identity->0, layer, dir, ts);
    tree::creating_adds_one(s, n);
    let fresh = state::created(s, n);
    assert(fresh.get(state::next_id(s))->0.condensed is None);
    if let Some(sides) = state::anchors_of(s, rules, layer.fields) {
        let m = sides.len() as int;
        assert forall|j: int| 0 <= j < m implies is_crowded(
            s,
            state::group_key(parent, layer.protocol, (#[trigger] sides[j]).anchor),
        ) == state::triggered(s, state::group_key(parent, layer.protocol, sides[j].anchor)) by {
            let k = state::group_key(parent, layer.protocol, sides[j].anchor);
            assert(fanout::tally(s, k) == fanout::crowd(s, k));
        }
        steps::fold_is_there(s, parent, layer.protocol, sides, 0);
        match state::fold_at(s, parent, layer.protocol, sides, 0) {
            Some(j) => {
                folding_resolves(s, parent, rules, layer, dir, ts, j, b);
                assert(is_crowded(
                    s,
                    state::group_key(parent, layer.protocol, sides[j].anchor),
                ));
            },
            None => {
                steps::enrolling_leaves_slots(fresh, parent, layer.protocol, sides, m);
                assert(r.state.slots == fresh.slots);
            },
        }
    }
}

} // verus!

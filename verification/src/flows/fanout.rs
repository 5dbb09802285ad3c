//! Fan-outs: a group counts the flows of its anchor that have streams of their own,
//! and there are never more of them than the threshold lets through.
use vstd::prelude::*;

use crate::engine::{self, Registration, Rules};
use crate::flows::bounds;
use crate::flows::capture;
use crate::flows::heap;
use crate::flows::key;
use crate::flows::placing;
use crate::flows::queues;
use crate::flows::state::{
    self, AggregatorConfig, Candidate, GroupKey, Newcomer, Progress, Resolved, Slot, State,
};
use crate::flows::steps;
use crate::flows::stream::{CloseReason, StreamId, StreamView};
use crate::flows::tree;
use crate::identity::{CondenseSpec, Identity, KeyField, PacketDirection};
use crate::layer::{self, LayerView, PacketMeta, Timestamp};
use crate::packet::Packet;
use crate::value::Fields;

verus! {

/// Whether a key component is one of `key`'s.
pub open spec fn is_component(key: Seq<KeyField>, kf: KeyField) -> bool {
    exists|j: int| 0 <= j < key.len() && state::same_component(#[trigger] key[j], kf)
}

/// Whether every protocol that may be condensed varies in a component of its key.
pub open spec fn varies_in_its_key(protocols: Seq<Registration>) -> bool {
    forall|p: Seq<char>|
        match #[trigger] engine::named(protocols, p, 0) {
            Some(rules) => rules.identity is Some && rules.condense is Some ==> is_component(
                rules.identity->0.key,
                rules.condense->0.ephemeral,
            ),
            None => true,
        }
}

/// The anchors of a stream.
pub open spec fn anchors(s: State, st: StreamView) -> Option<Seq<Candidate>> {
    match s.rules(st.protocol) {
        None => None,
        Some(rules) => state::anchors_of(s, rules, st.key_fields),
    }
}

/// Whether `anchor` is among the anchors.
pub open spec fn has_anchor(list: Option<Seq<Candidate>>, anchor: Seq<u8>) -> bool {
    list is Some && exists|j: int|
        0 <= j < list->0.len() && (#[trigger] list->0[j]).anchor == anchor
}

/// Whether a stream is a flow of its own at the anchor of a group.
pub open spec fn is_flow_of(s: State, st: StreamView, k: GroupKey) -> bool {
    &&& st.condensed is None
    &&& st.parent == k.parent
    &&& st.protocol == k.protocol
    &&& has_anchor(anchors(s, st), k.anchor)
}

/// One for a slot with a flow of the group, else nothing.
pub open spec fn share(s: State, k: GroupKey) -> spec_fn(Slot) -> int {
    |slot: Slot|
        if slot.stream is Some && is_flow_of(s, slot.stream->0, k) {
            1
        } else {
            0
        }
}

/// The live flows of a group that have streams of their own.
pub open spec fn crowd(s: State, k: GroupKey) -> int {
    state::total(s.slots, share(s, k))
}

/// The flows that a group counts.
pub open spec fn tally(s: State, k: GroupKey) -> int {
    if s.groups.contains_key(k) {
        s.groups[k].expanded as int
    } else {
        0
    }
}

/// No group counts more flows than the threshold lets through.
pub open spec fn moderate(s: State) -> bool {
    s.config.condense_threshold > 0 ==> forall|k: GroupKey| #[trigger]
        tally(s, k) <= s.config.condense_threshold
}

/// Every group counts the live flows of its anchor.
pub open spec fn exact(s: State) -> bool {
    s.config.condense_threshold > 0 ==> forall|k: GroupKey| #[trigger] tally(s, k) == crowd(s, k)
}

// ---------------------------------------------------------------------------
// A stream keeps what its anchors are made of

proof fn lemma_key_fields(key: Seq<KeyField>, n: int, fields: Fields, name: Seq<char>)
    requires
        0 <= n <= key.len(),
    ensures
        state::key_fields(key, n, fields).contains_key(name) ==> fields.contains_key(name)
            && state::key_fields(key, n, fields)[name] == fields[name],
        forall|j: int|
            0 <= j < n && fields.contains_key(name) && ((#[trigger] key[j]).a@ == name || (
            key[j].b is Some && key[j].b->0@ == name)) ==> state::key_fields(
                key,
                n,
                fields,
            ).contains_key(name),
    decreases n,
{
    if n > 0 {
        lemma_key_fields(key, n - 1, fields, name);
    }
}

proof fn lemma_same_common(key: Seq<KeyField>, n: int, eph: KeyField, fields: Fields)
    requires
        0 <= n <= key.len(),
    ensures
        state::common(key, n, eph, state::key_fields(key, key.len() as int, fields))
            == state::common(key, n, eph, fields),
    decreases n,
{
    if n > 0 {
        lemma_same_common(key, n - 1, eph, fields);
        let kf = key[n - 1];
        lemma_key_fields(key, key.len() as int, fields, kf.a@);
        if kf.b is Some {
            lemma_key_fields(key, key.len() as int, fields, kf.b->0@);
        }
    }
}

/// The anchors of a flow can be told from the key fields that its stream keeps.
pub proof fn anchors_are_kept(identity: Identity, spec_: CondenseSpec, fields: Fields)
    requires
        is_component(identity.key, spec_.ephemeral),
    ensures
        state::candidates(
            identity,
            spec_,
            state::key_fields(identity.key, identity.key.len() as int, fields),
        ) == state::candidates(identity, spec_, fields),
{
    let n = identity.key.len() as int;
    let eph = spec_.ephemeral;
    let j = choose|j: int|
        0 <= j < identity.key.len() && state::same_component(#[trigger] identity.key[j], eph);
    lemma_same_common(identity.key, n, eph, fields);
    lemma_key_fields(identity.key, n, fields, eph.a@);
    assert(identity.key[j].a@ == eph.a@);
    if eph.b is Some {
        lemma_key_fields(identity.key, n, fields, eph.b->0@);
        assert(identity.key[j].b->0@ == eph.b->0@);
    }
}

/// A flow's anchors differ.
proof fn lemma_anchors_differ(identity: Identity, spec_: CondenseSpec, fields: Fields)
    ensures
        state::candidates(identity, spec_, fields) matches Some(list) ==> list.len() <= 2 && forall|
            i: int,
            j: int,
        |
            0 <= i < j < list.len() ==> (#[trigger] list[i]).anchor != (#[trigger] list[j]).anchor,
{
    let eph = spec_.ephemeral;
    if state::candidates(identity, spec_, fields) is Some {
        let list = state::candidates(identity, spec_, fields)->0;
        let prefix = state::common(identity.key, identity.key.len() as int, eph, fields)->0;
        let ea = key::encoding(fields[eph.a@]);
        let eb = key::encoding(fields[eph.b->0@]);
        if list.len() == 2 {
            assert(ea != eb);
            if prefix + ea == prefix + eb {
                let n = prefix.len() as int;
                assert((prefix + ea).len() == (prefix + eb).len());
                assert(ea =~= (prefix + ea).subrange(n, n + ea.len()));
                assert(eb =~= (prefix + eb).subrange(n, n + eb.len()));
            }
        }
    }
}

/// The smaller of two encodings first, whichever is named first.
proof fn lemma_sorted_pair(prefix: Seq<u8>, x: Seq<u8>, y: Seq<u8>)
    ensures
        (if key::lex_le(x, y) {
            prefix + x + y
        } else {
            prefix + y + x
        }) == (if key::lex_le(y, x) {
            prefix + y + x
        } else {
            prefix + x + y
        }),
{
    key::lex_le_is_a_total_order(x, y);
}

proof fn lemma_exchanged_common(k: Seq<KeyField>, n: int, eph: KeyField, f: Fields, g: Fields)
    requires
        0 <= n <= k.len(),
        key::exchanged(k, f, g),
        state::common(k, n, eph, f) is Some,
    ensures
        state::common(k, n, eph, g) == state::common(k, n, eph, f),
    decreases n,
{
    if n > 0 {
        let kf = k[n - 1];
        assert(state::common(k, n - 1, eph, f) is Some);
        lemma_exchanged_common(k, n - 1, eph, f, g);
        if kf.b is Some && !state::same_component(kf, eph) {
            let prefix = state::common(k, n - 1, eph, f)->0;
            lemma_sorted_pair(prefix, key::encoding(f[kf.a@]), key::encoding(f[kf.b->0@]));
        }
    }
}

/// A flow has the same anchors whichever of its sides sends: the two change places,
/// and so does the direction in which the packet is counted.
pub proof fn replies_share_the_anchors(
    identity: Identity,
    spec_: CondenseSpec,
    f: Fields,
    g: Fields,
)
    requires
        is_component(identity.key, spec_.ephemeral),
        key::exchanged(identity.key, f, g),
        state::candidates(identity, spec_, f) is Some,
    ensures
        ({
            let a = state::candidates(identity, spec_, f)->0;
            let b = state::candidates(identity, spec_, g)->0;
            &&& state::candidates(identity, spec_, g) is Some
            &&& a.len() == b.len()
            &&& forall|i: int|
                #![trigger a[i]]
                0 <= i < a.len() ==> {
                    let j = a.len() - 1 - i;
                    &&& b[j].anchor == a[i].anchor
                    &&& b[j].varying == a[i].varying
                    &&& a.len() == 2 ==> b[j].dir == a[i].dir.flipped()
                }
        }),
{
    let n = identity.key.len() as int;
    let eph = spec_.ephemeral;
    let j = choose|j: int|
        0 <= j < identity.key.len() && state::same_component(#[trigger] identity.key[j], eph);
    lemma_exchanged_common(identity.key, n, eph, f, g);
    assert(identity.key[j].a@ == eph.a@ && identity.key[j].b->0@ == eph.b->0@);
}

// ---------------------------------------------------------------------------
// Nodes and flows are told apart

/// Whether bytes do not start like a condensed node's key.
spec fn starts_otherwise(b: Seq<u8>) -> bool {
    b.len() == 0 || b[0] != state::CONDENSED_KEY_SENTINEL
}

proof fn lemma_sides_start_otherwise(k: Seq<KeyField>, n: int, fields: Fields)
    requires
        0 <= n <= k.len(),
    ensures
        key::sides(k, n, fields) matches Ok(s) ==> starts_otherwise(s.shared) && starts_otherwise(
            s.a,
        ) && starts_otherwise(s.b),
    decreases n,
{
    if n > 0 {
        lemma_sides_start_otherwise(k, n - 1, fields);
        let kf = k[n - 1];
        key::encoding_starts_with_the_tag(fields[kf.a@]);
        if kf.b is Some {
            key::encoding_starts_with_the_tag(fields[kf.b->0@]);
        }
    }
}

/// No flow has the key of a condensed node, so that no packet finds a condensed
/// node by its flow's key.
pub proof fn no_flow_has_a_nodes_key(identity: Identity, fields: Fields, anchor: Seq<u8>)
    requires
        identity.policy is EndpointSort,
    ensures
        key::key_of(identity, fields) matches Ok(r) ==> r.0 != seq![state::CONDENSED_KEY_SENTINEL]
            + anchor,
{
    let n = identity.key.len() as int;
    lemma_sides_start_otherwise(identity.key, n, fields);
    if key::key_of(identity, fields) is Ok {
        let s = key::sides(identity.key, n, fields)->Ok_0;
        let r = key::key_of(identity, fields)->Ok_0.0;
        assert(starts_otherwise(s.shared + s.a));
        assert(starts_otherwise(s.shared + s.b));
        assert(starts_otherwise(s.shared + s.a + s.b));
        assert(starts_otherwise(s.shared + s.b + s.a));
        assert((seq![state::CONDENSED_KEY_SENTINEL] + anchor)[0] == state::CONDENSED_KEY_SENTINEL);
    }
}

// ---------------------------------------------------------------------------
// Counting

proof fn lemma_same_total(
    a: Seq<Slot>,
    b: Seq<Slot>,
    f: spec_fn(Slot) -> int,
    g: spec_fn(Slot) -> int,
)
    requires
        a.len() == b.len(),
        forall|i: int| 0 <= i < a.len() ==> f(#[trigger] a[i]) == g(b[i]),
    ensures
        state::total(a, f) == state::total(b, g),
    decreases a.len(),
{
    if a.len() > 0 {
        let m = a.len() - 1;
        assert forall|i: int| 0 <= i < m implies f(#[trigger] a.drop_last()[i]) == g(
            b.drop_last()[i],
        ) by {
            assert(a.drop_last()[i] == a[i]);
        }
        lemma_same_total(a.drop_last(), b.drop_last(), f, g);
        assert(f(a[m]) == g(b[m]));
    }
}

/// Whether a stream is the same flow as before.
spec fn same_flow(a: StreamView, b: StreamView) -> bool {
    &&& placing::same_conversation(a, b)
    &&& a.key_fields == b.key_fields
}

/// The crowd is a matter of the streams' identities.
proof fn lemma_same_crowd(s: State, t: State, k: GroupKey)
    requires
        t.config == s.config,
        t.protocols == s.protocols,
        t.slots.len() == s.slots.len(),
        forall|i: int| #[trigger] t.live_at(i) <==> s.live_at(i),
        forall|i: int| #[trigger] s.live_at(i) ==> same_flow(s.at(i), t.at(i)),
    ensures
        crowd(t, k) == crowd(s, k),
{
    let f = share(s, k);
    let g = share(t, k);
    assert forall|i: int| 0 <= i < s.slots.len() implies f(#[trigger] s.slots[i]) == g(
        t.slots[i],
    ) by {
        assert(t.live_at(i) <==> s.live_at(i));
        if s.live_at(i) {
            assert(same_flow(s.at(i), t.at(i)));
            assert(anchors(s, s.at(i)) == anchors(t, t.at(i)));
        }
    }
    lemma_same_total(s.slots, t.slots, f, g);
}

/// A new stream makes a group's crowd larger by one if it is a flow of the group.
proof fn lemma_created_crowd(s: State, n: Newcomer, k: GroupKey)
    requires
        tree::hierarchy(s),
        s.slots.len() < u32::MAX,
        n.parent is Some ==> s.live(n.parent->0),
    ensures
        ({
            let t = state::created(s, n);
            let st = state::record(n, state::next_id(s), s.next_seq);
            crowd(t, k) == crowd(s, k) + if is_flow_of(s, st, k) {
                1int
            } else {
                0
            }
        }),
{
    let t = state::created(s, n);
    let id = state::next_id(s);
    let st = state::record(n, id, s.next_seq);
    let i0 = id.index as int;
    tree::creating_adds_one(s, n);
    let f = share(s, k);
    let g = share(t, k);
    assert(t.config == s.config && t.protocols == s.protocols);
    assert(t.live(id) && t.at(i0) == st);
    assert(anchors(s, st) == anchors(t, st));
    assert forall|i: int| 0 <= i < s.slots.len() && i != i0 implies f(#[trigger] s.slots[i]) == g(
        t.slots[i],
    ) by {
        assert(t.live_at(i) <==> s.live_at(i));
        if s.live_at(i) {
            let x = s.at(i).id;
            assert(s.live(x));
            assert(t.get(x) == Some(t.at(i)));
            assert(same_flow(s.at(i), t.at(i)));
            assert(anchors(s, s.at(i)) == anchors(t, t.at(i)));
        }
    }
    assert(!s.live_at(i0));
    if i0 < s.slots.len() {
        let u = s.slots.update(i0, t.slots[i0]);
        bounds::total_after_update(s.slots, i0, t.slots[i0], f);
        assert(t.slots.len() == s.slots.len());
        assert forall|i: int| 0 <= i < u.len() implies f(#[trigger] u[i]) == g(t.slots[i]) by {
            if i != i0 {
                assert(f(s.slots[i]) == g(t.slots[i]));
            }
        }
        lemma_same_total(u, t.slots, f, g);
    } else {
        let u = s.slots.push(t.slots[i0]);
        bounds::total_after_push(s.slots, t.slots[i0], f);
        assert(t.slots.len() == s.slots.len() + 1);
        assert forall|i: int| 0 <= i < u.len() implies f(#[trigger] u[i]) == g(t.slots[i]) by {
            if i != i0 {
                assert(f(s.slots[i]) == g(t.slots[i]));
            }
        }
        lemma_same_total(u, t.slots, f, g);
    }
}

/// Enrolling adds one to the tally of every listed anchor, and to no other.
proof fn lemma_enrolled_tally(
    s: State,
    parent: Option<StreamId>,
    protocol: Seq<char>,
    list: Seq<Candidate>,
    n: int,
    k: GroupKey,
)
    requires
        0 <= n <= list.len(),
        forall|i: int, j: int|
            0 <= i < j < list.len() ==> (#[trigger] list[i]).anchor != (#[trigger] list[j]).anchor,
        forall|i: int|
            0 <= i < list.len() ==> tally(
                s,
                state::group_key(parent, protocol, (#[trigger] list[i]).anchor),
            ) < u64::MAX,
    ensures
        ({
            let t = state::enrolled_all(s, parent, protocol, list, n);
            &&& t == (State { groups: t.groups, ..s })
            &&& tally(t, k) == tally(s, k) + if k.parent == parent && k.protocol == protocol
                && exists|j: int| 0 <= j < n && (#[trigger] list[j]).anchor == k.anchor {
                1int
            } else {
                0
            }
        }),
    decreases n,
{
    if n > 0 {
        let u = state::enrolled_all(s, parent, protocol, list, n - 1);
        let c = list[n - 1];
        let g = state::group_key(parent, protocol, c.anchor);
        lemma_enrolled_tally(s, parent, protocol, list, n - 1, k);
        lemma_enrolled_tally(s, parent, protocol, list, n - 1, g);
        assert(tally(s, g) < u64::MAX);
        assert forall|j: int| 0 <= j < n - 1 implies (#[trigger] list[j]).anchor != c.anchor by {}
        assert(tally(u, g) == tally(s, g));
        if k == g {
            assert(list[n - 1].anchor == k.anchor);
        } else {
            assert(k.parent == parent && k.protocol == protocol ==> k.anchor != c.anchor);
        }
    }
}

/// A fold changes no tally and no crowd.
proof fn lemma_folded(
    s: State,
    g: GroupKey,
    identity: Identity,
    c: Candidate,
    ts: Timestamp,
    b: nat,
    k: GroupKey,
)
    requires
        tree::hierarchy(s),
        bounds::within(s, b),
        s.groups.contains_key(g),
        g.parent is Some ==> s.live(g.parent->0),
        s.slots.len() < u32::MAX,
        b + 2 <= u64::MAX,
        layer::in_time(ts),
    ensures
        tally(state::folded(s, g, identity, c, ts).state, k) == tally(s, k),
        crowd(state::folded(s, g, identity, c, ts).state, k) == crowd(s, k),
{
    let u = state::with_node(s, g, identity, c, ts);
    let id = u.groups[g].node->0;
    let t = state::with_member(u, g, id, c);
    steps::adding_a_node_keeps(s, g, identity, c, ts, b);
    steps::meeting_a_flow_keeps(u, g, id, c, b + 1);
    assert(tally(u, k) == tally(s, k)) by {
        assert(state::created(
            s,
            state::node(s, g.parent, g.protocol, identity, c, ts),
        ).groups == s.groups);
    }
    assert(tally(t, k) == tally(u, k));
    assert(crowd(u, k) == crowd(s, k)) by {
        if !state::has_node(s, g) {
            let n = state::node(s, g.parent, g.protocol, identity, c, ts);
            let made = state::created(s, n);
            lemma_created_crowd(s, n, k);
            assert forall|i: int| #[trigger] made.live_at(i) <==> u.live_at(i) by {}
            lemma_same_crowd(made, u, k);
        }
    }
    assert forall|i: int| #[trigger] u.live_at(i) implies same_flow(u.at(i), t.at(i)) by {}
    lemma_same_crowd(u, t, k);
}

/// The layer's stream is found or made: the groups' tallies change as their crowds
/// do.
proof fn resolving_counts(
    s: State,
    parent: Option<StreamId>,
    key: Seq<u8>,
    rules: Rules,
    layer: LayerView,
    dir: PacketDirection,
    ts: Timestamp,
    b: nat,
    k: GroupKey,
)
    requires
        tree::hierarchy(s),
        bounds::within(s, b),
        moderate(s),
        s.config.condense_threshold > 0,
        s.rules(layer.protocol) == Some(rules),
        rules.identity is Some,
        parent is Some ==> s.live(parent->0),
        s.slots.len() < u32::MAX,
        b + 3 <= u64::MAX,
        layer::in_time(ts),
    ensures
        ({
            let r = state::resolved(s, parent, key, rules, layer, dir, ts);
            &&& tally(r.state, k) <= s.config.condense_threshold
            &&& varies_in_its_key(s.protocols) ==> tally(r.state, k) - tally(s, k) == crowd(
                r.state,
                k,
            ) - crowd(s, k)
        }),
{
    let identity = rules.identity->0;
    let r = state::resolved(s, parent, key, rules, layer, dir, ts);
    assert(tally(s, k) <= s.config.condense_threshold);
    if state::lookup(s, parent, layer.protocol, key) is None {
        let n = state::flow(s, parent, key, identity, layer, dir, ts);
        let fresh = state::created(s, n);
        let st = state::record(n, state::next_id(s), s.next_seq);
        lemma_created_crowd(s, n, k);
        assert(tally(fresh, k) == tally(s, k));
        assert(varies_in_its_key(s.protocols) ==> anchors(s, st) == state::anchors_of(
            s,
            rules,
            layer.fields,
        )) by {
            if varies_in_its_key(s.protocols) && rules.condense is Some {
                assert(engine::named(s.protocols, layer.protocol, 0) == Some(rules));
                anchors_are_kept(identity, rules.condense->0, layer.fields);
            }
        }
        match state::anchors_of(s, rules, layer.fields) {
            None => {},
            Some(list) => {
                steps::fold_is_there(s, parent, layer.protocol, list, 0);
                lemma_anchors_differ(identity, rules.condense->0, layer.fields);
                match state::fold_at(s, parent, layer.protocol, list, 0) {
                    Some(i) => {
                        let g = state::group_key(parent, layer.protocol, list[i].anchor);
                        lemma_folded(s, g, identity, list[i], ts, b, k);
                    },
                    None => {
                        assert forall|i: int| 0 <= i < list.len() implies tally(
                            fresh,
                            state::group_key(parent, layer.protocol, (#[trigger] list[i]).anchor),
                        ) < s.config.condense_threshold by {
                            let g = state::group_key(parent, layer.protocol, list[i].anchor);
                            assert(!state::triggered(s, g));
                            assert(fresh.groups == s.groups);
                        }
                        lemma_enrolled_tally(
                            fresh,
                            parent,
                            layer.protocol,
                            list,
                            list.len() as int,
                            k,
                        );
                        if exists|j: int|
                            0 <= j < list.len() && (#[trigger] list[j]).anchor == k.anchor {
                            let j = choose|j: int|
                                0 <= j < list.len() && (#[trigger] list[j]).anchor == k.anchor;
                            if k.parent == parent && k.protocol == layer.protocol {
                                assert(k == state::group_key(
                                    parent,
                                    layer.protocol,
                                    list[j].anchor,
                                ));
                            }
                        }
                        assert forall|i: int| #[trigger] fresh.live_at(i) <==> r.state.live_at(
                            i,
                        ) by {}
                        lemma_same_crowd(fresh, r.state, k);
                    },
                }
            },
        }
    }
}

// ---------------------------------------------------------------------------
// A packet

/// No group counts too many flows and, where no stream ever leaves, every group
/// counts its flows exactly.
pub open spec fn in_step(s: State) -> bool {
    &&& moderate(s)
    &&& s.config.eviction is Never && varies_in_its_key(s.protocols) ==> exact(s)
}

/// Tallies and crowds stay as they are as long as no stream comes or goes.
proof fn lemma_in_step(s: State, t: State)
    requires
        in_step(s),
        t.config == s.config,
        t.protocols == s.protocols,
        t.groups == s.groups,
        t.slots.len() == s.slots.len(),
        forall|i: int| #[trigger] t.live_at(i) <==> s.live_at(i),
        forall|i: int| #[trigger] s.live_at(i) ==> same_flow(s.at(i), t.at(i)),
    ensures
        in_step(t),
{
    if s.config.condense_threshold > 0 {
        assert forall|k: GroupKey| #[trigger] tally(t, k) <= t.config.condense_threshold by {
            assert(tally(s, k) <= s.config.condense_threshold);
        }
        if exact(s) {
            assert forall|k: GroupKey| #[trigger] tally(t, k) == crowd(t, k) by {
                assert(tally(s, k) == crowd(s, k));
                lemma_same_crowd(s, t, k);
            }
        }
    }
}

proof fn lemma_same_slots(s: State, t: State)
    requires
        in_step(s),
        t.config == s.config,
        t.protocols == s.protocols,
        t.groups == s.groups,
        t.slots == s.slots,
    ensures
        in_step(t),
{
    assert forall|i: int| #[trigger] t.live_at(i) <==> s.live_at(i) by {}
    lemma_in_step(s, t);
}

proof fn resolving_stays_in_step(
    s: State,
    parent: Option<StreamId>,
    key: Seq<u8>,
    rules: Rules,
    layer: LayerView,
    dir: PacketDirection,
    ts: Timestamp,
    b: nat,
)
    requires
        in_step(s),
        tree::hierarchy(s),
        bounds::within(s, b),
        s.rules(layer.protocol) == Some(rules),
        rules.identity is Some,
        parent is Some ==> s.live(parent->0),
        s.slots.len() < u32::MAX,
        b + 3 <= u64::MAX,
        layer::in_time(ts),
    ensures
        in_step(state::resolved(s, parent, key, rules, layer, dir, ts).state),
{
    let t = state::resolved(s, parent, key, rules, layer, dir, ts).state;
    steps::resolving_keeps(s, parent, key, rules, layer, dir, ts, b);
    if s.config.condense_threshold > 0 {
        assert forall|k: GroupKey| #[trigger] tally(t, k) <= s.config.condense_threshold by {
            resolving_counts(s, parent, key, rules, layer, dir, ts, b, k);
        }
        if s.config.eviction is Never && varies_in_its_key(s.protocols) {
            assert forall|k: GroupKey| #[trigger] tally(t, k) == crowd(t, k) by {
                assert(tally(s, k) == crowd(s, k));
                resolving_counts(s, parent, key, rules, layer, dir, ts, b, k);
            }
        }
    }
}

proof fn attributing_stays_in_step(
    r: Resolved,
    identity: Identity,
    layer: LayerView,
    meta: PacketMeta,
    b: nat,
)
    requires
        in_step(r.state),
        tree::hierarchy(r.state),
        bounds::within(r.state, b),
        r.state.live(r.id),
        layer::in_time(meta.timestamp),
        b + meta.origlen + 1 <= u64::MAX,
    ensures
        in_step(state::attributed(r, identity, layer, meta)),
{
    let t = state::attributed(r, identity, layer, meta);
    steps::attributing_keeps(r, identity, layer, meta, b);
    assert forall|i: int| #[trigger] r.state.live_at(i) implies same_flow(
        r.state.at(i),
        t.at(i),
    ) by {}
    lemma_in_step(r.state, t);
}

proof fn taking_stays_in_step(p: Progress, layer: LayerView, meta: PacketMeta, b: nat)
    requires
        in_step(p.state),
        steps::on_course(p, b),
        layer::in_time(meta.timestamp),
        p.state.slots.len() < u32::MAX,
        b + state::layer_weight(meta) <= u64::MAX,
    ensures
        in_step(state::taken(p, layer, meta).state),
{
    let s = State { load: (p.state.load + state::layer_weight(meta)) as nat, ..p.state };
    let q = state::taken(p, layer, meta);
    queues::lemma_same_hierarchy(p.state, s);
    queues::lemma_same_bounds(p.state, s, b);
    lemma_same_slots(p.state, s);
    match s.rules(layer.protocol) {
        None => {},
        Some(rules) => match rules.identity {
            None => {},
            Some(identity) => match key::key_of(identity, layer.fields) {
                Err(_) => {
                    lemma_same_slots(s, q.state);
                },
                Ok((key, dir)) => {
                    let ts = meta.timestamp;
                    let r = state::resolved(s, p.parent, key, rules, layer, dir, ts);
                    steps::resolving_keeps(s, p.parent, key, rules, layer, dir, ts, b);
                    resolving_stays_in_step(s, p.parent, key, rules, layer, dir, ts, b);
                    attributing_stays_in_step(r, identity, layer, meta, b + 3);
                },
            },
        },
    }
}

proof fn taking_all_stays_in_step(s: State, layers: Seq<LayerView>, n: nat, meta: PacketMeta, b: nat)
    requires
        in_step(s),
        tree::hierarchy(s),
        bounds::within(s, b),
        layer::in_time(meta.timestamp),
        n <= layers.len(),
        s.slots.len() + n <= u32::MAX,
        b + n * state::layer_weight(meta) <= u64::MAX,
    ensures
        in_step(state::taken_all(s, layers, n as int, meta).state),
    decreases n,
{
    let w = state::layer_weight(meta);
    if n > 0 {
        let m = (n - 1) as nat;
        assert(n * w == m * w + w) by (nonlinear_arith)
            requires
                n == m + 1,
        ;
        assert(m * w >= 0) by (nonlinear_arith)
            requires
                w >= 0,
        ;
        taking_all_stays_in_step(s, layers, m, meta, b);
        steps::taking_all_keeps(s, layers, m, meta, b);
        taking_stays_in_step(
            state::taken_all(s, layers, m as int, meta),
            layers[n - 1],
            meta,
            (b + m * w) as nat,
        );
    }
}

// ---------------------------------------------------------------------------
// Eviction

/// Striking flows makes no tally larger.
proof fn lemma_struck_less(s: State, st: StreamView, k: GroupKey)
    ensures
        tally(State { groups: state::groups_without(s, st), ..s }, k) <= tally(s, k),
{
    if s.config.condense_threshold > 0 && st.condensed is None {
        match anchors(s, st) {
            Some(list) => lemma_struck_all_less(s, st, list, list.len() as int, k),
            None => {},
        }
    }
}

proof fn lemma_struck_all_less(s: State, st: StreamView, list: Seq<Candidate>, n: int, k: GroupKey)
    ensures
        tally(
            State {
                groups: state::struck_all(s.groups, st.parent, st.protocol, list, n),
                ..s
            },
            k,
        ) <= tally(s, k),
    decreases n,
{
    if n > 0 {
        lemma_struck_all_less(s, st, list, n - 1, k);
    }
}

/// Striking takes one from the tally of every listed anchor, and from no other.
proof fn lemma_struck_tally(s: State, st: StreamView, list: Seq<Candidate>, n: int, k: GroupKey)
    requires
        0 <= n <= list.len(),
        forall|i: int, j: int|
            0 <= i < j < list.len() ==> (#[trigger] list[i]).anchor != (#[trigger] list[j]).anchor,
        forall|i: int|
            0 <= i < list.len() ==> tally(
                s,
                state::group_key(st.parent, st.protocol, (#[trigger] list[i]).anchor),
            ) > 0,
    ensures
        tally(
            State {
                groups: state::struck_all(s.groups, st.parent, st.protocol, list, n),
                ..s
            },
            k,
        ) == tally(s, k) - if k.parent == st.parent && k.protocol == st.protocol && exists|j: int|
            0 <= j < n && (#[trigger] list[j]).anchor == k.anchor {
            1int
        } else {
            0
        },
    decreases n,
{
    if n > 0 {
        let c = list[n - 1];
        let g = state::group_key(st.parent, st.protocol, c.anchor);
        lemma_struck_tally(s, st, list, n - 1, k);
        lemma_struck_tally(s, st, list, n - 1, g);
        assert(tally(s, g) > 0);
        assert forall|j: int| 0 <= j < n - 1 implies (#[trigger] list[j]).anchor != c.anchor by {}
        if k == g {
            assert(list[n - 1].anchor == k.anchor);
        } else {
            assert(k.parent == st.parent && k.protocol == st.protocol ==> k.anchor != c.anchor);
        }
    }
}

/// A flow that leaves makes its group's crowd smaller by one.
proof fn lemma_evicted_crowd(s: State, id: StreamId, reason: CloseReason, k: GroupKey)
    requires
        tree::hierarchy(s),
        s.live(id),
        s.get(id)->0.children.len() == 0,
    ensures
        crowd(state::evict(s, id, reason), k) == crowd(s, k) - if is_flow_of(s, s.get(id)->0, k) {
            1int
        } else {
            0
        },
        is_flow_of(s, s.get(id)->0, k) ==> crowd(s, k) > 0,
{
    let t = state::evict(s, id, reason);
    let o = s.get(id)->0;
    let i0 = id.index as int;
    tree::evicting_removes_one(s, id, reason);
    let f = share(s, k);
    let g = share(t, k);
    let u = s.slots.update(i0, t.slots[i0]);
    assert(t.config == s.config && t.protocols == s.protocols);
    bounds::total_after_update(s.slots, i0, t.slots[i0], f);
    assert(!t.live_at(i0));
    assert forall|i: int| 0 <= i < u.len() implies f(#[trigger] u[i]) == g(t.slots[i]) by {
        assert(t.live_at(i) <==> s.live_at(i) && i != id.index);
        if i != i0 && s.live_at(i) {
            let x = s.at(i).id;
            assert(s.live(x));
            assert(t.get(x) == Some(t.at(i)));
            assert(same_flow(s.at(i), t.at(i)));
            assert(anchors(s, s.at(i)) == anchors(t, t.at(i)));
        }
    }
    lemma_same_total(u, t.slots, f, g);
    assert forall|i: int| 0 <= i < s.slots.len() implies f(#[trigger] s.slots[i]) >= 0 by {}
    bounds::total_covers(s.slots, i0, f);
}

/// A flow that leaves is struck from its anchors' groups, so that every group goes
/// on counting the flows that are there.
pub proof fn leaving_flows_are_struck(s: State, id: StreamId, reason: CloseReason)
    requires
        exact(s),
        tree::hierarchy(s),
        s.live(id),
        s.get(id)->0.children.len() == 0,
        s.get(id)->0.condensed is None,
    ensures
        exact(state::evict(s, id, reason)),
{
    let t = state::evict(s, id, reason);
    let o = s.get(id)->0;
    if s.config.condense_threshold > 0 {
        assert forall|k: GroupKey| #[trigger] tally(t, k) == crowd(t, k) by {
            lemma_evicted_crowd(s, id, reason, k);
            assert(tally(s, k) == crowd(s, k));
            assert(t.groups == state::groups_without(s, o));
            if anchors(s, o) is Some {
                let list = anchors(s, o)->0;
                let rules = s.rules(o.protocol)->0;
                lemma_anchors_differ(rules.identity->0, rules.condense->0, o.key_fields);
                assert forall|i: int| 0 <= i < list.len() implies tally(
                    s,
                    state::group_key(o.parent, o.protocol, (#[trigger] list[i]).anchor),
                ) > 0 by {
                    let g = state::group_key(o.parent, o.protocol, list[i].anchor);
                    assert(is_flow_of(s, o, g));
                    lemma_evicted_crowd(s, id, reason, g);
                    assert(tally(s, g) == crowd(s, g));
                }
                lemma_struck_tally(s, o, list, list.len() as int, k);
            }
        }
    }
}

proof fn evicting_stays_in_step(s: State, id: StreamId, reason: CloseReason)
    requires
        in_step(s),
        s.config.eviction is Live,
    ensures
        in_step(state::evict(s, id, reason)),
{
    let t = state::evict(s, id, reason);
    if s.config.condense_threshold > 0 {
        assert forall|k: GroupKey| #[trigger] tally(t, k) <= t.config.condense_threshold by {
            assert(tally(s, k) <= s.config.condense_threshold);
            if s.live(id) {
                lemma_struck_less(s, s.get(id)->0, k);
            }
        }
    }
}

proof fn sweeping_stays_in_step(s: State, b: nat)
    requires
        in_step(s),
        tree::hierarchy(s),
        bounds::within(s, b),
    ensures
        in_step(state::swept(s)),
    decreases state::live_count(s.slots), state::due_entries(s),
{
    if state::sweepable(s) {
        bounds::live_count_is_bounded(s.slots);
        queues::sweeping_progresses(s, b);
        let e = heap::first(s.expiry);
        let t = State { expiry: s.expiry.remove(e), ..s };
        let u = state::sweep_step(s);
        lemma_same_slots(s, t);
        if u.slots == s.slots && u.groups == s.groups {
            lemma_same_slots(s, u);
        } else {
            let id = state::id_of(e);
            evicting_stays_in_step(t, id, state::due_reason(t, t.get(id)->0));
        }
        sweeping_stays_in_step(u, b);
    }
}

proof fn capping_stays_in_step(s: State, b: nat)
    requires
        in_step(s),
        tree::hierarchy(s),
        bounds::within(s, b),
    ensures
        in_step(state::capped(s)),
    decreases state::live_count(s.slots), state::stale_candidates(s),
{
    if state::over_cap(s) {
        bounds::live_count_is_bounded(s.slots);
        queues::capping_progresses(s, b);
        let e = heap::first(s.lru);
        let t = State { lru: s.lru.remove(e), ..s };
        let u = state::cap_step(s);
        lemma_same_slots(s, t);
        if u.slots == s.slots && u.groups == s.groups {
            lemma_same_slots(s, u);
        } else {
            evicting_stays_in_step(t, state::id_of(e), CloseReason::LruEvicted);
        }
        capping_stays_in_step(u, b);
    }
}

/// After every packet no group counts more flows than the threshold lets through
/// and, where no stream ever leaves, every group counts exactly the flows of its
/// anchor that have streams of their own.
pub proof fn ingesting_stays_in_step(s: State, pkt: Packet)
    requires
        in_step(s),
        tree::hierarchy(s),
        bounds::within(s, s.load),
        state::has_room(s, pkt),
    ensures
        in_step(state::ingested(s, pkt)),
{
    let w = state::layer_weight(pkt.meta);
    let n = pkt.layers.len();
    assert(n * w >= 0) by (nonlinear_arith)
        requires
            w >= 0,
    ;
    let b = s.load;
    let b1 = b + pkt.meta.origlen as nat + 1;
    let b2 = (b1 + n * w) as nat;
    let b4 = (b + state::weight(pkt)) as nat;
    let t0 = state::begun(s, pkt);
    steps::beginning_keeps(s, pkt, b);
    lemma_same_slots(s, t0);
    sweeping_stays_in_step(t0, b1);
    let t1 = steps::opened(s, pkt);
    lemma_same_slots(state::swept(t0), t1);
    steps::opening_keeps(s, pkt, b);
    let p = state::taken_all(t1, pkt.layers, n as int, pkt.meta);
    steps::taking_all_keeps(t1, pkt.layers, n, pkt.meta, b1);
    taking_all_stays_in_step(t1, pkt.layers, n, pkt.meta, b1);
    let t3 = state::with_opaque(p.state, p.parent, pkt.opaque_len as int);
    steps::leftovers_keep(p.state, p.parent, pkt.opaque_len as nat, b2);
    assert forall|i: int| #[trigger] p.state.live_at(i) implies same_flow(
        p.state.at(i),
        t3.at(i),
    ) by {}
    lemma_in_step(p.state, t3);
    bounds::within_widens(t3, b2 + pkt.opaque_len as nat, b4);
    steps::registering_keeps(t3, pkt, p.endpoint, b, b4);
    let t4 = state::with_unknown(t3, pkt, p.endpoint);
    lemma_same_slots(t3, t4);
    capping_stays_in_step(t4, b4);
}

/// However many flows fan out from one anchor, no more of them than the threshold
/// have streams of their own; the rest are folded into the condensed node. This is
/// so as long as no stream leaves: when a condensed node leaves, its group is
/// counted afresh.
pub proof fn fan_outs_are_condensed(
    protocols: Seq<Registration>,
    config: AggregatorConfig,
    packets: Seq<Packet>,
    n: nat,
    k: GroupKey,
)
    requires
        bounds::timed(config),
        config.eviction is Never,
        config.condense_threshold > 0,
        varies_in_its_key(protocols),
        n <= packets.len(),
        capture::fits(state::initial(protocols, config), packets, n as int),
    ensures
        ({
            let t = capture::after(state::initial(protocols, config), packets, n as int);
            &&& crowd(t, k) <= config.condense_threshold
            &&& tally(t, k) == crowd(t, k)
        }),
{
    let t = capture::after(state::initial(protocols, config), packets, n as int);
    lemma_capture_in_step(protocols, config, packets, n);
    assert(tally(t, k) <= config.condense_threshold);
}

proof fn lemma_capture_in_step(
    protocols: Seq<Registration>,
    config: AggregatorConfig,
    packets: Seq<Packet>,
    n: nat,
)
    requires
        bounds::timed(config),
        n <= packets.len(),
        capture::fits(state::initial(protocols, config), packets, n as int),
    ensures
        ({
            let t = capture::after(state::initial(protocols, config), packets, n as int);
            &&& in_step(t)
            &&& t.config == config
            &&& t.protocols == protocols
        }),
    decreases n,
{
    let s = state::initial(protocols, config);
    if n > 0 {
        let m = (n - 1) as nat;
        assert(capture::fits(s, packets, m as int));
        lemma_capture_in_step(protocols, config, packets, m);
        capture::every_capture_is_well_kept(protocols, config, packets, m);
        let t = capture::after(s, packets, m as int);
        assert(state::has_room(capture::after(s, packets, n - 1), packets[n - 1]));
        ingesting_stays_in_step(t, packets[n - 1]);
        steps::ingesting_keeps(t, packets[n - 1]);
    } else if config.condense_threshold > 0 {
        assert forall|k: GroupKey| #[trigger] tally(s, k) == crowd(s, k) by {}
    }
}

} // verus!

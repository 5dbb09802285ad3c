//! What a condensed node is labelled with: the side that all its flows share.
use vstd::prelude::*;

use crate::engine::{Registration, Rules};
use crate::flows::bounds;
use crate::flows::capture;
use crate::flows::key;
use crate::flows::origins;
use crate::flows::placing;
use crate::flows::state::{self, AggregatorConfig, Candidate, Progress, State};
use crate::flows::steps;
use crate::flows::stream::{StreamId, StreamView};
use crate::flows::tree;
use crate::identity::{CondenseSpec, Identity, KeyField};
use crate::layer::{self, LayerView, PacketMeta};
use crate::packet::Packet;
use crate::value::{Fields, ValueView};

verus! {

/// Whether `c` is an anchor at one side of a flow's pair: it is the value of that
/// side, under that side's name, and the other side is what varies. A packet from the
/// anchor goes from A, one to the anchor comes from B.
pub open spec fn is_side(c: Candidate, pair: KeyField, fields: Fields) -> bool {
    let here = fields[c.field];
    let there = if c.dir is AtoB {
        fields[pair.b->0@]
    } else {
        fields[pair.a@]
    };
    &&& fields.contains_key(c.field)
    &&& c.value == here
    &&& c.varying == key::encoding(there)
    &&& c.dir is AtoB ==> c.field == pair.a@
    &&& c.dir is BtoA ==> c.field == pair.b->0@
}

/// Whether bytes end in others.
pub open spec fn ends_in(b: Seq<u8>, tail: Seq<u8>) -> bool {
    exists|head: Seq<u8>| b == #[trigger] (head + tail)
}

/// Every anchor of a flow is the value that the flow has on one of its sides, the
/// anchor's encoding ends in that value's, and what varies is the other side. Flows
/// whose sides differ have both sides as anchors, the sender's first.
pub proof fn anchors_are_sides(identity: Identity, spec_: CondenseSpec, fields: Fields)
    requires
        state::candidates(identity, spec_, fields) is Some,
    ensures
        ({
            let list = state::candidates(identity, spec_, fields)->0;
            let pair = spec_.ephemeral;
            &&& forall|c: Candidate| #[trigger]
                list.contains(c) ==> is_side(c, pair, fields) && ends_in(
                    c.anchor,
                    key::encoding(c.value),
                )
            &&& list.len() > 0
            &&& list[0].dir is AtoB
            &&& key::encoding(fields[pair.a@]) == key::encoding(fields[pair.b->0@]) ==> list.len()
                == 1
            &&& key::encoding(fields[pair.a@]) != key::encoding(fields[pair.b->0@]) ==> list.len()
                == 2 && list[1].dir is BtoA
        }),
{
    let list = state::candidates(identity, spec_, fields)->0;
    let pair = spec_.ephemeral;
    let head = state::common(identity.key, identity.key.len() as int, pair, fields)->0;
    assert forall|c: Candidate| #[trigger] list.contains(c) implies is_side(c, pair, fields)
        && ends_in(c.anchor, key::encoding(c.value)) by {
        let i = choose|i: int| 0 <= i < list.len() && list[i] == c;
        assert(c.anchor == head + key::encoding(c.value));
    }
}

/// Whether two flows agree in a component of their key: in the value of a qualifier,
/// or in both endpoints of a pair, whichever of them sends.
pub open spec fn agree_in(kf: KeyField, f: Fields, g: Fields) -> bool {
    let fa = key::encoding(f[kf.a@]);
    let ga = key::encoding(g[kf.a@]);
    if kf.b is None {
        fa == ga
    } else {
        let fb = key::encoding(f[kf.b->0@]);
        let gb = key::encoding(g[kf.b->0@]);
        (fa == ga && fb == gb) || (fa == gb && fb == ga)
    }
}

proof fn lemma_same_head(
    k: Seq<KeyField>,
    n: int,
    eph: KeyField,
    f: Fields,
    g: Fields,
    x: Seq<u8>,
    y: Seq<u8>,
)
    requires
        0 <= n <= k.len(),
        state::common(k, n, eph, f) is Some,
        state::common(k, n, eph, g) is Some,
        state::common(k, n, eph, f)->0 + x == state::common(k, n, eph, g)->0 + y,
    ensures
        state::common(k, n, eph, f) == state::common(k, n, eph, g),
        x == y,
        forall|j: int|
            0 <= j < n && !state::same_component(#[trigger] k[j], eph) ==> agree_in(k[j], f, g),
    decreases n,
{
    if n > 0 {
        let kf = k[n - 1];
        let p = state::common(k, n - 1, eph, f)->0;
        let q = state::common(k, n - 1, eph, g)->0;
        if state::same_component(kf, eph) {
            lemma_same_head(k, n - 1, eph, f, g, x, y);
        } else if kf.b is None {
            let ef = key::encoding(f[kf.a@]);
            let eg = key::encoding(g[kf.a@]);
            assert(p + ef + x =~= p + (ef + x));
            assert(q + eg + y =~= q + (eg + y));
            lemma_same_head(k, n - 1, eph, f, g, ef + x, eg + y);
            key::encodings_do_not_overlap(f[kf.a@], x, g[kf.a@], y);
        } else {
            let b = kf.b->0@;
            let (fl, fh) = if key::lex_le(key::encoding(f[kf.a@]), key::encoding(f[b])) {
                (f[kf.a@], f[b])
            } else {
                (f[b], f[kf.a@])
            };
            let (gl, gh) = if key::lex_le(key::encoding(g[kf.a@]), key::encoding(g[b])) {
                (g[kf.a@], g[b])
            } else {
                (g[b], g[kf.a@])
            };
            let (el, eh) = (key::encoding(fl), key::encoding(fh));
            let (dl, dh) = (key::encoding(gl), key::encoding(gh));
            assert(p + el + eh + x =~= p + (el + (eh + x)));
            assert(q + dl + dh + y =~= q + (dl + (dh + y)));
            lemma_same_head(k, n - 1, eph, f, g, el + (eh + x), dl + (dh + y));
            key::encodings_do_not_overlap(fl, eh + x, gl, dh + y);
            key::encodings_do_not_overlap(fh, x, gh, y);
        }
    } else {
        assert(Seq::<u8>::empty() + x =~= x);
        assert(Seq::<u8>::empty() + y =~= y);
    }
}

/// Two flows of one protocol that share an anchor have the same value there, whichever
/// sides it is on, and agree in every component of their key but the one that varies:
/// an anchor tells one fan-out from another.
pub proof fn one_anchor_one_value(
    identity: Identity,
    spec_: CondenseSpec,
    f: Fields,
    g: Fields,
    c: Candidate,
    d: Candidate,
)
    requires
        state::candidates(identity, spec_, f) is Some,
        state::candidates(identity, spec_, f)->0.contains(c),
        state::candidates(identity, spec_, g) is Some,
        state::candidates(identity, spec_, g)->0.contains(d),
        c.anchor == d.anchor,
    ensures
        key::encoding(c.value) == key::encoding(d.value),
        key::fits(c.value) && key::fits(d.value) ==> c.value == d.value,
        forall|j: int|
            0 <= j < identity.key.len() && !state::same_component(
                #[trigger] identity.key[j],
                spec_.ephemeral,
            ) ==> agree_in(identity.key[j], f, g),
{
    let n = identity.key.len() as int;
    let pair = spec_.ephemeral;
    let a = state::candidates(identity, spec_, f)->0;
    let b = state::candidates(identity, spec_, g)->0;
    let i = choose|i: int| 0 <= i < a.len() && a[i] == c;
    let j = choose|j: int| 0 <= j < b.len() && b[j] == d;
    let p = state::common(identity.key, n, pair, f)->0;
    let q = state::common(identity.key, n, pair, g)->0;
    assert(c.anchor == p + key::encoding(c.value));
    assert(d.anchor == q + key::encoding(d.value));
    lemma_same_head(
        identity.key,
        n,
        pair,
        f,
        g,
        key::encoding(c.value),
        key::encoding(d.value),
    );
    if key::fits(c.value) && key::fits(d.value) {
        key::encoding_is_injective(c.value, d.value);
    }
}

/// Whether a condensed node is labelled with an anchor of some flow of its protocol:
/// it has the anchor's key, and one key field, which is named like the anchor's side
/// and holds its value.
pub open spec fn is_labelled(s: State, st: StreamView) -> bool {
    exists|f: Fields, c: Candidate|
        {
            &&& #[trigger] is_anchor(s, st.protocol, f, c)
            &&& st.key == seq![state::CONDENSED_KEY_SENTINEL] + c.anchor
            &&& st.condensed->0.ephemeral_field == c.field
            &&& st.key_fields == Map::<Seq<char>, ValueView>::empty().insert(c.field, f[c.field])
        }
}

/// Whether `c` is an anchor of a flow of a protocol.
pub open spec fn is_anchor(s: State, protocol: Seq<char>, f: Fields, c: Candidate) -> bool {
    match s.rules(protocol) {
        Some(rules) => match state::anchors_of(s, rules, f) {
            Some(list) => list.contains(c),
            None => false,
        },
        None => false,
    }
}

/// Every condensed node is labelled.
pub open spec fn all_labelled(s: State) -> bool {
    forall|x: StreamId| #[trigger]
        s.live(x) && s.get(x)->0.condensed is Some ==> is_labelled(s, s.get(x)->0)
}

proof fn lemma_labelled(s: State, t: State, a: StreamView, b: StreamView)
    requires
        t.protocols == s.protocols,
        t.config == s.config,
        is_labelled(s, a),
        origins::same_origin(a, b),
        a.condensed is Some,
    ensures
        is_labelled(t, b),
{
    let (f, c) = choose|f: Fields, c: Candidate|
        {
            &&& #[trigger] is_anchor(s, a.protocol, f, c)
            &&& a.key == seq![state::CONDENSED_KEY_SENTINEL] + c.anchor
            &&& a.condensed->0.ephemeral_field == c.field
            &&& a.key_fields == Map::<Seq<char>, ValueView>::empty().insert(c.field, f[c.field])
        };
    assert(is_anchor(t, b.protocol, f, c));
}

/// A layer's stream, if it is a new condensed node, is labelled.
proof fn taking_stays_labelled(p: Progress, layer: LayerView, meta: PacketMeta, b: nat)
    requires
        all_labelled(p.state),
        steps::on_course(p, b),
        placing::placed(p.state),
        layer::in_time(meta.timestamp),
        p.state.slots.len() < u32::MAX,
        b + state::layer_weight(meta) <= u64::MAX,
    ensures
        all_labelled(state::taken(p, layer, meta).state),
{
    let s = p.state;
    let q = state::taken(p, layer, meta);
    let t = q.state;
    if placing::forms_stream(s, layer) {
        origins::a_layer_tells_its_stream(p, layer, meta, b);
        placing::layers_nest(p, layer, meta, b);
        let id = q.parent->0;
        let rules = s.rules(layer.protocol)->0;
        let found = key::key_of(rules.identity->0, layer.fields)->Ok_0;
        steps::lookup_is_live(s, p.parent, layer.protocol, found.0);
        assert forall|x: StreamId| #[trigger]
            t.live(x) && t.get(x)->0.condensed is Some implies is_labelled(t, t.get(x)->0) by {
            let st = t.get(x)->0;
            if s.live(x) {
                assert(origins::same_origin(s.get(x)->0, st)) by {
                    if x != id {
                        assert(origins::untouched(s.get(x)->0, st));
                    }
                }
                lemma_labelled(s, t, s.get(x)->0, st);
            } else {
                assert(x == id);
                assert(state::lookup(s, p.parent, layer.protocol, found.0) is None) by {
                    if state::lookup(s, p.parent, layer.protocol, found.0) is Some {
                        origins::found_streams_are_live(p, layer, meta, b);
                    }
                }
                let c = choose|c: Candidate|
                    {
                        &&& state::anchors_of(s, rules, layer.fields) is Some
                        &&& #[trigger] state::anchors_of(s, rules, layer.fields)->0.contains(c)
                        &&& st.key == seq![state::CONDENSED_KEY_SENTINEL] + c.anchor
                        &&& origins::counted_in(p, layer, meta) == c.dir
                        &&& !s.live(id) ==> origins::begins_as_node(st, c, meta.timestamp)
                    };
                anchors_are_sides(rules.identity->0, rules.condense->0, layer.fields);
                assert(is_anchor(t, st.protocol, layer.fields, c));
            }
        }
    } else {
        assert forall|x: StreamId| #[trigger]
            t.live(x) && t.get(x)->0.condensed is Some implies is_labelled(t, t.get(x)->0) by {
            assert(s.live(x) && s.get(x) == t.get(x));
            lemma_labelled(s, t, s.get(x)->0, t.get(x)->0);
        }
    }
}

proof fn taking_all_stays_labelled(
    s: State,
    layers: Seq<LayerView>,
    n: nat,
    meta: PacketMeta,
    b: nat,
)
    requires
        all_labelled(s),
        placing::placed(s),
        tree::hierarchy(s),
        bounds::within(s, b),
        layer::in_time(meta.timestamp),
        n <= layers.len(),
        s.slots.len() + n <= u32::MAX,
        b + n * state::layer_weight(meta) <= u64::MAX,
    ensures
        all_labelled(state::taken_all(s, layers, n as int, meta).state),
    decreases n,
{
    let w = state::layer_weight(meta);
    if n > 0 {
        let m = (n - 1) as nat;
        assert(n * w == m * w + w) by (nonlinear_arith)
            requires
                n == m + 1,
        ;
        assert(m * w >= 0) by (nonlinear_arith)
            requires
                w >= 0,
        ;
        taking_all_stays_labelled(s, layers, m, meta, b);
        steps::taking_all_keeps(s, layers, m, meta, b);
        placing::streams_nest_as_layers(s, layers, m, meta, b);
        taking_stays_labelled(
            state::taken_all(s, layers, m as int, meta),
            layers[n - 1],
            meta,
            (b + m * w) as nat,
        );
    }
}

proof fn lemma_remaining_labelled(s: State, t: State)
    requires
        all_labelled(s),
        t.protocols == s.protocols,
        t.config == s.config,
        forall|x: StreamId| #[trigger]
            t.live(x) ==> s.live(x) && origins::same_origin(s.get(x)->0, t.get(x)->0),
    ensures
        all_labelled(t),
{
    assert forall|x: StreamId| #[trigger]
        t.live(x) && t.get(x)->0.condensed is Some implies is_labelled(t, t.get(x)->0) by {
        lemma_labelled(s, t, s.get(x)->0, t.get(x)->0);
    }
}

/// A packet leaves every condensed node labelled.
pub proof fn packets_keep_labels(s: State, pkt: Packet)
    requires
        all_labelled(s),
        placing::placed(s),
        tree::hierarchy(s),
        bounds::within(s, s.load),
        state::has_room(s, pkt),
    ensures
        all_labelled(state::ingested(s, pkt)),
{
    let w = state::layer_weight(pkt.meta);
    let n = pkt.layers.len();
    assert(n * w >= 0) by (nonlinear_arith)
        requires
            w >= 0,
    ;
    let b = s.load;
    let b1 = b + pkt.meta.origlen as nat + 1;
    let b2 = (b1 + n * w) as nat;
    let b4 = (b + state::weight(pkt)) as nat;
    let t0 = state::begun(s, pkt);
    let t1 = steps::opened(s, pkt);
    steps::beginning_keeps(s, pkt, b);
    origins::sweeping_changes_no_record(t0, b1);
    let swept = state::swept(t0);
    assert forall|x: StreamId| #[trigger] t1.live(x) implies s.live(x) && origins::same_origin(
        s.get(x)->0,
        t1.get(x)->0,
    ) by {
        assert(swept.live(x));
        assert(origins::untouched(t0.get(x)->0, swept.get(x)->0));
        assert(t0.live(x));
    }
    lemma_remaining_labelled(s, t1);
    steps::opening_keeps(s, pkt, b);
    placing::opening_in_place(s, pkt, b);
    taking_all_stays_labelled(t1, pkt.layers, n, pkt.meta, b1);
    steps::taking_all_keeps(t1, pkt.layers, n, pkt.meta, b1);
    let p = state::taken_all(t1, pkt.layers, n as int, pkt.meta);
    steps::leftovers_keep(p.state, p.parent, pkt.opaque_len as nat, b2);
    let t3 = state::with_opaque(p.state, p.parent, pkt.opaque_len as int);
    bounds::within_widens(t3, b2 + pkt.opaque_len as nat, b4);
    steps::registering_keeps(t3, pkt, p.endpoint, b, b4);
    let t4 = state::with_unknown(t3, pkt, p.endpoint);
    origins::capping_changes_no_record(t4, b4);
    let t = state::ingested(s, pkt);
    assert forall|x: StreamId| #[trigger] t4.live(x) implies p.state.live(x)
        && origins::same_origin(p.state.get(x)->0, t4.get(x)->0) by {
        assert(t3.live(x));
    }
    lemma_remaining_labelled(p.state, t4);
    assert forall|x: StreamId| #[trigger] t.live(x) implies t4.live(x) && origins::same_origin(
        t4.get(x)->0,
        t.get(x)->0,
    ) by {
        assert(origins::untouched(t4.get(x)->0, t.get(x)->0));
    }
    lemma_remaining_labelled(t4, t);
}

/// After any capture every condensed node is labelled with the anchor that its flows
/// share.
pub proof fn every_node_is_labelled(
    protocols: Seq<Registration>,
    config: AggregatorConfig,
    packets: Seq<Packet>,
    n: nat,
)
    requires
        bounds::timed(config),
        n <= packets.len(),
        capture::fits(state::initial(protocols, config), packets, n as int),
    ensures
        all_labelled(capture::after(state::initial(protocols, config), packets, n as int)),
    decreases n,
{
    let s = state::initial(protocols, config);
    if n > 0 {
        let m = (n - 1) as nat;
        assert(capture::fits(s, packets, m as int));
        every_node_is_labelled(protocols, config, packets, m);
        capture::every_capture_is_well_kept(protocols, config, packets, m);
        assert(state::has_room(capture::after(s, packets, n - 1), packets[n - 1]));
        packets_keep_labels(capture::after(s, packets, m as int), packets[n - 1]);
    }
}

/// A flow that is folded into a condensed node has, on the side that is its anchor
/// there, the very value that the node is labelled with; and the label is all that the
/// node's key fields hold.
pub proof fn folded_flows_share_the_label(
    s: State,
    st: StreamView,
    rules: Rules,
    fields: Fields,
    c: Candidate,
)
    requires
        is_labelled(s, st),
        s.rules(st.protocol) == Some(rules),
        state::anchors_of(s, rules, fields) is Some,
        state::anchors_of(s, rules, fields)->0.contains(c),
        st.key == seq![state::CONDENSED_KEY_SENTINEL] + c.anchor,
    ensures
        ({
            let field = st.condensed->0.ephemeral_field;
            let label = st.key_fields[field];
            &&& st.key_fields.dom() == set![field]
            &&& fields.contains_key(c.field)
            &&& key::encoding(fields[c.field]) == key::encoding(label)
            &&& key::fits(fields[c.field]) && key::fits(label) ==> fields[c.field] == label
        }),
{
    let identity = rules.identity->0;
    let spec_ = rules.condense->0;
    let (f, d) = choose|f: Fields, d: Candidate|
        {
            &&& #[trigger] is_anchor(s, st.protocol, f, d)
            &&& st.key == seq![state::CONDENSED_KEY_SENTINEL] + d.anchor
            &&& st.condensed->0.ephemeral_field == d.field
            &&& st.key_fields == Map::<Seq<char>, ValueView>::empty().insert(d.field, f[d.field])
        };
    placing::anchors_are_recovered(c.anchor);
    placing::anchors_are_recovered(d.anchor);
    anchors_are_sides(identity, spec_, fields);
    anchors_are_sides(identity, spec_, f);
    one_anchor_one_value(identity, spec_, f, fields, d, c);
    assert(st.key_fields.dom() =~= set![d.field]);
}

} // verus!

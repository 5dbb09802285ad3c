//! Where streams stand: a conversation has one stream, a group's condensed node
//! is the one that its group names, and the streams of one packet are nested as
//! its layers are.
use vstd::prelude::*;

use crate::engine::{self, Registration, Rules};
use crate::flows::bounds;
use crate::flows::fanout;
use crate::flows::key;
use crate::flows::state::{
    self, Candidate, Group, GroupKey, Newcomer, Progress, Resolved, State, CONDENSED_KEY_SENTINEL,
};
use crate::flows::steps;
use crate::flows::stream::{CloseReason, StreamId, StreamView};
use crate::flows::tree;
use crate::identity::{Identity, PacketDirection};
use crate::layer::{self, LayerView, PacketMeta, Timestamp};
use crate::packet::Packet;

verus! {

/// The group that a condensed node stands for.
pub open spec fn home(st: StreamView) -> GroupKey {
    state::group_key(st.parent, st.protocol, state::anchor_in(st.key))
}

/// Whether a handle leads to the condensed node of a group.
pub open spec fn is_node_of(s: State, k: GroupKey, id: StreamId) -> bool {
    &&& s.live(id)
    &&& s.get(id)->0.condensed is Some
    &&& s.get(id)->0.parent == k.parent
    &&& s.get(id)->0.protocol == k.protocol
    &&& s.get(id)->0.key == seq![CONDENSED_KEY_SENTINEL] + k.anchor
}

/// The node that a group names, if there is such a group and it has one.
pub open spec fn node_of(groups: Map<GroupKey, Group>, k: GroupKey) -> Option<StreamId> {
    if groups.contains_key(k) {
        groups[k].node
    } else {
        None
    }
}

/// Every group's node is there, and every condensed node is its group's.
pub open spec fn nodes_in_place(s: State) -> bool {
    &&& s.config.condense_threshold == 0 ==> forall|k: GroupKey| !#[trigger]
        s.groups.contains_key(k)
    &&& forall|k: GroupKey| #[trigger]
        node_of(s.groups, k) is Some ==> is_node_of(s, k, node_of(s.groups, k)->0)
    &&& forall|i: int| #[trigger]
        s.live_at(i) && s.at(i).condensed is Some ==> node_of(s.groups, home(s.at(i))) == Some(
            s.at(i).id,
        )
}

/// Whether two records are those of one conversation, or of one group.
pub open spec fn same_conversation(a: StreamView, b: StreamView) -> bool {
    &&& a.parent == b.parent
    &&& a.protocol == b.protocol
    &&& a.key == b.key
    &&& a.condensed is Some <==> b.condensed is Some
}

/// No conversation has two streams, and no group has two nodes.
pub open spec fn one_stream_each(s: State) -> bool {
    forall|i: int, j: int|
        #![trigger s.live_at(i), s.live_at(j)]
        s.live_at(i) && s.live_at(j) && i != j ==> !same_conversation(s.at(i), s.at(j))
}

/// Streams are where they belong.
pub open spec fn placed(s: State) -> bool {
    nodes_in_place(s) && one_stream_each(s)
}

/// Whether every protocol that forms streams builds its keys by sorting endpoints.
pub open spec fn sorts_endpoints(protocols: Seq<Registration>) -> bool {
    forall|p: Seq<char>|
        match #[trigger] engine::named(protocols, p, 0) {
            Some(rules) => rules.identity is Some ==> rules.identity->0.policy is EndpointSort,
            None => true,
        }
}

/// No flow's stream has a key that a condensed node could have.
pub open spec fn told_apart(s: State) -> bool {
    forall|x: StreamId, anchor: Seq<u8>|
        #![trigger s.live(x), seq![CONDENSED_KEY_SENTINEL] + anchor]
        s.live(x) && s.get(x)->0.condensed is None ==> s.get(x)->0.key
            != seq![CONDENSED_KEY_SENTINEL] + anchor
}

/// Whether two records have the same parent, protocol and key.
pub open spec fn same_identity(a: StreamView, b: StreamView) -> bool {
    a.parent == b.parent && a.protocol == b.protocol && a.key == b.key
}

/// A stream is the only one of its parent, protocol and key, flow or condensed
/// node; and a flow's key is never a node's.
pub open spec fn one_stream_per_key(s: State) -> bool {
    &&& told_apart(s)
    &&& forall|i: int, j: int|
        #![trigger s.live_at(i), s.live_at(j)]
        s.live_at(i) && s.live_at(j) && i != j ==> !same_identity(s.at(i), s.at(j))
}

/// Where flows and nodes have different keys, no two streams share parent,
/// protocol and key.
pub proof fn keys_are_unique(s: State)
    requires
        placed(s),
        tree::numbered(s),
        told_apart(s),
    ensures
        one_stream_per_key(s),
{
    assert forall|i: int, j: int|
        #![trigger s.live_at(i), s.live_at(j)]
        s.live_at(i) && s.live_at(j) && i != j implies !same_identity(s.at(i), s.at(j)) by {
        if same_identity(s.at(i), s.at(j)) {
            assert(!same_conversation(s.at(i), s.at(j)));
            let (node, flow) = if s.at(i).condensed is Some {
                (i, j)
            } else {
                (j, i)
            };
            assert(s.live_at(node) && s.live_at(flow));
            let k = home(s.at(node));
            assert(node_of(s.groups, k) == Some(s.at(node).id));
            assert(is_node_of(s, k, s.at(node).id));
            assert(s.live(s.at(flow).id));
            assert(s.at(flow).key == seq![CONDENSED_KEY_SENTINEL] + k.anchor);
        }
    }
}

/// Streams that were there before stay told apart.
proof fn lemma_told_apart(s: State, t: State)
    requires
        told_apart(s),
        unmoved(s, t),
    ensures
        told_apart(t),
{
    assert forall|x: StreamId, anchor: Seq<u8>|
        #![trigger t.live(x), seq![CONDENSED_KEY_SENTINEL] + anchor]
        t.live(x) && t.get(x)->0.condensed is None implies t.get(x)->0.key
        != seq![CONDENSED_KEY_SENTINEL] + anchor by {
        assert(s.live(x));
    }
}

/// An empty store is in order.
pub proof fn nothing_is_misplaced(s: State)
    requires
        s.slots.len() == 0,
        s.groups == Map::<GroupKey, Group>::empty(),
    ensures
        placed(s),
        one_stream_per_key(s),
{
}

/// Streams stay where they belong as long as none comes or goes, each keeps what
/// it is known by, and the groups keep their nodes.
pub proof fn staying_in_place(s: State, t: State)
    requires
        placed(s),
        tree::numbered(s),
        t.config == s.config,
        forall|i: int| #[trigger] t.live_at(i) <==> s.live_at(i),
        forall|x: StreamId| #[trigger] t.live(x) <==> s.live(x),
        forall|i: int| #[trigger]
            s.live_at(i) ==> same_conversation(s.at(i), t.at(i)) && s.at(i).id == t.at(i).id,
        forall|k: GroupKey| #[trigger] node_of(t.groups, k) == node_of(s.groups, k),
        s.config.condense_threshold == 0 ==> forall|k: GroupKey| !#[trigger]
            t.groups.contains_key(k),
    ensures
        placed(t),
{
    assert forall|k: GroupKey| #[trigger] node_of(t.groups, k) is Some implies is_node_of(
        t,
        k,
        node_of(t.groups, k)->0,
    ) by {
        let id = node_of(s.groups, k)->0;
        assert(node_of(s.groups, k) is Some);
        assert(is_node_of(s, k, id));
        assert(s.live_at(id.index as int));
        assert(t.live(id));
    }
    assert forall|i: int| #[trigger] t.live_at(i) && t.at(i).condensed is Some implies node_of(
        t.groups,
        home(t.at(i)),
    ) == Some(t.at(i).id) by {
        assert(s.live_at(i));
        assert(node_of(t.groups, home(t.at(i))) == node_of(s.groups, home(s.at(i))));
    }
    assert forall|i: int, j: int|
        #![trigger t.live_at(i), t.live_at(j)]
        t.live_at(i) && t.live_at(j) && i != j implies !same_conversation(t.at(i), t.at(j)) by {
        assert(s.live_at(i) && s.live_at(j));
    }
}

/// A new flow's stream is in place if the conversation had none.
pub proof fn creating_in_place(s: State, n: Newcomer)
    requires
        placed(s),
        tree::hierarchy(s),
        s.slots.len() < u32::MAX,
        n.parent is Some ==> s.live(n.parent->0),
        n.condensed is None,
        state::lookup(s, n.parent, n.protocol, n.key) is None,
    ensures
        placed(state::created(s, n)),
{
    let t = state::created(s, n);
    let id = state::next_id(s);
    tree::creating_adds_one(s, n);
    no_match(s, n.parent, n.protocol, n.key);
    assert(t.groups == s.groups);
    assert(t.get(id) == Some(t.at(id.index as int)));
    assert forall|i: int| #[trigger] s.live_at(i) implies same_conversation(s.at(i), t.at(i))
        && s.at(i).id == t.at(i).id && i != id.index by {
        let x = s.at(i).id;
        assert(s.live(x));
        assert(t.live(x));
        assert(t.get(x) == Some(t.at(i)));
    }
    assert forall|k: GroupKey| #[trigger] node_of(t.groups, k) is Some implies is_node_of(
        t,
        k,
        node_of(t.groups, k)->0,
    ) by {
        let x = node_of(s.groups, k)->0;
        assert(is_node_of(s, k, x));
        assert(s.live_at(x.index as int));
        assert(t.live(x));
    }
    assert forall|i: int| #[trigger] t.live_at(i) && t.at(i).condensed is Some implies node_of(
        t.groups,
        home(t.at(i)),
    ) == Some(t.at(i).id) by {
        assert(s.live_at(i));
    }
    assert forall|i: int, j: int|
        #![trigger t.live_at(i), t.live_at(j)]
        t.live_at(i) && t.live_at(j) && i != j implies !same_conversation(t.at(i), t.at(j)) by {
        if i == id.index {
            assert(s.live_at(j));
            assert(!state::matches(s, j, n.parent, n.protocol, n.key));
        } else if j == id.index {
            assert(s.live_at(i));
            assert(!state::matches(s, i, n.parent, n.protocol, n.key));
        } else {
            assert(s.live_at(i) && s.live_at(j));
        }
    }
}

/// A conversation that cannot be looked up has no stream.
pub proof fn no_match(s: State, parent: Option<StreamId>, protocol: Seq<char>, key: Seq<u8>)
    requires
        state::lookup(s, parent, protocol, key) is None,
        tree::numbered(s),
    ensures
        forall|i: int| !#[trigger] state::matches(s, i, parent, protocol, key),
{
    if exists|i: int| state::matches(s, i, parent, protocol, key) {
        let i = choose|i: int| state::matches(s, i, parent, protocol, key);
        let m = some_oldest(s, parent, protocol, key, i);
        assert(state::oldest(s, m, parent, protocol, key));
    }
}

/// Among the streams of a conversation one is the oldest.
proof fn some_oldest(
    s: State,
    parent: Option<StreamId>,
    protocol: Seq<char>,
    key: Seq<u8>,
    i: int,
) -> (m: int)
    requires
        state::matches(s, i, parent, protocol, key),
    ensures
        state::oldest(s, m, parent, protocol, key),
    decreases s.at(i).created_seq,
{
    if state::oldest(s, i, parent, protocol, key) {
        i
    } else {
        let j = choose|j: int|
            #[trigger] state::matches(s, j, parent, protocol, key) && s.at(j).created_seq < s.at(
                i,
            ).created_seq;
        assert(state::matches(s, j, parent, protocol, key) && s.at(j).created_seq < s.at(
            i,
        ).created_seq);
        some_oldest(s, parent, protocol, key, j)
    }
}

/// A condensed node's key holds its anchor.
pub proof fn anchors_are_recovered(anchor: Seq<u8>)
    ensures
        state::anchor_in(seq![CONDENSED_KEY_SENTINEL] + anchor) == anchor,
{
    assert(state::anchor_in(seq![CONDENSED_KEY_SENTINEL] + anchor) =~= anchor);
}

/// A group's new node is in place.
pub proof fn adding_a_node_in_place(
    s: State,
    k: GroupKey,
    identity: Identity,
    c: Candidate,
    ts: Timestamp,
)
    requires
        placed(s),
        tree::hierarchy(s),
        s.slots.len() < u32::MAX,
        k.parent is Some ==> s.live(k.parent->0),
        s.groups.contains_key(k),
        c.anchor == k.anchor,
    ensures
        placed(state::with_node(s, k, identity, c, ts)),
        is_node_of(
            state::with_node(s, k, identity, c, ts),
            k,
            state::with_node(s, k, identity, c, ts).groups[k].node->0,
        ),
{
    let t = state::with_node(s, k, identity, c, ts);
    if state::has_node(s, k) {
        assert(node_of(s.groups, k) is Some);
    } else {
        let n = state::node(s, k.parent, k.protocol, identity, c, ts);
        let u = state::created(s, n);
        let id = state::next_id(s);
        tree::creating_adds_one(s, n);
        anchors_are_recovered(k.anchor);
        assert(node_of(s.groups, k) is None) by {
            if node_of(s.groups, k) is Some {
                assert(is_node_of(s, k, node_of(s.groups, k)->0));
            }
        }
        assert(u.get(id) == Some(u.at(id.index as int)));
        assert forall|i: int| #[trigger] s.live_at(i) implies same_conversation(s.at(i), t.at(i))
            && s.at(i).id == t.at(i).id && i != id.index by {
            let x = s.at(i).id;
            assert(s.live(x));
            assert(u.live(x));
            assert(u.get(x) == Some(u.at(i)));
        }
        assert forall|i: int| #[trigger] t.live_at(i) implies s.live_at(i) || i == id.index by {
            assert(u.live_at(i));
        }
        assert forall|g: GroupKey| #[trigger] node_of(t.groups, g) is Some implies is_node_of(
            t,
            g,
            node_of(t.groups, g)->0,
        ) by {
            if g == k {
                assert(t.get(id) == u.get(id));
            } else {
                let x = node_of(s.groups, g)->0;
                assert(node_of(s.groups, g) is Some);
                assert(is_node_of(s, g, x));
                assert(s.live_at(x.index as int));
                assert(u.live(x));
            }
        }
        assert forall|i: int| #[trigger] t.live_at(i) && t.at(i).condensed is Some implies node_of(
            t.groups,
            home(t.at(i)),
        ) == Some(t.at(i).id) by {
            if i != id.index {
                assert(s.live_at(i));
                assert(node_of(s.groups, home(s.at(i))) == Some(s.at(i).id));
                assert(home(s.at(i)) != k);
            }
        }
        assert forall|i: int, j: int|
            #![trigger t.live_at(i), t.live_at(j)]
            t.live_at(i) && t.live_at(j) && i != j implies !same_conversation(
            t.at(i),
            t.at(j),
        ) by {
            assert(u.at(i) == t.at(i) && u.at(j) == t.at(j));
            if i == id.index {
                assert(s.live_at(j));
                if same_conversation(t.at(i), t.at(j)) {
                    assert(home(s.at(j)) == k);
                }
            } else if j == id.index {
                assert(s.live_at(i));
                if same_conversation(t.at(i), t.at(j)) {
                    assert(home(s.at(i)) == k);
                }
            } else {
                assert(s.live_at(i) && s.live_at(j));
            }
        }
    }
}

/// Meeting a flow leaves streams in place.
pub proof fn meeting_in_place(s: State, k: GroupKey, id: StreamId, c: Candidate, b: nat)
    requires
        placed(s),
        tree::hierarchy(s),
        bounds::within(s, b),
        b < u64::MAX,
        s.groups.contains_key(k),
    ensures
        placed(state::with_member(s, k, id, c)),
        s.live(id) ==> same_conversation(
            s.get(id)->0,
            state::with_member(s, k, id, c).get(id)->0,
        ),
{
    let t = state::with_member(s, k, id, c);
    steps::meeting_a_flow_keeps(s, k, id, c, b);
    assert forall|i: int| #[trigger] s.live_at(i) implies same_conversation(s.at(i), t.at(i))
        && s.at(i).id == t.at(i).id by {}
    staying_in_place(s, t);
}

/// Enrolling a flow leaves streams in place.
pub proof fn enrolling_in_place(
    s: State,
    parent: Option<StreamId>,
    protocol: Seq<char>,
    anchors: Seq<Candidate>,
    n: int,
)
    requires
        placed(s),
        tree::hierarchy(s),
        s.config.condense_threshold > 0,
    ensures
        ({
            let t = state::enrolled_all(s, parent, protocol, anchors, n);
            &&& placed(t)
            &&& t == (State { groups: t.groups, ..s })
        }),
    decreases n,
{
    if n > 0 {
        enrolling_in_place(s, parent, protocol, anchors, n - 1);
        let u = state::enrolled_all(s, parent, protocol, anchors, n - 1);
        let t = state::enrolled_all(s, parent, protocol, anchors, n);
        crate::flows::queues::lemma_same_hierarchy(s, u);
        staying_in_place(u, t);
    }
}

/// Meeting a flow changes no stream's conversation.
proof fn lemma_met(s: State, k: GroupKey, id: StreamId, c: Candidate, x: StreamId)
    requires
        s.live(x),
    ensures
        state::with_member(s, k, id, c).live(x) && same_conversation(
            s.get(x)->0,
            state::with_member(s, k, id, c).get(x)->0,
        ),
{
}

/// Whether every stream of `s` is still there, with its conversation.
pub open spec fn kept(s: State, t: State) -> bool {
    forall|x: StreamId| #[trigger]
        s.live(x) ==> t.live(x) && same_conversation(s.get(x)->0, t.get(x)->0)
}

/// Resolving a layer leaves streams in place, and what it leads to is a stream of
/// the layer's protocol under the stream of the layer around it: the
/// conversation's own, or a condensed node.
pub proof fn resolving_in_place(
    s: State,
    parent: Option<StreamId>,
    key: Seq<u8>,
    rules: Rules,
    layer: LayerView,
    dir: PacketDirection,
    ts: Timestamp,
    b: nat,
)
    requires
        placed(s),
        tree::hierarchy(s),
        bounds::within(s, b),
        parent is Some ==> s.live(parent->0),
        s.slots.len() < u32::MAX,
        b + 3 <= u64::MAX,
        layer::in_time(ts),
    ensures
        ({
            let r = state::resolved(s, parent, key, rules, layer, dir, ts);
            let st = r.state.get(r.id)->0;
            &&& placed(r.state)
            &&& r.state.live(r.id)
            &&& st.parent == parent
            &&& st.protocol == layer.protocol
            &&& st.key == key || st.condensed is Some
            &&& forall|x: StreamId| #[trigger] r.state.live(x) ==> s.live(x) || x == r.id
            &&& kept(s, r.state)
        }),
{
    let identity = rules.identity->0;
    steps::lookup_is_live(s, parent, layer.protocol, key);
    if state::lookup(s, parent, layer.protocol, key) is None {
        let n = state::flow(s, parent, key, identity, layer, dir, ts);
        let fresh = state::created(s, n);
        tree::creating_adds_one(s, n);
        tree::creating_keeps_the_hierarchy(s, n);
        creating_in_place(s, n);
        assert(kept(s, fresh)) by {
            assert forall|x: StreamId| #[trigger] s.live(x) implies fresh.live(x)
                && same_conversation(s.get(x)->0, fresh.get(x)->0) by {
                assert(fresh.live(x));
            }
        }
        match state::anchors_of(s, rules, layer.fields) {
            None => {},
            Some(anchors) => {
                steps::fold_is_there(s, parent, layer.protocol, anchors, 0);
                match state::fold_at(s, parent, layer.protocol, anchors, 0) {
                    Some(i) => {
                        let k = state::group_key(parent, layer.protocol, anchors[i].anchor);
                        let c = anchors[i];
                        let u = state::with_node(s, k, identity, c, ts);
                        let id = u.groups[k].node->0;
                        adding_a_node_in_place(s, k, identity, c, ts);
                        steps::adding_a_node_keeps(s, k, identity, c, ts, b);
                        meeting_in_place(u, k, id, c, b + 1);
                        steps::meeting_a_flow_keeps(u, k, id, c, b + 1);
                        let t = state::with_member(u, k, id, c);
                        assert(t.live(id));
                        if !state::has_node(s, k) {
                            let m = state::node(s, k.parent, k.protocol, identity, c, ts);
                            tree::creating_adds_one(s, m);
                            let made = state::created(s, m);
                            assert forall|x: StreamId| #[trigger] t.live(x) implies s.live(x) || x
                                == id by {
                                assert(u.live(x));
                                assert(made.live(x));
                            }
                            assert forall|x: StreamId| #[trigger] s.live(x) implies t.live(x)
                                && same_conversation(s.get(x)->0, t.get(x)->0) by {
                                assert(made.live(x));
                                assert(u.live(x));
                                assert(u.get(x) == made.get(x));
                                lemma_met(u, k, id, c, x);
                            }
                        } else {
                            assert forall|x: StreamId| #[trigger] t.live(x) implies s.live(x) by {
                                assert(u.live(x));
                            }
                            assert forall|x: StreamId| #[trigger] s.live(x) implies t.live(x)
                                && same_conversation(s.get(x)->0, t.get(x)->0) by {
                                assert(u.live(x));
                                lemma_met(u, k, id, c, x);
                            }
                        }
                    },
                    None => {
                        enrolling_in_place(
                            fresh,
                            parent,
                            layer.protocol,
                            anchors,
                            anchors.len() as int,
                        );
                        let t = state::enrolled_all(
                            fresh,
                            parent,
                            layer.protocol,
                            anchors,
                            anchors.len() as int,
                        );
                        assert forall|x: StreamId| #[trigger] t.live(x) <==> fresh.live(x) by {}
                        assert forall|x: StreamId| #[trigger] s.live(x) implies t.live(x)
                            && same_conversation(s.get(x)->0, t.get(x)->0) by {
                            assert(fresh.live(x));
                            assert(t.get(x) == fresh.get(x));
                        }
                        assert(t.get(state::next_id(s)) == fresh.get(state::next_id(s)));
                    },
                }
            },
        }
    }
}

/// Counting a packet leaves streams in place.
pub proof fn attributing_in_place(
    r: Resolved,
    identity: Identity,
    layer: LayerView,
    meta: PacketMeta,
    b: nat,
)
    requires
        placed(r.state),
        tree::hierarchy(r.state),
        bounds::within(r.state, b),
        r.state.live(r.id),
        layer::in_time(meta.timestamp),
        b + meta.origlen + 1 <= u64::MAX,
    ensures
        placed(state::attributed(r, identity, layer, meta)),
        kept(r.state, state::attributed(r, identity, layer, meta)),
{
    let s = r.state;
    let t = state::attributed(r, identity, layer, meta);
    steps::attributing_keeps(r, identity, layer, meta, b);
    assert forall|i: int| #[trigger] s.live_at(i) implies same_conversation(s.at(i), t.at(i))
        && s.at(i).id == t.at(i).id by {}
    staying_in_place(s, t);
}

/// Striking flows from groups takes no node away.
proof fn lemma_struck_nodes(
    groups: Map<GroupKey, Group>,
    parent: Option<StreamId>,
    protocol: Seq<char>,
    anchors: Seq<Candidate>,
    n: int,
    k: GroupKey,
)
    ensures
        node_of(state::struck_all(groups, parent, protocol, anchors, n), k) == node_of(groups, k),
        state::struck_all(groups, parent, protocol, anchors, n).contains_key(k)
            ==> groups.contains_key(k),
    decreases n,
{
    if n > 0 {
        lemma_struck_nodes(groups, parent, protocol, anchors, n - 1, k);
    }
}

/// The groups after a stream left: a condensed node takes its own along, and no
/// other loses its node.
proof fn lemma_groups_without(s: State, st: StreamView, k: GroupKey)
    ensures
        s.config.condense_threshold > 0 && st.condensed is Some && k == home(st) ==> node_of(
            state::groups_without(s, st),
            k,
        ) is None,
        !(s.config.condense_threshold > 0 && st.condensed is Some && k == home(st)) ==> node_of(
            state::groups_without(s, st),
            k,
        ) == node_of(s.groups, k),
        state::groups_without(s, st).contains_key(k) ==> s.groups.contains_key(k),
{
    if s.config.condense_threshold > 0 && st.condensed is None {
        match s.rules(st.protocol) {
            Some(rules) => match state::anchors_of(s, rules, st.key_fields) {
                Some(anchors) => lemma_struck_nodes(
                    s.groups,
                    st.parent,
                    st.protocol,
                    anchors,
                    anchors.len() as int,
                    k,
                ),
                None => {},
            },
            None => {},
        }
    }
}

/// Evicting a leaf leaves the others in place.
pub proof fn evicting_in_place(s: State, id: StreamId, reason: CloseReason)
    requires
        placed(s),
        tree::hierarchy(s),
        s.live(id),
        s.get(id)->0.children.len() == 0,
    ensures
        placed(state::evict(s, id, reason)),
{
    let t = state::evict(s, id, reason);
    let o = s.get(id)->0;
    tree::evicting_removes_one(s, id, reason);
    tree::handles_are_unique(s, id);
    assert(t.groups == state::groups_without(s, o));
    assert(t.config == s.config);
    assert forall|i: int| #[trigger] t.live_at(i) implies s.live_at(i) && i != id.index
        && same_conversation(s.at(i), t.at(i)) && s.at(i).id == t.at(i).id by {
        let x = s.at(i).id;
        assert(s.live(x));
        assert(t.live(x));
        assert(t.get(x) == Some(t.at(i)));
    }
    assert forall|k: GroupKey| s.config.condense_threshold == 0 implies !#[trigger]
        t.groups.contains_key(k) by {
        lemma_groups_without(s, o, k);
    }
    assert forall|k: GroupKey| #[trigger] node_of(t.groups, k) is Some implies is_node_of(
        t,
        k,
        node_of(t.groups, k)->0,
    ) by {
        lemma_groups_without(s, o, k);
        let x = node_of(s.groups, k)->0;
        assert(is_node_of(s, k, x));
        anchors_are_recovered(k.anchor);
        assert(x != id) by {
            if x == id {
                assert(home(o) == k);
                if s.config.condense_threshold == 0 {
                    assert(!s.groups.contains_key(k));
                }
            }
        }
        assert(t.live(x));
        assert(t.live_at(x.index as int));
    }
    assert forall|i: int| #[trigger] t.live_at(i) && t.at(i).condensed is Some implies node_of(
        t.groups,
        home(t.at(i)),
    ) == Some(t.at(i).id) by {
        assert(s.live_at(i));
        let k = home(s.at(i));
        assert(node_of(s.groups, k) == Some(s.at(i).id));
        lemma_groups_without(s, o, k);
        if o.condensed is Some && home(o) == k {
            assert(s.live_at(id.index as int));
            assert(node_of(s.groups, home(s.at(id.index as int))) == Some(o.id));
        }
    }
    assert forall|i: int, j: int|
        #![trigger t.live_at(i), t.live_at(j)]
        t.live_at(i) && t.live_at(j) && i != j implies !same_conversation(t.at(i), t.at(j)) by {
        assert(s.live_at(i) && s.live_at(j));
    }
}

/// What is placed is a matter of the slots and the groups.
pub proof fn same_slots_in_place(s: State, t: State)
    requires
        placed(s),
        tree::numbered(s),
        t.slots == s.slots,
        t.groups == s.groups,
        t.config == s.config,
    ensures
        placed(t),
{
    assert forall|i: int| #[trigger] t.live_at(i) <==> s.live_at(i) by {}
    assert forall|x: StreamId| #[trigger] t.live(x) <==> s.live(x) by {}
    staying_in_place(s, t);
}

/// Whether every stream of `t` was there in `s`, with its conversation and under
/// its parent.
pub open spec fn unmoved(s: State, t: State) -> bool {
    forall|x: StreamId| #[trigger]
        t.live(x) ==> s.live(x) && same_conversation(s.get(x)->0, t.get(x)->0)
}

proof fn lemma_unmoved(s: State, t: State, u: State)
    requires
        unmoved(s, t),
        unmoved(t, u),
    ensures
        unmoved(s, u),
{
    assert forall|x: StreamId| #[trigger] u.live(x) implies s.live(x) && same_conversation(
        s.get(x)->0,
        u.get(x)->0,
    ) by {
        assert(t.live(x));
    }
}

/// A sweep leaves the others in place, and lets no new stream in.
pub proof fn sweeping_in_place(s: State, b: nat)
    requires
        placed(s),
        tree::hierarchy(s),
        bounds::within(s, b),
    ensures
        placed(state::swept(s)),
        unmoved(s, state::swept(s)),
    decreases state::live_count(s.slots), state::due_entries(s),
{
    if state::sweepable(s) {
        bounds::live_count_is_bounded(s.slots);
        crate::flows::queues::sweeping_progresses(s, b);
        let e = crate::flows::heap::first(s.expiry);
        let id = state::id_of(e);
        let t = State { expiry: s.expiry.remove(e), ..s };
        let u = state::sweep_step(s);
        same_slots_in_place(s, t);
        crate::flows::queues::lemma_same_hierarchy(s, t);
        assert(placed(u) && unmoved(s, u)) by {
            if u.slots == s.slots && u.groups == s.groups {
                same_slots_in_place(s, u);
            } else {
                let reason = state::due_reason(t, t.get(id)->0);
                evicting_in_place(t, id, reason);
                tree::evicting_removes_one(t, id, reason);
                assert forall|x: StreamId| #[trigger] u.live(x) implies s.live(x)
                    && same_conversation(s.get(x)->0, u.get(x)->0) by {
                    assert(t.live(x));
                    assert(t.get(x) == s.get(x));
                }
            }
        }
        sweeping_in_place(u, b);
        lemma_unmoved(s, u, state::swept(s));
    }
}

/// The cap leaves the others in place, and lets no new stream in.
pub proof fn capping_in_place(s: State, b: nat)
    requires
        placed(s),
        tree::hierarchy(s),
        bounds::within(s, b),
    ensures
        placed(state::capped(s)),
        unmoved(s, state::capped(s)),
    decreases state::live_count(s.slots), state::stale_candidates(s),
{
    if state::over_cap(s) {
        bounds::live_count_is_bounded(s.slots);
        crate::flows::queues::capping_progresses(s, b);
        let e = crate::flows::heap::first(s.lru);
        let id = state::id_of(e);
        let t = State { lru: s.lru.remove(e), ..s };
        let u = state::cap_step(s);
        same_slots_in_place(s, t);
        crate::flows::queues::lemma_same_hierarchy(s, t);
        assert(placed(u) && unmoved(s, u)) by {
            if u.slots == s.slots && u.groups == s.groups {
                same_slots_in_place(s, u);
            } else {
                evicting_in_place(t, id, CloseReason::LruEvicted);
                tree::evicting_removes_one(t, id, CloseReason::LruEvicted);
                assert forall|x: StreamId| #[trigger] u.live(x) implies s.live(x)
                    && same_conversation(s.get(x)->0, u.get(x)->0) by {
                    assert(t.live(x));
                    assert(t.get(x) == s.get(x));
                }
            }
        }
        capping_in_place(u, b);
        lemma_unmoved(s, u, state::capped(s));
    }
}

/// Whether a layer forms a stream: its protocol does, and its key can be built.
pub open spec fn forms_stream(s: State, layer: LayerView) -> bool {
    match s.rules(layer.protocol) {
        Some(rules) => rules.identity is Some && crate::flows::key::key_of(
            rules.identity->0,
            layer.fields,
        ) is Ok,
        None => false,
    }
}

/// Taking a layer in leaves streams in place. A layer that forms a stream leads
/// to one of its protocol under the stream of the layer around it; one that forms
/// none is passed over and lets no stream in.
pub proof fn layers_nest(p: Progress, layer: LayerView, meta: PacketMeta, b: nat)
    requires
        steps::on_course(p, b),
        placed(p.state),
        layer::in_time(meta.timestamp),
        p.state.slots.len() < u32::MAX,
        b + state::layer_weight(meta) <= u64::MAX,
    ensures
        ({
            let q = state::taken(p, layer, meta);
            &&& placed(q.state)
            &&& kept(p.state, q.state)
            &&& if forms_stream(p.state, layer) {
                &&& q.parent is Some
                &&& q.state.live(q.parent->0)
                &&& q.state.get(q.parent->0)->0.parent == p.parent
                &&& q.state.get(q.parent->0)->0.protocol == layer.protocol
                &&& q.state.get(q.parent->0)->0.condensed is Some || q.state.get(q.parent->0)->0.key
                    == key::key_of(p.state.rules(layer.protocol)->0.identity->0, layer.fields)->Ok_0.0
                &&& forall|x: StreamId| #[trigger]
                    q.state.live(x) ==> p.state.live(x) || Some(x) == q.parent
            } else {
                &&& q.parent == p.parent
                &&& forall|x: StreamId| #[trigger] q.state.live(x) ==> p.state.live(x)
            }
        }),
{
    let s = State { load: (p.state.load + state::layer_weight(meta)) as nat, ..p.state };
    let q = state::taken(p, layer, meta);
    steps::taking_keeps(p, layer, meta, b);
    same_slots_in_place(p.state, s);
    crate::flows::queues::lemma_same_hierarchy(p.state, s);
    crate::flows::queues::lemma_same_bounds(p.state, s, b);
    assert forall|x: StreamId| #[trigger] p.state.live(x) <==> s.live(x) by {}
    if forms_stream(p.state, layer) {
        let rules = s.rules(layer.protocol)->0;
        let identity = rules.identity->0;
        let found = crate::flows::key::key_of(identity, layer.fields);
        match found {
            Ok((key, dir)) => {
                let r = state::resolved(s, p.parent, key, rules, layer, dir, meta.timestamp);
                resolving_in_place(s, p.parent, key, rules, layer, dir, meta.timestamp, b);
                steps::resolving_keeps(s, p.parent, key, rules, layer, dir, meta.timestamp, b);
                attributing_in_place(r, identity, layer, meta, b + 3);
                steps::attributing_keeps(r, identity, layer, meta, b + 3);
                assert(r.state.live(r.id));
                assert forall|x: StreamId| #[trigger] p.state.live(x) implies q.state.live(x)
                    && same_conversation(p.state.get(x)->0, q.state.get(x)->0) by {
                    assert(s.live(x));
                    assert(r.state.live(x));
                }
                assert forall|x: StreamId| #[trigger] q.state.live(x) implies p.state.live(x)
                    || Some(x) == q.parent by {
                    assert(r.state.live(x));
                }
            },
            Err(_) => {},
        }
    } else {
        same_slots_in_place(s, q.state);
        assert forall|x: StreamId| #[trigger] q.state.live(x) <==> p.state.live(x) by {}
    }
}

/// Taking a layer in lets no flow have a node's key.
proof fn layers_stay_told_apart(p: Progress, layer: LayerView, meta: PacketMeta, b: nat)
    requires
        steps::on_course(p, b),
        placed(p.state),
        sorts_endpoints(p.state.protocols),
        told_apart(p.state),
        layer::in_time(meta.timestamp),
        p.state.slots.len() < u32::MAX,
        b + state::layer_weight(meta) <= u64::MAX,
    ensures
        told_apart(state::taken(p, layer, meta).state),
{
    let s = p.state;
    let t = state::taken(p, layer, meta).state;
    layers_nest(p, layer, meta, b);
    assert forall|x: StreamId, anchor: Seq<u8>|
        #![trigger t.live(x), seq![CONDENSED_KEY_SENTINEL] + anchor]
        t.live(x) && t.get(x)->0.condensed is None implies t.get(x)->0.key
        != seq![CONDENSED_KEY_SENTINEL] + anchor by {
        if s.live(x) {
            assert(same_conversation(s.get(x)->0, t.get(x)->0));
        } else {
            assert(engine::named(s.protocols, layer.protocol, 0) == s.rules(layer.protocol));
            fanout::no_flow_has_a_nodes_key(
                s.rules(layer.protocol)->0.identity->0,
                layer.fields,
                anchor,
            );
        }
    }
}

/// The streams of the first `n` layers that form streams, outermost first.
pub open spec fn trail(s: State, layers: Seq<LayerView>, n: int, meta: PacketMeta) -> Seq<StreamId>
    decreases n,
{
    if n <= 0 {
        Seq::empty()
    } else {
        let p = state::taken_all(s, layers, n - 1, meta);
        let q = state::taken_all(s, layers, n, meta);
        if forms_stream(p.state, layers[n - 1]) {
            trail(s, layers, n - 1, meta).push(q.parent->0)
        } else {
            trail(s, layers, n - 1, meta)
        }
    }
}

/// Whether some streams are nested: the first one under no other, each further
/// one under the one before.
pub open spec fn nested(s: State, ids: Seq<StreamId>) -> bool {
    forall|j: int|
        0 <= j < ids.len() ==> s.live(#[trigger] ids[j]) && s.get(ids[j])->0.parent == if j == 0 {
            None
        } else {
            Some(ids[j - 1])
        }
}

/// Whether a stream is of the protocol of one of the first `n` layers, which
/// forms streams.
pub open spec fn is_of_layer(s: State, layers: Seq<LayerView>, n: int, protocol: Seq<char>) -> bool {
    exists|k: int|
        0 <= k < n && (#[trigger] layers[k]).protocol == protocol && forms_stream(s, layers[k])
}

/// The streams of one packet are nested as its layers are, whatever the
/// protocols; and every stream that was not there before is one of them.
pub proof fn streams_nest_as_layers(
    s: State,
    layers: Seq<LayerView>,
    n: nat,
    meta: PacketMeta,
    b: nat,
)
    requires
        placed(s),
        tree::hierarchy(s),
        bounds::within(s, b),
        layer::in_time(meta.timestamp),
        n <= layers.len(),
        s.slots.len() + n <= u32::MAX,
        b + n * state::layer_weight(meta) <= u64::MAX,
    ensures
        ({
            let q = state::taken_all(s, layers, n as int, meta);
            let ids = trail(s, layers, n as int, meta);
            &&& placed(q.state)
            &&& nested(q.state, ids)
            &&& q.parent == if ids.len() == 0 {
                None
            } else {
                Some(ids.last())
            }
            &&& kept(s, q.state)
            &&& q.state.protocols == s.protocols
            &&& sorts_endpoints(s.protocols) && told_apart(s) ==> told_apart(q.state)
            &&& forall|x: StreamId| #[trigger]
                q.state.live(x) ==> s.live(x) || (ids.contains(x) && is_of_layer(
                    s,
                    layers,
                    n as int,
                    q.state.get(x)->0.protocol,
                ))
        }),
    decreases n,
{
    let w = state::layer_weight(meta);
    if n > 0 {
        let m = (n - 1) as nat;
        assert(n * w == m * w + w) by (nonlinear_arith)
            requires
                n == m + 1,
        ;
        assert(m * w >= 0) by (nonlinear_arith)
            requires
                w >= 0,
        ;
        streams_nest_as_layers(s, layers, m, meta, b);
        steps::taking_all_keeps(s, layers, m, meta, b);
        let p = state::taken_all(s, layers, m as int, meta);
        let q = state::taken_all(s, layers, n as int, meta);
        let layer = layers[n - 1];
        layers_nest(p, layer, meta, (b + m * w) as nat);
        steps::taking_keeps(p, layer, meta, (b + m * w) as nat);
        if sorts_endpoints(s.protocols) && told_apart(s) {
            layers_stay_told_apart(p, layer, meta, (b + m * w) as nat);
        }
        let before = trail(s, layers, m as int, meta);
        let ids = trail(s, layers, n as int, meta);
        assert(forms_stream(p.state, layer) == forms_stream(s, layer));
        assert forall|j: int| 0 <= j < ids.len() implies q.state.live(#[trigger] ids[j])
            && q.state.get(ids[j])->0.parent == if j == 0 {
            None
        } else {
            Some(ids[j - 1])
        } by {
            if j < before.len() {
                assert(ids[j] == before[j]);
                assert(p.state.live(before[j]));
                if j > 0 {
                    assert(ids[j - 1] == before[j - 1]);
                }
            }
        }
        assert forall|x: StreamId| #[trigger] s.live(x) implies q.state.live(x)
            && same_conversation(s.get(x)->0, q.state.get(x)->0) by {
            assert(p.state.live(x));
        }
        assert forall|x: StreamId| #[trigger] q.state.live(x) implies s.live(x) || (ids.contains(
            x,
        ) && is_of_layer(s, layers, n as int, q.state.get(x)->0.protocol)) by {
            if p.state.live(x) {
                if !s.live(x) {
                    let j = choose|j: int| 0 <= j < before.len() && before[j] == x;
                    assert(ids[j] == x);
                    let protocol = p.state.get(x)->0.protocol;
                    let k = choose|k: int|
                        0 <= k < m && (#[trigger] layers[k]).protocol == protocol && forms_stream(
                            s,
                            layers[k],
                        );
                    assert(layers[k].protocol == protocol && forms_stream(s, layers[k]));
                }
            } else {
                assert(ids[before.len() as int] == x);
                assert(layers[n - 1].protocol == q.state.get(x)->0.protocol);
            }
        }
    }
}

/// Counting a packet and sweeping leave streams in place.
pub proof fn opening_in_place(s: State, pkt: Packet, b: nat)
    requires
        placed(s),
        tree::hierarchy(s),
        bounds::within(s, b),
        layer::in_time(pkt.meta.timestamp),
        b + pkt.meta.origlen + 1 <= u64::MAX,
    ensures
        placed(steps::opened(s, pkt)),
        unmoved(s, steps::opened(s, pkt)),
{
    let b1 = b + pkt.meta.origlen as nat + 1;
    steps::beginning_keeps(s, pkt, b);
    let t0 = state::begun(s, pkt);
    same_slots_in_place(s, t0);
    steps::sweeping_keeps(t0, b1);
    sweeping_in_place(t0, b1);
    let u = state::swept(t0);
    let t1 = steps::opened(s, pkt);
    same_slots_in_place(u, t1);
    assert forall|x: StreamId| #[trigger] t1.live(x) implies s.live(x) && same_conversation(
        s.get(x)->0,
        t1.get(x)->0,
    ) by {
        assert(u.live(x));
        assert(t0.live(x));
    }
}

/// What follows the layers leaves streams in place.
pub proof fn rest_in_place(p: Progress, pkt: Packet, a: nat, b: nat, c: nat)
    requires
        placed(p.state),
        tree::hierarchy(p.state),
        bounds::within(p.state, b),
        bounds::register_within(p.state.unknowns, a),
        b + pkt.opaque_len <= c,
        a + pkt.opaque_len + 1 <= c <= u64::MAX,
    ensures
        ({
            let t = state::capped(
                state::with_unknown(
                    state::with_opaque(p.state, p.parent, pkt.opaque_len as int),
                    pkt,
                    p.endpoint,
                ),
            );
            &&& placed(t)
            &&& unmoved(p.state, t)
        }),
{
    let s = p.state;
    let t3 = state::with_opaque(s, p.parent, pkt.opaque_len as int);
    steps::leftovers_keep(s, p.parent, pkt.opaque_len as nat, b);
    assert forall|i: int| #[trigger] s.live_at(i) implies same_conversation(s.at(i), t3.at(i))
        && s.at(i).id == t3.at(i).id by {}
    staying_in_place(s, t3);
    bounds::within_widens(t3, b + pkt.opaque_len as nat, c);
    steps::registering_keeps(t3, pkt, p.endpoint, a, c);
    let t4 = state::with_unknown(t3, pkt, p.endpoint);
    same_slots_in_place(t3, t4);
    capping_in_place(t4, c);
    let t = state::capped(t4);
    assert forall|x: StreamId| #[trigger] t.live(x) implies s.live(x) && same_conversation(
        s.get(x)->0,
        t.get(x)->0,
    ) by {
        assert(t4.live(x));
        assert(t3.live(x));
        assert(s.live_at(x.index as int));
    }
}

/// A packet leaves streams in place and makes none up: a stream that was there
/// before keeps its conversation and its parent, and one that was not is of the
/// protocol of a layer that forms streams. Where keys are made of sorted endpoints,
/// no stream shares parent, protocol and key with another, flow or condensed node.
pub proof fn no_phantom_streams(s: State, pkt: Packet)
    requires
        placed(s),
        tree::hierarchy(s),
        bounds::within(s, s.load),
        state::has_room(s, pkt),
    ensures
        ({
            let t = state::ingested(s, pkt);
            &&& placed(t)
            &&& sorts_endpoints(s.protocols) && one_stream_per_key(s) ==> one_stream_per_key(t)
            &&& forall|x: StreamId| #[trigger]
                t.live(x) ==> (s.live(x) && same_conversation(s.get(x)->0, t.get(x)->0))
                    || is_of_layer(
                    s,
                    pkt.layers,
                    pkt.layers.len() as int,
                    t.get(x)->0.protocol,
                )
        }),
{
    let w = state::layer_weight(pkt.meta);
    let n = pkt.layers.len();
    assert(n * w >= 0) by (nonlinear_arith)
        requires
            w >= 0,
    ;
    let b = s.load;
    let b1 = b + pkt.meta.origlen as nat + 1;
    let b2 = (b1 + n * w) as nat;
    let b4 = (b + state::weight(pkt)) as nat;
    let t1 = steps::opened(s, pkt);
    steps::opening_keeps(s, pkt, b);
    opening_in_place(s, pkt, b);
    let p = state::taken_all(t1, pkt.layers, n as int, pkt.meta);
    steps::taking_all_keeps(t1, pkt.layers, n, pkt.meta, b1);
    streams_nest_as_layers(t1, pkt.layers, n, pkt.meta, b1);
    rest_in_place(p, pkt, b, b2, b4);
    let t = state::ingested(s, pkt);
    if sorts_endpoints(s.protocols) && one_stream_per_key(s) {
        lemma_told_apart(s, t1);
        lemma_told_apart(p.state, t);
        steps::ingesting_keeps(s, pkt);
        keys_are_unique(t);
    }
    assert forall|x: StreamId| #[trigger] t.live(x) implies (s.live(x) && same_conversation(
        s.get(x)->0,
        t.get(x)->0,
    )) || is_of_layer(s, pkt.layers, n as int, t.get(x)->0.protocol) by {
        assert(p.state.live(x));
        if t1.live(x) {
            assert(s.live(x));
        } else {
            let protocol = p.state.get(x)->0.protocol;
            let k = choose|k: int|
                0 <= k < n && (#[trigger] pkt.layers[k]).protocol == protocol && forms_stream(
                    t1,
                    pkt.layers[k],
                );
            assert(pkt.layers[k].protocol == protocol && forms_stream(s, pkt.layers[k]));
        }
    }
}

} // verus!

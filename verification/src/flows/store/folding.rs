//! Finding a layer's stream: the one that is there, the condensed node of an
//! anchor with many flows, or a new one.
use vstd::prelude::*;

use crate::engine::Rules;
use crate::flows::bounds;
use crate::flows::condense::{self, CondenseCandidate, CondenseGroup, GroupId, Member};
use crate::flows::index;
use crate::flows::rollup::RollupSet;
use crate::flows::state::{
    self, Group, GroupKey, Resolved, CONDENSED_KEY_SENTINEL, CONDENSE_MEMBER_CAP,
};
use crate::flows::steps;
use crate::flows::store::{self, Aggregator, NewStream};
use crate::flows::stream::{CondensedInfo, StreamId};
use crate::flows::tally::{self, Counts};
use crate::flows::tree;
use crate::identity::{
    CondenseSpec, FlowKey, KeyField, PacketDirection, StreamIdentity,
};
use crate::layer::{self, LayerRecord, Timestamp};
use crate::value::{FieldMap, ProtocolName};

verus! {

/// The key-named fields of a layer.
fn key_fields_of(key: &[KeyField], fields: &FieldMap) -> (r: FieldMap)
    ensures
        r@ == state::key_fields(key@, key@.len() as int, fields@),
{
    let n: usize = key.len();
    let mut out = FieldMap::new();
    let mut i: usize = 0;
    while i < n
        invariant
            n == key@.len(),
            i <= n,
            out@ == state::key_fields(key@, i as int, fields@),
        decreases n - i,
    {
        let kf = key[i];
        if let Some(v) = fields.get(kf.a) {
            out.insert(kf.a, v.clone());
        }
        if let Some(b) = kf.b {
            if let Some(v) = fields.get(b) {
                out.insert(b, v.clone());
            }
        }
        i = i + 1;
    }
    out
}

proof fn lemma_groups_insert(m: Map<GroupKey, CondenseGroup>, k: GroupKey, g: CondenseGroup)
    ensures
        store::groups_view(m.insert(k, g)) == store::groups_view(m).insert(k, g@),
        store::groups_view(m.remove(k).insert(k, g)) == store::groups_view(m).insert(k, g@),
{
    assert(store::groups_view(m.insert(k, g)) =~= store::groups_view(m).insert(k, g@));
    assert(m.remove(k).insert(k, g) =~= m.insert(k, g));
}

proof fn lemma_ever_insert(m: Map<Seq<char>, Counts>, p: Seq<char>, c: Counts)
    ensures
        store::ever_view(m.insert(p, c)) == store::ever_view(m).insert(p, c.ever),
{
    assert(store::ever_view(m.insert(p, c)) =~= store::ever_view(m).insert(p, c.ever));
}

impl Aggregator {
    /// Creates a flow's own stream.
    fn create_stream(
        &mut self,
        parent: Option<StreamId>,
        key: FlowKey,
        identity: &StreamIdentity,
        layer: &LayerRecord,
        dir: PacketDirection,
        ts: Timestamp,
        Ghost(b): Ghost<nat>,
    ) -> (id: StreamId)
        requires
            old(self).sound(b),
            b < u64::MAX,
            old(self)@.slots.len() < u32::MAX,
            parent is Some ==> old(self)@.live(parent->0),
            layer::in_time(ts),
        ensures
            final(self)@ == state::created(
                old(self)@,
                state::flow(old(self)@, parent, key@, identity@, layer@, dir, ts),
            ),
            id == state::next_id(old(self)@),
            final(self).sound(b + 1),
    {
        let n = NewStream {
            parent,
            protocol: layer.protocol,
            key,
            key_fields: key_fields_of(identity.key, &layer.fields),
            state: match identity.lifecycle {
                Some(l) => Some(l.initial),
                None => None,
            },
            rollups: RollupSet::new(
                identity.rollups,
                self.config.rollup_series_default_cap,
                self.config.rollup_series_max_cap,
            ),
            condensed: None,
            dir,
            ts,
        };
        proof {
            steps::empty_slots_count_nothing(self@, identity@);
            assert(n@ =~= state::flow(self@, parent, key@, identity@, layer@, dir, ts));
        }
        self.create_stream_raw(n, Ghost(b))
    }

    /// Creates a group's condensed node.
    fn create_node(
        &mut self,
        key: GroupId,
        identity: &StreamIdentity,
        c: &CondenseCandidate,
        ts: Timestamp,
        Ghost(b): Ghost<nat>,
    ) -> (id: StreamId)
        requires
            old(self).sound(b),
            b < u64::MAX,
            old(self)@.slots.len() < u32::MAX,
            key.anchor@ == c.anchor@,
            key.parent is Some ==> old(self)@.live(key.parent->0),
            old(self)@.groups.contains_key(key@),
            !state::has_node(old(self)@, key@),
            layer::in_time(ts),
        ensures
            final(self)@ == state::with_node(old(self)@, key@, identity@, c@, ts),
            final(self)@.groups[key@].node == Some(id),
            final(self).sound(b + 1),
    {
        let ghost s0 = self@;
        let ghost k = key@;
        let mut bytes: Vec<u8> = Vec::new();
        bytes.push(CONDENSED_KEY_SENTINEL);
        crate::flows::key::append(&mut bytes, c.anchor.as_slice());
        assert(bytes@ =~= seq![CONDENSED_KEY_SENTINEL] + c.anchor@);
        let mut key_fields = FieldMap::new();
        key_fields.insert(c.anchor_field, c.anchor_value.clone());
        let n = NewStream {
            parent: key.parent,
            protocol: key.protocol,
            key: FlowKey::from_bytes(bytes.as_slice()),
            key_fields,
            state: None,
            rollups: RollupSet::new(
                identity.rollups,
                self.config.rollup_series_default_cap,
                self.config.rollup_series_max_cap,
            ),
            condensed: Some(
                Box::new(
                    CondensedInfo {
                        member_flows: 0,
                        ephemeral_field: c.anchor_field,
                        overflow: false,
                    },
                ),
            ),
            dir: c.fold_dir,
            ts,
        };
        let ghost nc = n@;
        proof {
            steps::empty_slots_count_nothing(s0, identity@);
            steps::adding_a_node_keeps(s0, k, identity@, c@, ts, b);
            assert(nc =~= state::node(s0, k.parent, k.protocol, identity@, c@, ts));
        }
        let protocol = key.protocol;
        let id = self.create_stream_raw(n, Ghost(b));
        let ghost s1 = self@;
        let ghost t1 = self.tallies@;
        proof {
            tree::creating_adds_one(s0, nc);
            assert(s1.ever.contains_key(protocol@));
            assert(t1.contains_key(protocol@));
            if s0.ever.contains_key(protocol@) {
                assert(s0.ever[protocol@] <= b);
            }
            assert(s0.groups == s1.groups);
            assert(self.condense@.contains_key(k));
        }
        // The node stands for a group and is no flow itself; its members are.
        self.totals.streams_created = self.totals.streams_created - 1;
        let mut row = self.tallies.get(protocol);
        row.ever = row.ever - 1;
        self.tallies.set(row);
        let ghost m = self.condense@;
        if let Some(mut group) = self.condense.remove(&key) {
            group.node = Some(id);
            let ghost g = group;
            self.condense.insert(key, group);
            proof {
                lemma_groups_insert(m, k, g);
                lemma_ever_insert(t1, protocol@, row@);
                assert(self@ =~= state::with_node(s0, k, identity@, c@, ts));
                index::indexed_after_update(s1, self@, self.index);
                assert forall|x: GroupKey| #[trigger]
                    self.condense@.contains_key(x) implies self.condense@[x].wf() by {
                    if x != k {
                        assert(m.contains_key(x));
                    }
                }
                assert forall|p: Seq<char>| #[trigger]
                    tally::counts_of(self.tallies@, p).live == state::live_of(self@.slots, p) by {
                    assert(tally::counts_of(t1, p).live == state::live_of(s1.slots, p));
                }
                assert forall|p: Seq<char>| #[trigger]
                    tally::counts_of(self.tallies@, p).bytes == state::bytes_of(
                    self@.slots,
                    p,
                ) by {
                    assert(tally::counts_of(t1, p).bytes == state::bytes_of(s1.slots, p));
                }
            }
        }
        id
    }
}

impl Aggregator {
    /// Adds a flow to the members that its group tells apart. Returns whether it
    /// is new, and whether it can no longer be counted.
    fn add_member(&mut self, key: GroupId, c: &CondenseCandidate) -> (r: (bool, bool))
        requires
            old(self).stored(),
            old(self)@.groups.contains_key(key@),
        ensures
            *final(self) == (Aggregator { condense: final(self).condense, ..*old(self) }),
            final(self).stored(),
            r.0 == state::is_new_member(old(self)@.groups[key@], c@.varying),
            r.1 == state::overflows(old(self)@.groups[key@], c@.varying),
            final(self)@.groups == if r.0 {
                let g = old(self)@.groups[key@];
                old(self)@.groups.insert(
                    key@,
                    Group { members: g.members.insert(c@.varying), ..g },
                )
            } else {
                old(self)@.groups
            },
    {
        let ghost k = key@;
        let ghost s0 = self@;
        let ghost m = self.condense@;
        assert(m.contains_key(k));
        match self.condense.remove(&key) {
            Some(mut group) => {
                let ghost g0 = group@;
                let member = Member { bytes: vstd::slice::slice_to_vec(c.varying.as_slice()) };
                let known = group.members.get(&member).is_some();
                let fresh = !known && group.member_count < CONDENSE_MEMBER_CAP;
                let lost = !known && group.member_count >= CONDENSE_MEMBER_CAP;
                if fresh {
                    let ghost before = group.members@;
                    group.members.insert(member, ());
                    group.member_count = group.member_count + 1;
                    assert(group.members@.dom() =~= before.dom().insert(c@.varying));
                }
                let ghost g1 = group;
                self.condense.insert(key, group);
                proof {
                    lemma_groups_insert(m, k, g1);
                    assert forall|x: GroupKey| #[trigger]
                        self.condense@.contains_key(x) implies self.condense@[x].wf() by {
                        if x != k {
                            assert(m.contains_key(x));
                        }
                    }
                    if !fresh {
                        assert(store::groups_view(m).insert(k, g1@) =~= store::groups_view(m));
                    }
                    index::indexed_after_update(s0, self@, self.index);
                }
                (fresh, lost)
            },
            None => (false, false),
        }
    }

    /// Lets a group's condensed node meet a flow.
    fn meet(
        &mut self,
        key: GroupId,
        id: StreamId,
        c: &CondenseCandidate,
        Ghost(b): Ghost<nat>,
    )
        requires
            old(self).sound(b),
            b < u64::MAX,
            old(self)@.groups.contains_key(key@),
        ensures
            final(self)@ == state::with_member(old(self)@, key@, id, c@),
            final(self).sound(b + 1),
    {
        let ghost s0 = self@;
        let ghost k = key@;
        proof {
            steps::meeting_a_flow_keeps(s0, k, id, c@, b);
        }
        let protocol = key.protocol;
        let (fresh, lost) = self.add_member(key, c);
        let ghost t0 = self.tallies@;
        if fresh {
            proof {
                if t0.contains_key(protocol@) {
                    assert(s0.ever.contains_key(protocol@));
                }
            }
            self.totals.streams_created = self.totals.streams_created + 1;
            self.totals.flows_condensed = self.totals.flows_condensed + 1;
            let mut row = self.tallies.get(protocol);
            row.ever = row.ever + 1;
            self.tallies.set(row);
            proof {
                lemma_ever_insert(t0, protocol@, row@);
                assert(self@.ever =~= state::counted_up(s0.ever, protocol@));
            }
        }
        let ghost s1 = self@;
        if fresh || lost {
            if self.get(id).is_some() {
                proof {
                    assert(s0.live_at(id.index as int));
                    assert(bounds::stream_within(s0.at(id.index as int), b));
                }
                let st = store::stream_mut(&mut self.slots, id.index as usize);
                let ghost before = st@;
                if let Some(info) = &mut st.condensed {
                    if fresh {
                        info.member_flows = info.member_flows + 1;
                    }
                    if lost {
                        info.overflow = true;
                    }
                }
                assert(st@ =~= state::tallied(before, fresh, lost));
            }
        }
        proof {
            assert(self@ =~= state::with_member(s0, k, id, c@));
            index::indexed_after_update(s0, self@, self.index);
            assert forall|p: Seq<char>| #[trigger]
                tally::counts_of(self.tallies@, p).live == state::live_of(self@.slots, p) by {
                assert(tally::counts_of(t0, p).live == state::live_of(s0.slots, p));
                if (fresh || lost) && s1.live(id) {
                    let st = s1.get(id)->0;
                    bounds::sums_after_put(s1, id, state::tallied(st, fresh, lost), p);
                }
            }
            assert forall|p: Seq<char>| #[trigger]
                tally::counts_of(self.tallies@, p).bytes == state::bytes_of(self@.slots, p) by {
                assert(tally::counts_of(t0, p).bytes == state::bytes_of(s0.slots, p));
                if (fresh || lost) && s1.live(id) {
                    let st = s1.get(id)->0;
                    bounds::sums_after_put(s1, id, state::tallied(st, fresh, lost), p);
                }
            }
            if (fresh || lost) && s1.live(id) {
                let st = s1.get(id)->0;
                bounds::sums_after_put(s1, id, state::tallied(st, fresh, lost), k.protocol);
            }
        }
    }

    /// Folds a flow into its anchor's condensed node, if the anchor has many
    /// flows. The node is created when the first flow is folded.
    fn condense_fold(
        &mut self,
        parent: Option<StreamId>,
        protocol: ProtocolName,
        identity: &StreamIdentity,
        c: &CondenseCandidate,
        ts: Timestamp,
        Ghost(b): Ghost<nat>,
    ) -> (r: Option<(StreamId, PacketDirection)>)
        requires
            old(self).sound(b),
            b + 2 <= u64::MAX,
            old(self)@.slots.len() < u32::MAX,
            parent is Some ==> old(self)@.live(parent->0),
            layer::in_time(ts),
        ensures
            ({
                let k = state::group_key(parent, protocol@, c@.anchor);
                match r {
                    Some((id, dir)) => state::triggered(old(self)@, k) && state::folded(
                        old(self)@,
                        k,
                        identity@,
                        c@,
                        ts,
                    ) == (Resolved { state: final(self)@, id, dir }) && final(self).sound(b + 2),
                    None => !state::triggered(old(self)@, k) && *final(self) == *old(self),
                }
            }),
    {
        let key = GroupId { parent, protocol, anchor: vstd::slice::slice_to_vec(c.anchor.as_slice()) };
        let ghost k = key@;
        let ghost s0 = self@;
        let (node, expanded): (Option<StreamId>, u64) = match self.condense.get(&key) {
            Some(group) => (group.node, group.expanded),
            None => {
                return None;
            },
        };
        assert(s0.groups[k] == self.condense@[k]@);
        if node.is_none() && expanded < self.config.condense_threshold as u64 {
            return None;
        }
        proof {
            steps::adding_a_node_keeps(s0, k, identity@, c@, ts, b);
        }
        let standing = match node {
            Some(id) => if self.get(id).is_some() {
                Some(id)
            } else {
                None
            },
            None => None,
        };
        let id: StreamId = match standing {
            Some(id) => {
                proof {
                    bounds::within_widens(s0, b, b + 1);
                }
                id
            },
            None => {
                let again = GroupId {
                    parent,
                    protocol,
                    anchor: vstd::slice::slice_to_vec(c.anchor.as_slice()),
                };
                self.create_node(again, identity, c, ts, Ghost(b))
            },
        };
        self.meet(key, id, c, Ghost(b + 1));
        Some((id, c.fold_dir))
    }

    /// One flow more in an anchor's group.
    fn enroll(&mut self, key: GroupId, Ghost(b): Ghost<nat>)
        requires
            old(self).sound(b),
            b < u64::MAX,
        ensures
            final(self)@ == state::enrolled(old(self)@, key@),
            final(self).sound(b + 1),
    {
        let ghost s0 = self@;
        let ghost k = key@;
        let ghost m = self.condense@;
        proof {
            steps::enrolling_keeps(s0, k, b);
            if m.contains_key(k) {
                assert(s0.groups.contains_key(k));
            }
        }
        let mut group = match self.condense.remove(&key) {
            Some(group) => group,
            None => CondenseGroup::new(),
        };
        group.expanded = group.expanded + 1;
        let ghost g = group;
        self.condense.insert(key, group);
        proof {
            lemma_groups_insert(m, k, g);
            assert(self@ =~= state::enrolled(s0, k));
            assert forall|x: GroupKey| #[trigger]
                self.condense@.contains_key(x) implies self.condense@[x].wf() by {
                if x != k {
                    assert(m.contains_key(x));
                }
            }
            index::indexed_after_update(s0, self@, self.index);
        }
    }
}

impl Aggregator {
    /// The stream of a conversation.
    fn find(&self, parent: Option<StreamId>, protocol: &str, key: &FlowKey) -> (r: Option<StreamId>)
        requires
            tree::numbered(self@),
            index::indexed(self@, self.index),
        ensures
            r == state::lookup(self@, parent, protocol@, key@),
    {
        let d: u64 = index::digest_of(parent, protocol, key.as_bytes());
        let handles = self.index.get(d);
        let n: usize = handles.len();
        let mut i: usize = 0;
        while i < n
            invariant
                tree::numbered(self@),
                index::indexed(self@, self.index),
                d == index::digest(parent, protocol@, key@),
                handles@ == self.index.under(d),
                n == handles@.len(),
                i <= n,
                forall|j: int|
                    0 <= j < i ==> !index::is_conversation(
                        self@.get(index::id_from(#[trigger] self.index.under(d)[j]))->0,
                        parent,
                        protocol@,
                        key@,
                    ),
            decreases n - i,
        {
            let (at, generation): (u32, u32) = handles[i];
            let id = StreamId { index: at, generation };
            assert(id == index::id_from(self.index.under(d)[i as int]));
            if let Some(st) = self.get(id) {
                if condense::same_parent(st.parent, parent) && crate::text::str_eq(
                    st.protocol,
                    protocol,
                ) && st.key.same(key) {
                    proof {
                        index::first_match_is_the_oldest(
                            self@,
                            self.index,
                            parent,
                            protocol@,
                            key@,
                            i as int,
                        );
                    }
                    return Some(id);
                }
            }
            i = i + 1;
        }
        proof {
            index::first_match_is_the_oldest(
                self@,
                self.index,
                parent,
                protocol@,
                key@,
                n as int,
            );
        }
        None
    }

    /// The first anchor whose group takes further flows in, and its node.
    fn fold_first(
        &mut self,
        parent: Option<StreamId>,
        protocol: ProtocolName,
        identity: &StreamIdentity,
        anchors: &Vec<CondenseCandidate>,
        ts: Timestamp,
        Ghost(b): Ghost<nat>,
    ) -> (r: Option<(StreamId, PacketDirection)>)
        requires
            old(self).sound(b),
            b + 2 <= u64::MAX,
            old(self)@.slots.len() < u32::MAX,
            parent is Some ==> old(self)@.live(parent->0),
            layer::in_time(ts),
        ensures
            ({
                let list = condense::candidates_view(anchors@);
                match state::fold_at(old(self)@, parent, protocol@, list, 0) {
                    Some(i) => r is Some && state::folded(
                        old(self)@,
                        state::group_key(parent, protocol@, list[i].anchor),
                        identity@,
                        list[i],
                        ts,
                    ) == (Resolved { state: final(self)@, id: (r->0).0, dir: (r->0).1 })
                        && final(self).sound(b + 2),
                    None => r is None && *final(self) == *old(self),
                }
            }),
    {
        let ghost list = condense::candidates_view(anchors@);
        let n: usize = anchors.len();
        let mut i: usize = 0;
        while i < n
            invariant
                *self == *old(self),
                self.sound(b),
                b + 2 <= u64::MAX,
                self@.slots.len() < u32::MAX,
                parent is Some ==> self@.live(parent->0),
                layer::in_time(ts),
                n == anchors@.len(),
                list == condense::candidates_view(anchors@),
                i <= n,
                state::fold_at(self@, parent, protocol@, list, 0) == state::fold_at(
                    self@,
                    parent,
                    protocol@,
                    list,
                    i as int,
                ),
            decreases n - i,
        {
            assert(list[i as int] == anchors@[i as int]@);
            if let Some(r) = self.condense_fold(
                parent,
                protocol,
                identity,
                &anchors[i],
                ts,
                Ghost(b),
            ) {
                return Some(r);
            }
            i = i + 1;
        }
        None
    }

    /// One flow more in the group of each anchor.
    fn enroll_all(
        &mut self,
        parent: Option<StreamId>,
        protocol: ProtocolName,
        anchors: &Vec<CondenseCandidate>,
        Ghost(b): Ghost<nat>,
    )
        requires
            old(self).sound(b),
            b + anchors@.len() <= u64::MAX,
        ensures
            final(self)@ == state::enrolled_all(
                old(self)@,
                parent,
                protocol@,
                condense::candidates_view(anchors@),
                anchors@.len() as int,
            ),
            final(self).sound(b + anchors@.len()),
    {
        let ghost list = condense::candidates_view(anchors@);
        let n: usize = anchors.len();
        let mut i: usize = 0;
        while i < n
            invariant
                n == anchors@.len(),
                list == condense::candidates_view(anchors@),
                i <= n,
                b + n <= u64::MAX,
                self.sound(b + i as nat),
                self@ == state::enrolled_all(old(self)@, parent, protocol@, list, i as int),
            decreases n - i,
        {
            let key = GroupId {
                parent,
                protocol,
                anchor: vstd::slice::slice_to_vec(anchors[i].anchor.as_slice()),
            };
            assert(list[i as int] == anchors@[i as int]@);
            self.enroll(key, Ghost(b + i as nat));
            i = i + 1;
        }
    }

    /// The stream of a layer, and the direction to count the packet in: the
    /// flow's own, or the one relative to the anchor where the flow was folded
    /// into a condensed node.
    pub(super) fn get_or_insert(
        &mut self,
        parent: Option<StreamId>,
        key: FlowKey,
        identity: &StreamIdentity,
        condense: Option<CondenseSpec>,
        layer: &LayerRecord,
        dir: PacketDirection,
        ts: Timestamp,
        Ghost(b): Ghost<nat>,
    ) -> (r: (StreamId, PacketDirection))
        requires
            old(self).sound(b),
            b + 3 <= u64::MAX,
            old(self)@.slots.len() < u32::MAX,
            parent is Some ==> old(self)@.live(parent->0),
            layer::in_time(ts),
        ensures
            state::resolved(
                old(self)@,
                parent,
                key@,
                (Rules { identity: Some(identity@), condense }),
                layer@,
                dir,
                ts,
            ) == (Resolved { state: final(self)@, id: r.0, dir: r.1 }),
            final(self).sound(b + 3),
    {
        let ghost rules = Rules { identity: Some(identity@), condense };
        proof {
            steps::resolving_keeps(self@, parent, key@, rules, layer@, dir, ts, b);
        }
        if let Some(id) = self.find(parent, layer.protocol, &key) {
            return (id, dir);
        }
        let anchors = match condense {
            Some(spec_) => if self.config.condense_threshold > 0 {
                condense::condense_candidates(identity, &spec_, &layer.fields)
            } else {
                None
            },
            None => None,
        };
        match anchors {
            Some(anchors) => {
                if let Some(r) = self.fold_first(
                    parent,
                    layer.protocol,
                    identity,
                    &anchors,
                    ts,
                    Ghost(b),
                ) {
                    return r;
                }
                let id = self.create_stream(parent, key, identity, layer, dir, ts, Ghost(b));
                self.enroll_all(parent, layer.protocol, &anchors, Ghost(b + 1));
                (id, dir)
            },
            None => (self.create_stream(parent, key, identity, layer, dir, ts, Ghost(b)), dir),
        }
    }
}

} // verus!

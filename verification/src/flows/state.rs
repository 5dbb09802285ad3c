//! What the aggregator's state is and how each packet changes it, as
//! mathematics. The aggregator's contracts are stated over these functions.
use vstd::multiset::Multiset;
use vstd::prelude::*;

use crate::engine::{self, Registration, Rules};
use crate::flows::heap::{self, Entry};
use crate::flows::key;
use crate::flows::rollup::{self, Rollups};
use crate::flows::stream::{
    self, CloseReason, Condensed, DirStats, StreamId, StreamView,
};
use crate::flows::unknown::{
    self, Endpoint, Occurrence, Register, UnknownRegistryConfig,
};
use crate::identity::{CondenseSpec, Identity, KeyField, PacketDirection};
use crate::layer::{self, Duration, LayerView, PacketMeta, Timestamp};
use crate::packet::{Packet, StopClass};
use crate::value::{Fields, ValueView};

verus! {

/// When streams leave memory.
#[derive(Clone, Copy, PartialEq, Eq, Debug, Structural)]
pub enum EvictionPolicy {
    /// Never: everything stays until the end of the capture.
    Never,
    Live {
        /// A stream without packets for this long goes.
        idle_timeout: Duration,
        /// A stream whose session is over goes after this long.
        close_linger: Duration,
        /// The most streams that stay; the least recently updated go first.
        max_streams: usize,
    },
}

/// The aggregator's settings.
#[derive(Clone, Copy, PartialEq, Eq, Debug, Structural)]
pub struct AggregatorConfig {
    pub eviction: EvictionPolicy,
    /// Whether streams that are closed or evicted are kept for the caller to
    /// collect.
    pub sink: bool,
    /// The number of live flows of one anchor beyond which further ones are
    /// condensed; zero condenses none.
    pub condense_threshold: usize,
    /// The cap of series that declare none.
    pub rollup_series_default_cap: usize,
    /// A limit for the cap of every series.
    pub rollup_series_max_cap: Option<usize>,
    /// The bounds of the register of unknown payloads.
    pub unknown: UnknownRegistryConfig,
}

/// The number of flows of one anchor that are shown one by one, unless set
/// otherwise.
pub const DEFAULT_CONDENSE_THRESHOLD: usize = 256;

impl Default for AggregatorConfig {
    fn default() -> (r: AggregatorConfig)
        ensures
            r.eviction is Never,
            !r.sink,
            r.condense_threshold == DEFAULT_CONDENSE_THRESHOLD,
            r.rollup_series_default_cap == 1024,
            r.rollup_series_max_cap is None,
            r.unknown == (UnknownRegistryConfig {
                max_groups: 500,
                samples_per_group: 5,
            }),
    {
        AggregatorConfig {
            eviction: EvictionPolicy::Never,
            sink: false,
            condense_threshold: DEFAULT_CONDENSE_THRESHOLD,
            rollup_series_default_cap: 1024,
            rollup_series_max_cap: None,
            unknown: UnknownRegistryConfig::default(),
        }
    }
}

/// Counts that eviction does not change.
#[derive(Clone, Copy, PartialEq, Eq, Debug, Structural)]
pub struct Totals {
    pub packets: u64,
    pub bytes: u64,
    /// Flows, those that were condensed among them.
    pub streams_created: u64,
    /// Flows that were folded into condensed nodes.
    pub flows_condensed: u64,
    /// Layers whose key could not be built.
    pub key_errors: u64,
}

impl Default for Totals {
    fn default() -> (r: Totals)
        ensures
            r == (Totals {
                packets: 0,
                bytes: 0,
                streams_created: 0,
                flows_condensed: 0,
                key_errors: 0,
            }),
    {
        Totals {
            packets: 0,
            bytes: 0,
            streams_created: 0,
            flows_condensed: 0,
            key_errors: 0,
        }
    }
}

/// A slot: how often it was reused, and the stream in it.
pub ghost struct Slot {
    pub generation: u32,
    pub stream: Option<StreamView>,
}

/// The flows of one anchor.
pub ghost struct Group {
    /// Live flows that are streams of their own.
    pub expanded: u64,
    /// The condensed node, once there is one.
    pub node: Option<StreamId>,
    /// The encodings of the other sides of the flows that were folded in.
    pub members: Set<Seq<u8>>,
}

/// What a group of flows has in common: parent, protocol, and the encoding of
/// every key component but the varying side.
pub ghost struct GroupKey {
    pub parent: Option<StreamId>,
    pub protocol: Seq<char>,
    pub anchor: Seq<u8>,
}

/// A stream that left, and why.
pub ghost struct Evicted {
    pub stream: StreamView,
    pub reason: CloseReason,
}

/// The aggregator's state.
#[verifier::ext_equal]
pub ghost struct State {
    pub protocols: Seq<Registration>,
    pub config: AggregatorConfig,
    pub slots: Seq<Slot>,
    /// Slots to reuse, the next one last.
    pub free: Seq<u32>,
    /// Streams without a parent.
    pub roots: Seq<StreamId>,
    pub totals: Totals,
    /// The latest packet time.
    pub clock: Timestamp,
    pub next_seq: u64,
    /// Packets by the kind of their end.
    pub stop_classes: Seq<u64>,
    /// Flows ever created, by protocol.
    pub ever: Map<Seq<char>, u64>,
    /// When streams may become due. Entries may be out of date.
    pub expiry: Multiset<Entry>,
    /// Candidates for the cap on streams. Entries may be out of date.
    pub lru: Multiset<Entry>,
    pub unknowns: Register,
    pub groups: Map<GroupKey, Group>,
    /// Streams that left and were not collected yet.
    pub evicted: Seq<Evicted>,
    /// A bound of every count.
    pub load: nat,
}

impl State {
    pub open spec fn live(self, id: StreamId) -> bool {
        &&& id.index < self.slots.len()
        &&& self.slots[id.index as int].generation == id.generation
        &&& self.slots[id.index as int].stream is Some
    }

    /// The stream of a handle, unless the handle is out of date.
    pub open spec fn get(self, id: StreamId) -> Option<StreamView> {
        if self.live(id) {
            self.slots[id.index as int].stream
        } else {
            None
        }
    }

    /// Whether there is a stream in slot `i`.
    pub open spec fn live_at(self, i: int) -> bool {
        0 <= i < self.slots.len() && self.slots[i].stream is Some
    }

    /// The stream in slot `i`.
    pub open spec fn at(self, i: int) -> StreamView {
        self.slots[i].stream->0
    }

    /// The state with another record of the stream in a handle's slot.
    pub open spec fn put(self, id: StreamId, st: StreamView) -> State {
        let i = id.index as int;
        State {
            slots: self.slots.update(
                i,
                Slot { generation: self.slots[i].generation, stream: Some(st) },
            ),
            ..self
        }
    }

    pub open spec fn rules(self, protocol: Seq<char>) -> Option<Rules> {
        engine::named(self.protocols, protocol, 0)
    }
}

/// A new aggregator's state.
pub open spec fn initial(protocols: Seq<Registration>, config: AggregatorConfig) -> State {
    State {
        protocols,
        config,
        slots: Seq::empty(),
        free: Seq::empty(),
        roots: Seq::empty(),
        totals: Totals {
            packets: 0,
            bytes: 0,
            streams_created: 0,
            flows_condensed: 0,
            key_errors: 0,
        },
        clock: 0,
        next_seq: 0,
        stop_classes: seq![0, 0, 0, 0],
        ever: Map::empty(),
        expiry: Multiset::empty(),
        lru: Multiset::empty(),
        unknowns: unknown::empty_register(),
        groups: Map::empty(),
        evicted: Seq::empty(),
        load: 0,
    }
}

/// The sum of a quantity over all slots.
pub open spec fn total(slots: Seq<Slot>, quantity: spec_fn(Slot) -> int) -> int
    decreases slots.len(),
{
    if slots.len() == 0 {
        0
    } else {
        total(slots.drop_last(), quantity) + quantity(slots.last())
    }
}

/// The number of live streams.
pub open spec fn live_count(slots: Seq<Slot>) -> int {
    total(
        slots,
        |x: Slot|
            if x.stream is Some {
                1int
            } else {
                0int
            },
    )
}

/// Bytes of both directions.
pub open spec fn stream_bytes(st: StreamView) -> int {
    st.stats[0].bytes + st.stats[1].bytes
}

/// Packets of both directions.
pub open spec fn stream_packets(st: StreamView) -> int {
    st.stats[0].packets + st.stats[1].packets
}

/// Whether a slot has a stream of a protocol.
pub open spec fn is_of(slot: Slot, protocol: Seq<char>) -> bool {
    slot.stream is Some && slot.stream->0.protocol == protocol
}

/// The number of live streams of a protocol.
pub open spec fn live_of(slots: Seq<Slot>, protocol: Seq<char>) -> int {
    total(
        slots,
        |x: Slot|
            if is_of(x, protocol) {
                1int
            } else {
                0int
            },
    )
}

/// The bytes of the live streams of a protocol.
pub open spec fn bytes_of(slots: Seq<Slot>, protocol: Seq<char>) -> int {
    total(
        slots,
        |x: Slot|
            if is_of(x, protocol) {
                stream_bytes(x.stream->0)
            } else {
                0int
            },
    )
}

/// The packets of the live streams of a protocol.
pub open spec fn packets_of(slots: Seq<Slot>, protocol: Seq<char>) -> int {
    total(
        slots,
        |x: Slot|
            if is_of(x, protocol) {
                stream_packets(x.stream->0)
            } else {
                0int
            },
    )
}

// ---------------------------------------------------------------------------
// Looking a stream up

/// Whether slot `i` has the stream of a conversation.
pub open spec fn matches(
    s: State,
    i: int,
    parent: Option<StreamId>,
    protocol: Seq<char>,
    key: Seq<u8>,
) -> bool {
    s.live_at(i) && s.at(i).parent == parent && s.at(i).protocol == protocol && s.at(i).key == key
}

/// Whether slot `i` has the oldest stream of a conversation.
pub open spec fn oldest(
    s: State,
    i: int,
    parent: Option<StreamId>,
    protocol: Seq<char>,
    key: Seq<u8>,
) -> bool {
    &&& matches(s, i, parent, protocol, key)
    &&& forall|j: int| #[trigger]
        matches(s, j, parent, protocol, key) ==> s.at(i).created_seq <= s.at(j).created_seq
}

/// The stream of a conversation: its parent, its protocol and its key.
pub open spec fn lookup(
    s: State,
    parent: Option<StreamId>,
    protocol: Seq<char>,
    key: Seq<u8>,
) -> Option<StreamId> {
    if exists|i: int| oldest(s, i, parent, protocol, key) {
        Some(s.at(choose|i: int| oldest(s, i, parent, protocol, key)).id)
    } else {
        None
    }
}

// ---------------------------------------------------------------------------
// Creating a stream

/// A stream's first values.
pub ghost struct Newcomer {
    pub parent: Option<StreamId>,
    pub protocol: Seq<char>,
    pub key: Seq<u8>,
    pub key_fields: Fields,
    pub state: Option<Seq<char>>,
    pub rollups: Rollups,
    pub condensed: Option<Condensed>,
    pub dir: PacketDirection,
    pub ts: Timestamp,
}

/// The handle that the next stream gets: the slot to reuse, or a new one.
pub open spec fn next_id(s: State) -> StreamId {
    if s.free.len() > 0 {
        let i = s.free.last();
        StreamId { index: i, generation: s.slots[i as int].generation }
    } else {
        StreamId { index: s.slots.len() as u32, generation: 0 }
    }
}

pub open spec fn no_stats() -> DirStats {
    DirStats { packets: 0, bytes: 0 }
}

/// The record of a new stream.
pub open spec fn record(n: Newcomer, id: StreamId, seq: u64) -> StreamView {
    StreamView {
        id,
        protocol: n.protocol,
        key: n.key,
        key_fields: n.key_fields,
        parent: n.parent,
        children: Seq::empty(),
        initiator: n.dir,
        first_seen: n.ts,
        last_seen: n.ts,
        stats: seq![no_stats(), no_stats()],
        opaque_bytes: 0,
        state: n.state,
        rollups: n.rollups,
        closed: None,
        close_eligible: false,
        close_eligible_since: None,
        created_seq: seq,
        condensed: n.condensed,
    }
}

pub open spec fn counted_up(ever: Map<Seq<char>, u64>, protocol: Seq<char>) -> Map<Seq<char>, u64> {
    if ever.contains_key(protocol) {
        ever.insert(protocol, (ever[protocol] + 1) as u64)
    } else {
        ever.insert(protocol, 1)
    }
}

/// The slots with a stream at a handle: in a slot that is reused, or in a new
/// one at the end.
pub open spec fn placed(slots: Seq<Slot>, id: StreamId, st: StreamView) -> Seq<Slot> {
    let i = id.index as int;
    if i < slots.len() {
        slots.update(i, Slot { generation: slots[i].generation, stream: Some(st) })
    } else {
        slots.push(Slot { generation: 0, stream: Some(st) })
    }
}

/// The state with a child more for `parent`, or a root more where there is no
/// such stream.
pub open spec fn attached(s: State, parent: Option<StreamId>, id: StreamId) -> State {
    if parent is Some && s.live(parent->0) {
        let p = s.get(parent->0)->0;
        s.put(parent->0, StreamView { children: p.children.push(id), ..p })
    } else {
        State { roots: s.roots.push(id), ..s }
    }
}

/// The queues with entries for a new stream.
pub open spec fn armed(s: State, id: StreamId, ts: Timestamp, seq: u64) -> State {
    match s.config.eviction {
        EvictionPolicy::Live { idle_timeout, .. } => State {
            expiry: s.expiry.insert(
                Entry {
                    time: (ts + idle_timeout) as i128,
                    seq: 0,
                    index: id.index,
                    generation: id.generation,
                },
            ),
            lru: s.lru.insert(
                Entry { time: ts, seq, index: id.index, generation: id.generation },
            ),
            ..s
        },
        EvictionPolicy::Never => s,
    }
}

/// The state with a new stream.
pub open spec fn created(s: State, n: Newcomer) -> State {
    let id = next_id(s);
    let with_record = State {
        slots: placed(s.slots, id, record(n, id, s.next_seq)),
        free: if s.free.len() > 0 {
            s.free.drop_last()
        } else {
            s.free
        },
        totals: Totals { streams_created: (s.totals.streams_created + 1) as u64, ..s.totals },
        next_seq: (s.next_seq + 1) as u64,
        ever: counted_up(s.ever, n.protocol),
        ..s
    };
    armed(attached(with_record, n.parent, id), id, n.ts, s.next_seq)
}

/// The key-named fields of a layer, of the first `n` key components.
pub open spec fn key_fields(key: Seq<KeyField>, n: int, fields: Fields) -> Fields
    decreases n,
{
    if n <= 0 {
        Map::empty()
    } else {
        let f = key_fields(key, n - 1, fields);
        let kf = key[n - 1];
        let f = if fields.contains_key(kf.a@) {
            f.insert(kf.a@, fields[kf.a@])
        } else {
            f
        };
        if kf.b is Some && fields.contains_key(kf.b->0@) {
            f.insert(kf.b->0@, fields[kf.b->0@])
        } else {
            f
        }
    }
}

pub open spec fn slots_for(s: State, identity: Identity) -> Rollups {
    rollup::empty_slots(
        identity.rollups,
        s.config.rollup_series_default_cap,
        s.config.rollup_series_max_cap,
    )
}

/// The first values of a flow's own stream.
pub open spec fn flow(
    s: State,
    parent: Option<StreamId>,
    key: Seq<u8>,
    identity: Identity,
    layer: LayerView,
    dir: PacketDirection,
    ts: Timestamp,
) -> Newcomer {
    Newcomer {
        parent,
        protocol: layer.protocol,
        key,
        key_fields: key_fields(identity.key, identity.key.len() as int, layer.fields),
        state: match identity.lifecycle {
            Some(l) => Some(l.initial),
            None => None,
        },
        rollups: slots_for(s, identity),
        condensed: None,
        dir,
        ts,
    }
}

// ---------------------------------------------------------------------------
// Condensing

/// One side of a flow as the anchor of a group.
pub ghost struct Candidate {
    /// The encoding of what the group's flows have in common.
    pub anchor: Seq<u8>,
    pub field: Seq<char>,
    pub value: ValueView,
    /// The other side's encoding, which tells the group's flows apart.
    pub varying: Seq<u8>,
    /// The packet's direction, where A is the anchor.
    pub dir: PacketDirection,
}

/// Whether two key components name the same fields.
pub open spec fn same_component(a: KeyField, b: KeyField) -> bool {
    a.a@ == b.a@ && match (a.b, b.b) {
        (Some(x), Some(y)) => x@ == y@,
        (None, None) => true,
        _ => false,
    }
}

/// The encoding of the first `n` key components but the ephemeral pair, with
/// the smaller side of each pair first.
pub open spec fn common(
    key: Seq<KeyField>,
    n: int,
    ephemeral: KeyField,
    fields: Fields,
) -> Option<Seq<u8>>
    decreases n,
{
    if n <= 0 {
        Some(Seq::empty())
    } else {
        match common(key, n - 1, ephemeral, fields) {
            None => None,
            Some(prefix) => {
                let kf = key[n - 1];
                if same_component(kf, ephemeral) {
                    Some(prefix)
                } else if !fields.contains_key(kf.a@) {
                    None
                } else {
                    let ea = key::encoding(fields[kf.a@]);
                    match kf.b {
                        None => Some(prefix + ea),
                        Some(b) => if !fields.contains_key(b@) {
                            None
                        } else {
                            let eb = key::encoding(fields[b@]);
                            Some(
                                if key::lex_le(ea, eb) {
                                    prefix + ea + eb
                                } else {
                                    prefix + eb + ea
                                },
                            )
                        },
                    }
                }
            },
        }
    }
}

/// The anchors of a flow: one per side of its ephemeral pair, and only one where
/// the sides are equal. None where a key field is missing.
pub open spec fn candidates(
    identity: Identity,
    spec_: CondenseSpec,
    fields: Fields,
) -> Option<Seq<Candidate>> {
    let eph = spec_.ephemeral;
    if eph.b is None || !fields.contains_key(eph.a@) || !fields.contains_key(eph.b->0@) {
        None
    } else {
        let va = fields[eph.a@];
        let vb = fields[eph.b->0@];
        let ea = key::encoding(va);
        let eb = key::encoding(vb);
        match common(identity.key, identity.key.len() as int, eph, fields) {
            None => None,
            Some(prefix) => {
                let first = Candidate {
                    anchor: prefix + ea,
                    field: eph.a@,
                    value: va,
                    varying: eb,
                    dir: PacketDirection::AtoB,
                };
                let second = Candidate {
                    anchor: prefix + eb,
                    field: eph.b->0@,
                    value: vb,
                    varying: ea,
                    dir: PacketDirection::BtoA,
                };
                Some(
                    if ea == eb {
                        seq![first]
                    } else {
                        seq![first, second]
                    },
                )
            },
        }
    }
}

pub open spec fn group_key(
    parent: Option<StreamId>,
    protocol: Seq<char>,
    anchor: Seq<u8>,
) -> GroupKey {
    GroupKey { parent, protocol, anchor }
}

/// The first byte of a condensed node's key. No encoding starts with it.
pub const CONDENSED_KEY_SENTINEL: u8 = 0xFE;

/// The most flows that a group tells apart.
pub const CONDENSE_MEMBER_CAP: usize = 65_536;

/// The anchor in a condensed node's key: what stands behind the first byte.
pub open spec fn anchor_in(key: Seq<u8>) -> Seq<u8> {
    if key.len() > 0 {
        key.skip(1)
    } else {
        key
    }
}

/// Whether a group takes further flows in.
pub open spec fn triggered(s: State, k: GroupKey) -> bool {
    &&& s.groups.contains_key(k)
    &&& s.groups[k].node is Some || s.groups[k].expanded >= s.config.condense_threshold
}

/// The first values of a group's condensed node.
pub open spec fn node(
    s: State,
    parent: Option<StreamId>,
    protocol: Seq<char>,
    identity: Identity,
    c: Candidate,
    ts: Timestamp,
) -> Newcomer {
    Newcomer {
        parent,
        protocol,
        key: seq![CONDENSED_KEY_SENTINEL] + c.anchor,
        key_fields: Map::<Seq<char>, ValueView>::empty().insert(c.field, c.value),
        state: None,
        rollups: slots_for(s, identity),
        condensed: Some(
            Condensed { member_flows: 0, ephemeral_field: c.field, overflow: false },
        ),
        dir: c.dir,
        ts,
    }
}

/// Whether a group's condensed node is there.
pub open spec fn has_node(s: State, k: GroupKey) -> bool {
    s.groups[k].node is Some && s.live(s.groups[k].node->0)
}

/// The state with a condensed node for a group. The node itself is no flow, so
/// it is not counted as one.
pub open spec fn with_node(
    s: State,
    k: GroupKey,
    identity: Identity,
    c: Candidate,
    ts: Timestamp,
) -> State {
    if has_node(s, k) {
        s
    } else {
        let id = next_id(s);
        let t = created(s, node(s, k.parent, k.protocol, identity, c, ts));
        State {
            totals: Totals { streams_created: (t.totals.streams_created - 1) as u64, ..t.totals },
            ever: t.ever.insert(k.protocol, (t.ever[k.protocol] - 1) as u64),
            groups: t.groups.insert(k, Group { node: Some(id), ..t.groups[k] }),
            ..t
        }
    }
}

/// Whether a group counts a flow that it has not met.
pub open spec fn is_new_member(g: Group, varying: Seq<u8>) -> bool {
    g.members.len() < CONDENSE_MEMBER_CAP && !g.members.contains(varying)
}

/// Whether a group meets a flow that it can no longer count.
pub open spec fn overflows(g: Group, varying: Seq<u8>) -> bool {
    g.members.len() >= CONDENSE_MEMBER_CAP && !g.members.contains(varying)
}

/// A condensed node after it met a flow.
pub open spec fn tallied(st: StreamView, new_member: bool, overflow: bool) -> StreamView {
    match st.condensed {
        Some(info) => StreamView {
            condensed: Some(
                Condensed {
                    member_flows: if new_member {
                        (info.member_flows + 1) as u64
                    } else {
                        info.member_flows
                    },
                    overflow: info.overflow || overflow,
                    ..info
                },
            ),
            ..st
        },
        None => st,
    }
}

/// The state after a group's condensed node met a flow.
pub open spec fn with_member(s: State, k: GroupKey, id: StreamId, c: Candidate) -> State {
    let g = s.groups[k];
    let fresh = is_new_member(g, c.varying);
    let lost = overflows(g, c.varying);
    let t = if fresh {
        State {
            groups: s.groups.insert(k, Group { members: g.members.insert(c.varying), ..g }),
            totals: Totals {
                streams_created: (s.totals.streams_created + 1) as u64,
                flows_condensed: (s.totals.flows_condensed + 1) as u64,
                ..s.totals
            },
            ever: counted_up(s.ever, k.protocol),
            ..s
        }
    } else {
        s
    };
    if (fresh || lost) && t.live(id) {
        t.put(id, tallied(t.get(id)->0, fresh, lost))
    } else {
        t
    }
}

/// What a layer was resolved to: the state, its stream and the direction to
/// count the packet in.
pub ghost struct Resolved {
    pub state: State,
    pub id: StreamId,
    pub dir: PacketDirection,
}

/// A flow folded into its anchor's condensed node.
pub open spec fn folded(
    s: State,
    k: GroupKey,
    identity: Identity,
    c: Candidate,
    ts: Timestamp,
) -> Resolved {
    let t = with_node(s, k, identity, c, ts);
    let id = t.groups[k].node->0;
    Resolved { state: with_member(t, k, id, c), id, dir: c.dir }
}

/// One flow more in an anchor's group.
pub open spec fn enrolled(s: State, k: GroupKey) -> State {
    let g = if s.groups.contains_key(k) {
        s.groups[k]
    } else {
        Group { expanded: 0, node: None, members: Set::empty() }
    };
    State { groups: s.groups.insert(k, Group { expanded: (g.expanded + 1) as u64, ..g }), ..s }
}

/// One flow more in the groups of the first `n` anchors.
pub open spec fn enrolled_all(
    s: State,
    parent: Option<StreamId>,
    protocol: Seq<char>,
    anchors: Seq<Candidate>,
    n: int,
) -> State
    decreases n,
{
    if n <= 0 {
        s
    } else {
        enrolled(
            enrolled_all(s, parent, protocol, anchors, n - 1),
            group_key(parent, protocol, anchors[n - 1].anchor),
        )
    }
}

/// The first anchor from `i` on whose group takes further flows in.
pub open spec fn fold_at(
    s: State,
    parent: Option<StreamId>,
    protocol: Seq<char>,
    anchors: Seq<Candidate>,
    i: int,
) -> Option<int>
    decreases anchors.len() - i,
{
    if i < 0 || i >= anchors.len() {
        None
    } else if triggered(s, group_key(parent, protocol, anchors[i].anchor)) {
        Some(i)
    } else {
        fold_at(s, parent, protocol, anchors, i + 1)
    }
}

/// The anchors of a layer that may be condensed; none where condensing is off.
pub open spec fn anchors_of(s: State, rules: Rules, fields: Fields) -> Option<Seq<Candidate>> {
    if s.config.condense_threshold == 0 || rules.condense is None || rules.identity is None {
        None
    } else {
        candidates(rules.identity->0, rules.condense->0, fields)
    }
}

/// The stream of a layer: the one that is there, the condensed node of an anchor
/// with many flows, or a new one.
pub open spec fn resolved(
    s: State,
    parent: Option<StreamId>,
    key: Seq<u8>,
    rules: Rules,
    layer: LayerView,
    dir: PacketDirection,
    ts: Timestamp,
) -> Resolved {
    let identity = rules.identity->0;
    match lookup(s, parent, layer.protocol, key) {
        Some(id) => Resolved { state: s, id, dir },
        None => {
            let fresh = created(s, flow(s, parent, key, identity, layer, dir, ts));
            match anchors_of(s, rules, layer.fields) {
                None => Resolved { state: fresh, id: next_id(s), dir },
                Some(anchors) => match fold_at(s, parent, layer.protocol, anchors, 0) {
                    Some(i) => folded(
                        s,
                        group_key(parent, layer.protocol, anchors[i].anchor),
                        identity,
                        anchors[i],
                        ts,
                    ),
                    None => Resolved {
                        state: enrolled_all(
                            fresh,
                            parent,
                            layer.protocol,
                            anchors,
                            anchors.len() as int,
                        ),
                        id: next_id(s),
                        dir,
                    },
                },
            }
        },
    }
}

// ---------------------------------------------------------------------------
// Eviction

/// When a stream becomes due: it has been idle for too long or, where its
/// session is over, has lingered for long enough.
pub open spec fn deadline(s: State, id: StreamId) -> Option<int> {
    match s.config.eviction {
        EvictionPolicy::Live { idle_timeout, close_linger, .. } => match s.get(id) {
            Some(st) => {
                let idle = st.last_seen + idle_timeout;
                match st.close_eligible_since {
                    Some(since) => if since + close_linger < idle {
                        Some(since + close_linger)
                    } else {
                        Some(idle)
                    },
                    None => Some(idle),
                }
            },
            None => None,
        },
        EvictionPolicy::Never => None,
    }
}

/// `ids` without one handle.
pub open spec fn without(ids: Seq<StreamId>, id: StreamId) -> Seq<StreamId>
    decreases ids.len(),
{
    if ids.len() == 0 {
        ids
    } else if ids.last() == id {
        without(ids.drop_last(), id)
    } else {
        without(ids.drop_last(), id).push(ids.last())
    }
}

/// One flow less in an anchor's group. A group without flows and without a node
/// is forgotten.
pub open spec fn struck(groups: Map<GroupKey, Group>, k: GroupKey) -> Map<GroupKey, Group> {
    if !groups.contains_key(k) {
        groups
    } else {
        let g = groups[k];
        let left: u64 = if g.expanded == 0 {
            0
        } else {
            (g.expanded - 1) as u64
        };
        if left == 0 && g.node is None {
            groups.remove(k)
        } else {
            groups.insert(k, Group { expanded: left, ..g })
        }
    }
}

/// One flow less in the groups of the first `n` anchors.
pub open spec fn struck_all(
    groups: Map<GroupKey, Group>,
    parent: Option<StreamId>,
    protocol: Seq<char>,
    anchors: Seq<Candidate>,
    n: int,
) -> Map<GroupKey, Group>
    decreases n,
{
    if n <= 0 {
        groups
    } else {
        struck(
            struck_all(groups, parent, protocol, anchors, n - 1),
            group_key(parent, protocol, anchors[n - 1].anchor),
        )
    }
}

/// The groups after a stream left: a condensed node takes its group along, a
/// flow is struck from its anchors' groups.
pub open spec fn groups_without(s: State, st: StreamView) -> Map<GroupKey, Group> {
    if s.config.condense_threshold == 0 {
        s.groups
    } else if st.condensed is Some {
        s.groups.remove(group_key(st.parent, st.protocol, anchor_in(st.key)))
    } else {
        match s.rules(st.protocol) {
            None => s.groups,
            Some(rules) => match anchors_of(s, rules, st.key_fields) {
                None => s.groups,
                Some(anchors) => struck_all(
                    s.groups,
                    st.parent,
                    st.protocol,
                    anchors,
                    anchors.len() as int,
                ),
            },
        }
    }
}

pub open spec fn next_generation(g: u32) -> u32 {
    if g == u32::MAX {
        0
    } else {
        (g + 1) as u32
    }
}

/// The state after a stream's parent lost it: the parent may now be a leaf, so it
/// is armed anew.
pub open spec fn detached(s: State, parent: Option<StreamId>, id: StreamId) -> State {
    match parent {
        None => State { roots: without(s.roots, id), ..s },
        Some(p) => match s.get(p) {
            None => s,
            Some(st) => {
                let t = s.put(p, StreamView { children: without(st.children, id), ..st });
                State {
                    expiry: match deadline(t, p) {
                        Some(d) => t.expiry.insert(
                            Entry {
                                time: d as i128,
                                seq: 0,
                                index: p.index,
                                generation: p.generation,
                            },
                        ),
                        None => t.expiry,
                    },
                    lru: t.lru.insert(
                        Entry {
                            time: st.last_seen,
                            seq: st.created_seq,
                            index: p.index,
                            generation: p.generation,
                        },
                    ),
                    ..t
                }
            },
        },
    }
}

/// The state with a stream handed out, if the caller collects them.
pub open spec fn emitted(s: State, st: StreamView, reason: CloseReason) -> State {
    if s.config.sink {
        State {
            evicted: s.evicted.push(
                Evicted { stream: StreamView { closed: Some(reason), ..st }, reason },
            ),
            ..s
        }
    } else {
        s
    }
}

/// The state without a stream.
pub open spec fn evict(s: State, id: StreamId, reason: CloseReason) -> State {
    match s.get(id) {
        None => s,
        Some(st) => {
            let i = id.index as int;
            let gone = State {
                slots: s.slots.update(
                    i,
                    Slot {
                        generation: next_generation(s.slots[i].generation),
                        stream: None,
                    },
                ),
                free: s.free.push(id.index),
                groups: groups_without(s, st),
                ..s
            };
            emitted(detached(gone, st.parent, id), st, reason)
        },
    }
}

/// The handle of a queue entry.
pub open spec fn id_of(e: Entry) -> StreamId {
    StreamId { index: e.index, generation: e.generation }
}

/// Whether the earliest expiry entry is due.
pub open spec fn sweepable(s: State) -> bool {
    &&& s.config.eviction is Live
    &&& s.expiry.len() > 0
    &&& heap::first(s.expiry).time <= s.clock
}

/// Why a due stream leaves.
pub open spec fn due_reason(s: State, st: StreamView) -> CloseReason {
    match st.close_eligible_since {
        Some(since) => if since + s.config.eviction->close_linger <= s.clock {
            CloseReason::ProtocolClose
        } else {
            CloseReason::IdleTimeout
        },
        None => CloseReason::IdleTimeout,
    }
}

/// One due entry taken: an entry that is out of date is renewed, a stream with
/// children stays, a leaf leaves.
pub open spec fn sweep_step(s: State) -> State {
    let e = heap::first(s.expiry);
    let id = id_of(e);
    let t = State { expiry: s.expiry.remove(e), ..s };
    match deadline(t, id) {
        None => t,
        Some(d) => if d > t.clock {
            State { expiry: t.expiry.insert(Entry { time: d as i128, ..e }), ..t }
        } else if t.get(id)->0.children.len() > 0 {
            t
        } else {
            evict(t, id, due_reason(t, t.get(id)->0))
        },
    }
}

/// Whether the cap on streams is exceeded and there is a candidate.
pub open spec fn over_cap(s: State) -> bool {
    &&& s.config.eviction is Live
    &&& live_count(s.slots) > s.config.eviction->max_streams
    &&& s.lru.len() > 0
}

/// One candidate taken: an entry that is out of date is renewed, one without a
/// leaf is dropped, the least recently updated leaf leaves.
pub open spec fn cap_step(s: State) -> State {
    let e = heap::first(s.lru);
    let id = id_of(e);
    let t = State { lru: s.lru.remove(e), ..s };
    match t.get(id) {
        None => t,
        Some(st) => if st.children.len() > 0 {
            t
        } else if st.last_seen != e.time || st.created_seq != e.seq {
            State {
                lru: t.lru.insert(
                    Entry {
                        time: st.last_seen,
                        seq: st.created_seq,
                        index: e.index,
                        generation: e.generation,
                    },
                ),
                ..t
            }
        } else {
            evict(t, id, CloseReason::LruEvicted)
        },
    }
}

/// The entry of a leaf.
pub open spec fn leaf_entry(st: StreamView) -> Entry {
    Entry {
        time: st.last_seen,
        seq: st.created_seq,
        index: st.id.index,
        generation: st.id.generation,
    }
}

/// The entries of the leaves in the first `n` slots.
pub open spec fn leaf_entries(slots: Seq<Slot>, n: int) -> Multiset<Entry>
    decreases n,
{
    if n <= 0 {
        Multiset::empty()
    } else {
        let m = leaf_entries(slots, n - 1);
        if slots[n - 1].stream is Some && slots[n - 1].stream->0.children.len() == 0 {
            m.insert(leaf_entry(slots[n - 1].stream->0))
        } else {
            m
        }
    }
}

/// The candidates, built anew once more than half of them are out of date.
pub open spec fn compacted(s: State) -> State {
    if s.lru.len() <= 2 * live_count(s.slots) + 1024 {
        s
    } else {
        State { lru: leaf_entries(s.slots, s.slots.len() as int), ..s }
    }
}

/// The number of due expiry entries.
pub open spec fn due_entries(s: State) -> nat {
    s.expiry.filter(|e: Entry| e.time <= s.clock).len()
}

/// Whether a candidate is up to date: the leaf it names was last updated then.
pub open spec fn accurate(s: State, e: Entry) -> bool {
    match s.get(id_of(e)) {
        Some(st) => st.children.len() == 0 && st.last_seen == e.time && st.created_seq == e.seq,
        None => false,
    }
}

/// The number of candidates that are out of date.
pub open spec fn stale_candidates(s: State) -> nat {
    s.lru.filter(|e: Entry| !accurate(s, e)).len()
}

/// Whether `t` is a step closer to the end of a sweep than `s`.
pub open spec fn sweep_progress(s: State, t: State) -> bool {
    0 <= live_count(t.slots) < live_count(s.slots) || (live_count(t.slots) == live_count(s.slots)
        && due_entries(t) < due_entries(s))
}

/// Whether `t` is a step closer to the cap than `s`.
pub open spec fn cap_progress(s: State, t: State) -> bool {
    0 <= live_count(t.slots) < live_count(s.slots) || (live_count(t.slots) == live_count(s.slots)
        && stale_candidates(t) < stale_candidates(s))
}

/// The state after every due entry was taken.
pub open spec fn swept(s: State) -> State
    decreases live_count(s.slots), due_entries(s),
{
    if !sweepable(s) {
        s
    } else if sweep_progress(s, sweep_step(s)) {
        swept(sweep_step(s))
    } else {
        sweep_step(s)
    }
}

/// The state with no more streams than the cap allows.
pub open spec fn capped(s: State) -> State
    decreases live_count(s.slots), stale_candidates(s),
{
    if !over_cap(s) {
        s
    } else if cap_progress(s, cap_step(s)) {
        capped(cap_step(s))
    } else {
        cap_step(s)
    }
}

// ---------------------------------------------------------------------------
// Packets

/// The place of a kind of end in the counts.
pub open spec fn class_index(class: StopClass) -> int {
    match class {
        StopClass::Clean => 0,
        StopClass::UnknownPayload => 1,
        StopClass::Malformed => 2,
        StopClass::Suspicious => 3,
    }
}

/// The most that one layer adds to any count.
pub open spec fn layer_weight(meta: PacketMeta) -> int {
    meta.origlen + 4
}

/// The most that a packet adds to any count.
pub open spec fn weight(pkt: Packet) -> int {
    pkt.meta.origlen + pkt.opaque_len + 4 + pkt.layers.len() * layer_weight(pkt.meta)
}

/// Whether a packet can be taken in: its time is a time, there are handles left
/// for its layers and no count would overflow.
pub open spec fn has_room(s: State, pkt: Packet) -> bool {
    &&& layer::in_time(pkt.meta.timestamp)
    &&& s.slots.len() + pkt.layers.len() <= u32::MAX
    &&& s.load + weight(pkt) <= u64::MAX
}

/// The state after a packet was counted.
pub open spec fn begun(s: State, pkt: Packet) -> State {
    let i = class_index(pkt.stop.spec_class());
    State {
        clock: if pkt.meta.timestamp > s.clock {
            pkt.meta.timestamp
        } else {
            s.clock
        },
        totals: Totals {
            packets: (s.totals.packets + 1) as u64,
            bytes: (s.totals.bytes + pkt.meta.origlen) as u64,
            ..s.totals
        },
        stop_classes: s.stop_classes.update(i, (s.stop_classes[i] + 1) as u64),
        load: (s.load + pkt.meta.origlen + pkt.opaque_len + 4) as nat,
        ..s
    }
}

/// How far a packet has been taken in: the state, the stream of the layer just
/// taken, and the innermost stream's key.
pub ghost struct Progress {
    pub state: State,
    pub parent: Option<StreamId>,
    pub endpoint: Option<Endpoint>,
}

/// The state with an entry for the end of a stream's lingering, where a packet
/// ended its session.
pub open spec fn lingering(s: State, ended: bool, id: StreamId, ts: Timestamp) -> State {
    match s.config.eviction {
        EvictionPolicy::Live { close_linger, .. } => if ended {
            State {
                expiry: s.expiry.insert(
                    Entry {
                        time: (ts + close_linger) as i128,
                        seq: 0,
                        index: id.index,
                        generation: id.generation,
                    },
                ),
                ..s
            }
        } else {
            s
        },
        EvictionPolicy::Never => s,
    }
}

/// The state after a layer's stream counted the packet.
pub open spec fn attributed(
    r: Resolved,
    identity: Identity,
    layer: LayerView,
    meta: PacketMeta,
) -> State {
    match r.state.get(r.id) {
        None => r.state,
        Some(st) => {
            let after = stream::touched(
                st,
                identity,
                layer.fields,
                meta.timestamp,
                r.dir,
                meta.origlen as int,
            );
            lingering(
                r.state.put(r.id, after),
                stream::became_eligible(st, after),
                r.id,
                meta.timestamp,
            )
        },
    }
}

/// One layer taken in. A layer of a protocol that forms no streams is passed
/// over, and what is inside it belongs to the stream around it; so is one whose
/// key cannot be built, which is counted.
pub open spec fn taken(p: Progress, layer: LayerView, meta: PacketMeta) -> Progress {
    let s = State { load: (p.state.load + layer_weight(meta)) as nat, ..p.state };
    let passed = Progress { state: s, ..p };
    match s.rules(layer.protocol) {
        None => passed,
        Some(rules) => match rules.identity {
            None => passed,
            Some(identity) => match key::key_of(identity, layer.fields) {
                Err(_) => Progress {
                    state: State {
                        totals: Totals {
                            key_errors: (s.totals.key_errors + 1) as u64,
                            ..s.totals
                        },
                        ..s
                    },
                    ..p
                },
                Ok((key, dir)) => {
                    let r = resolved(s, p.parent, key, rules, layer, dir, meta.timestamp);
                    Progress {
                        state: attributed(r, identity, layer, meta),
                        parent: Some(r.id),
                        endpoint: Some(Endpoint { protocol: layer.protocol, key }),
                    }
                },
            },
        },
    }
}

/// The first `n` layers taken in, outermost first.
pub open spec fn taken_all(s: State, layers: Seq<LayerView>, n: int, meta: PacketMeta) -> Progress
    decreases n,
{
    if n <= 0 {
        Progress { state: s, parent: None, endpoint: None }
    } else {
        taken(taken_all(s, layers, n - 1, meta), layers[n - 1], meta)
    }
}

/// Payload that nothing took belongs to the innermost stream.
pub open spec fn with_opaque(s: State, innermost: Option<StreamId>, bytes: int) -> State {
    match innermost {
        Some(id) => match s.get(id) {
            Some(st) => s.put(
                id,
                StreamView { opaque_bytes: (st.opaque_bytes + bytes) as u64, ..st },
            ),
            None => s,
        },
        None => s,
    }
}

/// An unknown payload is registered.
pub open spec fn with_unknown(s: State, pkt: Packet, endpoint: Option<Endpoint>) -> State {
    match pkt.unknown {
        Some(diagnostics) => State {
            unknowns: unknown::ingested(
                s.unknowns,
                Occurrence {
                    diagnostics,
                    bytes: if pkt.opaque_len > u32::MAX {
                        u32::MAX
                    } else {
                        pkt.opaque_len as u32
                    },
                    ts: pkt.meta.timestamp,
                    endpoint,
                },
                s.config.unknown,
            ),
            ..s
        },
        None => s,
    }
}

/// The state after a packet.
pub open spec fn ingested(s: State, pkt: Packet) -> State {
    let p = taken_all(
        compacted(swept(begun(s, pkt))),
        pkt.layers,
        pkt.layers.len() as int,
        pkt.meta,
    );
    capped(
        with_unknown(with_opaque(p.state, p.parent, pkt.opaque_len as int), pkt, p.endpoint),
    )
}

// ---------------------------------------------------------------------------
// The end of the capture

/// How many streams are around a stream.
pub open spec fn depth(s: State, id: StreamId) -> int
    decreases
            (if s.live(id) {
                s.get(id)->0.created_seq + 1
            } else {
                0
            }),
{
    match s.get(id) {
        None => 0,
        Some(st) => match st.parent {
            None => 0,
            Some(p) => if s.live(p) && s.get(p)->0.created_seq < st.created_seq {
                1 + depth(s, p)
            } else {
                1
            },
        },
    }
}

/// Whether `order` lists every stream once, deeper ones first and, at one depth,
/// older ones first.
pub open spec fn closing_order(s: State, order: Seq<StreamId>) -> bool {
    &&& forall|k: int| 0 <= k < order.len() ==> s.live(#[trigger] order[k])
    &&& forall|i: int| #[trigger] s.live_at(i) ==> order.contains(s.at(i).id)
    &&& forall|j: int, k: int|
        0 <= j < k < order.len() ==> depth(s, #[trigger] order[j]) > depth(s, #[trigger] order[k])
            || (depth(s, order[j]) == depth(s, order[k]) && s.get(order[j])->0.created_seq < s.get(
            order[k],
        )->0.created_seq)
}

/// A stream closed at the end of the capture: it stays where nothing is ever
/// evicted.
pub open spec fn closed(s: State, id: StreamId) -> State {
    if s.config.eviction is Live {
        evict(s, id, CloseReason::CaptureEnd)
    } else {
        match s.get(id) {
            None => s,
            Some(st) => emitted(
                s.put(id, StreamView { closed: Some(CloseReason::CaptureEnd), ..st }),
                st,
                CloseReason::CaptureEnd,
            ),
        }
    }
}

/// The first `n` streams of `order` closed.
pub open spec fn closed_all(s: State, order: Seq<StreamId>, n: int) -> State
    decreases n,
{
    if n <= 0 {
        s
    } else {
        closed(closed_all(s, order, n - 1), order[n - 1])
    }
}

// ---------------------------------------------------------------------------
// Reports

/// Whether a stream is one of those asked for: of one protocol, or any.
pub open spec fn wanted(st: StreamView, protocol: Option<Seq<char>>) -> bool {
    match protocol {
        Some(p) => st.protocol == p,
        None => true,
    }
}

/// Whether `list` holds the streams asked for, each once, in the order of their
/// creation.
pub open spec fn by_age(s: State, protocol: Option<Seq<char>>, list: Seq<StreamView>) -> bool {
    &&& forall|k: int|
        0 <= k < list.len() ==> s.get((#[trigger] list[k]).id) == Some(list[k]) && wanted(
            list[k],
            protocol,
        )
    &&& forall|i: int| #[trigger]
        s.live_at(i) && wanted(s.at(i), protocol) ==> list.contains(s.at(i))
    &&& forall|j: int, k: int|
        0 <= j < k < list.len() ==> (#[trigger] list[j]).created_seq < (
        #[trigger] list[k]).created_seq
}

/// The streams in the first `n` slots.
pub open spec fn in_slots(slots: Seq<Slot>, n: int) -> Seq<StreamView>
    decreases n,
{
    if n <= 0 {
        Seq::empty()
    } else if slots[n - 1].stream is Some {
        in_slots(slots, n - 1).push(slots[n - 1].stream->0)
    } else {
        in_slots(slots, n - 1)
    }
}

/// The streams of some handles that are not out of date.
pub open spec fn of_handles(s: State, ids: Seq<StreamId>, n: int) -> Seq<StreamView>
    decreases n,
{
    if n <= 0 {
        Seq::empty()
    } else if s.live(ids[n - 1]) {
        of_handles(s, ids, n - 1).push(s.get(ids[n - 1])->0)
    } else {
        of_handles(s, ids, n - 1)
    }
}

/// Streams of one key under different parents, added up.
pub ghost struct Merged {
    pub protocol: Seq<char>,
    pub key: Seq<u8>,
    pub key_fields: Fields,
    pub stats: Seq<DirStats>,
    pub first_seen: Timestamp,
    pub last_seen: Timestamp,
    pub nodes: Seq<StreamId>,
}

pub open spec fn stats_sum(a: DirStats, b: DirStats) -> DirStats {
    DirStats { packets: (a.packets + b.packets) as u64, bytes: (a.bytes + b.bytes) as u64 }
}

/// One stream by itself.
pub open spec fn alone(st: StreamView) -> Merged {
    Merged {
        protocol: st.protocol,
        key: st.key,
        key_fields: st.key_fields,
        stats: st.stats,
        first_seen: st.first_seen,
        last_seen: st.last_seen,
        nodes: seq![st.id],
    }
}

/// A row with one stream more.
pub open spec fn joined(row: Merged, st: StreamView) -> Merged {
    Merged {
        stats: seq![
            stats_sum(row.stats[0], st.stats[0]),
            stats_sum(row.stats[1], st.stats[1]),
        ],
        first_seen: if st.first_seen < row.first_seen {
            st.first_seen
        } else {
            row.first_seen
        },
        last_seen: if st.last_seen > row.last_seen {
            st.last_seen
        } else {
            row.last_seen
        },
        nodes: row.nodes.push(st.id),
        ..row
    }
}

/// The first row of a key from `i` on.
pub open spec fn row_of(rows: Seq<Merged>, key: Seq<u8>, i: int) -> Option<int>
    decreases rows.len() - i,
{
    if i < 0 || i >= rows.len() {
        None
    } else if rows[i].key == key {
        Some(i)
    } else {
        row_of(rows, key, i + 1)
    }
}

/// The first `n` streams, those of one key in one row.
pub open spec fn merged(list: Seq<StreamView>, n: int) -> Seq<Merged>
    decreases n,
{
    if n <= 0 {
        Seq::empty()
    } else {
        let rows = merged(list, n - 1);
        let st = list[n - 1];
        match row_of(rows, st.key, 0) {
            Some(i) => rows.update(i, joined(rows[i], st)),
            None => rows.push(alone(st)),
        }
    }
}

} // verus!

//! The aggregator: dissected packets in, a hierarchy of streams out.
use std::sync::Arc;

use vstd::prelude::*;

use crate::engine::{self, Engine};
use crate::flows::bounds;
use crate::flows::condense::{self, CondenseGroup, GroupId};
use crate::flows::heap::{Entry, Heap};
use crate::flows::index::{self, Index};
use crate::flows::key;
use crate::flows::rollup::RollupSet;
use crate::flows::state::{
    self, AggregatorConfig, EvictionPolicy, Evicted, Group, GroupKey, Newcomer, Slot, State, Totals,
};
use crate::flows::stream::{self, CloseReason, CondensedInfo, DirStats, Stream, StreamId};
use crate::flows::table::Table;
use crate::flows::tally::{self, Counts, Tallies};
use crate::flows::tree;
use crate::flows::unknown::{self, UnknownRegistry};
use crate::identity::{FlowKey, PacketDirection, StateName};
use crate::layer::{self, Timestamp};
use crate::value::{FieldMap, ProtocolName};

mod closing;
mod eviction;
mod folding;
mod ingest;
pub mod query;

verus! {

/// A slot of the store. A record is shared with the snapshots that hold it, and
/// copied when it changes while it is shared.
pub struct SlotRecord {
    generation: u32,
    stream: Option<Arc<Stream>>,
}

impl View for SlotRecord {
    type V = Slot;

    closed spec fn view(&self) -> Slot {
        Slot {
            generation: self.generation,
            stream: match self.stream {
                Some(a) => Some((*a)@),
                None => None,
            },
        }
    }
}

/// The contents of some slots.
pub open spec fn slots_view(s: Seq<SlotRecord>) -> Seq<Slot> {
    Seq::new(s.len(), |i: int| s[i]@)
}

/// A stream that left, and why.
#[derive(PartialEq, Eq, Debug)]
pub struct EvictedStream {
    pub stream: Stream,
    pub reason: CloseReason,
}

impl View for EvictedStream {
    type V = Evicted;

    open spec fn view(&self) -> Evicted {
        Evicted { stream: self.stream@, reason: self.reason }
    }
}

pub open spec fn evicted_view(s: Seq<EvictedStream>) -> Seq<Evicted> {
    Seq::new(s.len(), |i: int| s[i]@)
}

pub open spec fn groups_view(m: Map<GroupKey, CondenseGroup>) -> Map<GroupKey, Group> {
    Map::new(|k: GroupKey| m.contains_key(k), |k: GroupKey| m[k]@)
}

/// Flows ever created, by protocol.
pub open spec fn ever_view(m: Map<Seq<char>, Counts>) -> Map<Seq<char>, u64> {
    Map::new(|p: Seq<char>| m.contains_key(p), |p: Seq<char>| m[p].ever)
}

/// Folds packets into streams. One thread writes; others read snapshots.
pub struct Aggregator {
    engine: Arc<Engine>,
    config: AggregatorConfig,
    slots: Vec<SlotRecord>,
    index: Index,
    roots: Vec<StreamId>,
    totals: Totals,
    clock: Timestamp,
    next_seq: u64,
    stop_classes: [u64; 4],
    tallies: Tallies,
    expiry: Heap,
    lru: Heap,
    free: Vec<u32>,
    live_count: usize,
    unknowns: UnknownRegistry,
    condense: Table<GroupId, CondenseGroup>,
    evicted: Vec<EvictedStream>,
    /// A bound of every count.
    load: u64,
}

impl Aggregator {
    /// The aggregator's state.
    pub closed spec fn view(&self) -> State {
        State {
            protocols: self.engine.view(),
            config: self.config,
            slots: slots_view(self.slots@),
            free: self.free@,
            roots: self.roots@,
            totals: self.totals,
            clock: self.clock,
            next_seq: self.next_seq,
            stop_classes: self.stop_classes@,
            ever: ever_view(self.tallies@),
            expiry: self.expiry@,
            lru: self.lru@,
            unknowns: self.unknowns@,
            groups: groups_view(self.condense@),
            evicted: evicted_view(self.evicted@),
            load: self.load as nat,
        }
    }

    /// The per-protocol counts are those of the live streams.
    spec fn tallied(&self) -> bool {
        &&& self.tallies.wf()
        &&& forall|p: Seq<char>| #[trigger]
            tally::counts_of(self.tallies@, p).live == state::live_of(self@.slots, p)
        &&& forall|p: Seq<char>| #[trigger]
            tally::counts_of(self.tallies@, p).bytes == state::bytes_of(self@.slots, p)
        &&& self.live_count == state::live_count(self@.slots)
    }

    /// The tables are in order.
    spec fn stored(&self) -> bool {
        &&& index::indexed(self@, self.index)
        &&& self.expiry.wf()
        &&& self.lru.wf()
        &&& self.unknowns.wf()
        &&& self.condense.wf()
        &&& forall|k: GroupKey| #[trigger]
            self.condense@.contains_key(k) ==> self.condense@[k].wf()
    }

    /// What holds at every step, with every count within a bound.
    spec fn sound(&self, bound: nat) -> bool {
        &&& tree::hierarchy(self@)
        &&& bounds::within(self@, bound)
        &&& self.tallied()
        &&& self.stored()
    }

    /// What holds between calls.
    pub closed spec fn wf(&self) -> bool {
        self.sound(self.load as nat)
    }

    /// Between calls the hierarchy is consistent, every count is within the load, and
    /// the register of unknown payloads is sound.
    pub proof fn is_orderly(&self)
        requires
            self.wf(),
        ensures
            tree::hierarchy(self.view()),
            bounds::within(self.view(), self.view().load),
            self.view().load <= u64::MAX,
            unknown::sound(self.view().unknowns),
    {
        self.unknowns.is_sound();
    }

    /// An aggregator without streams.
    pub fn new(engine: &Arc<Engine>, config: AggregatorConfig) -> (r: Aggregator)
        requires
            bounds::timed(config),
        ensures
            r.wf(),
            r.view() == state::initial(engine.view(), config),
    {
        let r = Aggregator {
            engine: stream::share(engine),
            config,
            slots: Vec::new(),
            index: Index::new(),
            roots: Vec::new(),
            totals: Totals::default(),
            clock: 0,
            next_seq: 0,
            stop_classes: [0, 0, 0, 0],
            tallies: Tallies::new(),
            expiry: Heap::new(),
            lru: Heap::new(),
            free: Vec::new(),
            live_count: 0,
            unknowns: UnknownRegistry::new(),
            condense: Table::new(),
            evicted: Vec::new(),
            load: 0,
        };
        assert(r@ =~= state::initial(engine.view(), config));
        r
    }

    /// The stream of a handle, unless the handle is out of date.
    pub fn get(&self, id: StreamId) -> (r: Option<&Stream>)
        ensures
            match r {
                Some(st) => self.view().get(id) == Some(st@),
                None => self.view().get(id) is None,
            },
    {
        let i: usize = id.index as usize;
        if i >= self.slots.len() {
            return None;
        }
        let slot = &self.slots[i];
        assert(self@.slots[i as int] == slot@);
        if slot.generation != id.generation {
            return None;
        }
        match &slot.stream {
            Some(a) => Some(&**a),
            None => None,
        }
    }

    /// The stream of a handle, unless the handle is out of date.
    pub fn stream(&self, id: StreamId) -> (r: Option<&Stream>)
        ensures
            match r {
                Some(st) => self.view().get(id) == Some(st@),
                None => self.view().get(id) is None,
            },
    {
        self.get(id)
    }
}

/// A record to change, in its slot.
fn stream_mut(slots: &mut Vec<SlotRecord>, i: usize) -> (r: &mut Stream)
    requires
        i < old(slots)@.len(),
        old(slots)@[i as int]@.stream is Some,
    ensures
        old(slots)@[i as int]@.stream == Some(r@),
        slots_view(final(slots)@) == slots_view(old(slots)@).update(
            i as int,
            Slot { generation: old(slots)@[i as int]@.generation, stream: Some((*final(r))@) },
        ),
{
    match &mut slots[i].stream {
        Some(a) => stream::make_mut(a),
        None => unreached(),
    }
}

/// A stream's first values.
struct NewStream {
    parent: Option<StreamId>,
    protocol: ProtocolName,
    key: FlowKey,
    key_fields: FieldMap,
    state: Option<StateName>,
    rollups: RollupSet,
    condensed: Option<Box<CondensedInfo>>,
    dir: PacketDirection,
    ts: Timestamp,
}

impl View for NewStream {
    type V = Newcomer;

    closed spec fn view(&self) -> Newcomer {
        Newcomer {
            parent: self.parent,
            protocol: self.protocol@,
            key: self.key@,
            key_fields: self.key_fields@,
            state: stream::state_view(self.state),
            rollups: self.rollups@,
            condensed: stream::condensed_view(self.condensed),
            dir: self.dir,
            ts: self.ts,
        }
    }
}

/// Whether a new stream has counted nothing yet.
spec fn is_blank(n: Newcomer) -> bool {
    &&& layer::in_time(n.ts)
    &&& bounds::rollups_within(n.rollups, 0)
    &&& n.condensed is Some ==> n.condensed->0.member_flows == 0
}

impl Aggregator {
    /// Counts a new flow's stream.
    fn count_new(&mut self, protocol: ProtocolName, Ghost(b): Ghost<nat>)
        requires
            old(self).tallied(),
            bounds::ever_within(old(self)@.ever, b),
            b < u64::MAX,
            old(self)@.slots.len() < u32::MAX,
            old(self)@.totals.streams_created < u64::MAX,
        ensures
            *final(self) == (Aggregator {
                tallies: final(self).tallies,
                live_count: final(self).live_count,
                totals: final(self).totals,
                ..*old(self)
            }),
            final(self).tallies.wf(),
            final(self).tallies@ == old(self).tallies@.insert(
                protocol@,
                ({
                    let c = tally::counts_of(old(self).tallies@, protocol@);
                    Counts { ever: (c.ever + 1) as u64, live: (c.live + 1) as u64, ..c }
                }),
            ),
            final(self).live_count == old(self).live_count + 1,
            final(self).totals == (Totals {
                streams_created: (old(self).totals.streams_created + 1) as u64,
                ..old(self).totals
            }),
    {
        proof {
            bounds::sums_are_natural(self@.slots, protocol@);
            bounds::live_count_is_bounded(self@.slots);
            assert(tally::counts_of(self.tallies@, protocol@).live == state::live_of(
                self@.slots,
                protocol@,
            ));
            if self.tallies@.contains_key(protocol@) {
                assert(self@.ever.contains_key(protocol@));
            }
        }
        let mut row = self.tallies.get(protocol);
        row.ever = row.ever + 1;
        row.live = row.live + 1;
        self.tallies.set(row);
        self.live_count = self.live_count + 1;
        self.totals.streams_created = self.totals.streams_created + 1;
    }
}

impl Aggregator {
    /// Lists a new stream with its parent, or with the roots.
    fn attach(&mut self, parent: Option<StreamId>, id: StreamId)
        ensures
            final(self)@ == state::attached(old(self)@, parent, id),
            *final(self) == (Aggregator {
                slots: final(self).slots,
                roots: final(self).roots,
                ..*old(self)
            }),
    {
        if let Some(p) = parent {
            if self.get(p).is_some() {
                let st = stream_mut(&mut self.slots, p.index as usize);
                st.children.push(id);
                assert(self@ =~= state::attached(old(self)@, parent, id));
                return;
            }
        }
        self.roots.push(id);
        assert(self@ =~= state::attached(old(self)@, parent, id));
    }

    /// Queues a new stream.
    fn arm(&mut self, id: StreamId, ts: Timestamp, seq: u64)
        requires
            old(self).expiry.wf(),
            old(self).lru.wf(),
            bounds::timed(old(self)@.config),
            layer::in_time(ts),
        ensures
            final(self)@ == state::armed(old(self)@, id, ts, seq),
            final(self).expiry.wf(),
            final(self).lru.wf(),
            *final(self) == (Aggregator {
                expiry: final(self).expiry,
                lru: final(self).lru,
                ..*old(self)
            }),
    {
        match self.config.eviction {
            EvictionPolicy::Live { idle_timeout, .. } => {
                let time: i128 = ts + idle_timeout as i128;
                self.expiry.push(
                    Entry { time, seq: 0, index: id.index, generation: id.generation },
                );
                self.lru.push(
                    Entry { time: ts, seq, index: id.index, generation: id.generation },
                );
            },
            EvictionPolicy::Never => {},
        }
        assert(self@ =~= state::armed(old(self)@, id, ts, seq));
    }

    /// Creates a stream: a slot, an index entry, a place in the hierarchy, the
    /// counts and the queue entries.
    fn create_stream_raw(&mut self, n: NewStream, Ghost(b): Ghost<nat>) -> (id: StreamId)
        requires
            old(self).sound(b),
            b < u64::MAX,
            old(self)@.slots.len() < u32::MAX,
            n.parent is Some ==> old(self)@.live(n.parent->0),
            is_blank(n@),
        ensures
            final(self)@ == state::created(old(self)@, n@),
            id == state::next_id(old(self)@),
            final(self).sound(b + 1),
    {
        let ghost s0 = self@;
        let ghost nc = n@;
        let ghost ix0 = self.index;
        let ghost tallies0 = self.tallies@;
        proof {
            tree::creating_adds_one(s0, nc);
            tree::creating_keeps_the_hierarchy(s0, nc);
            bounds::within_after_created(s0, b, nc);
            index::bucket_is_bounded(s0, self.index, index::digest(nc.parent, nc.protocol, nc.key));
            if s0.free.len() > 0 {
                assert(s0.free[s0.free.len() - 1] < s0.slots.len());
            }
        }
        let d: u64 = index::digest_of(n.parent, n.protocol, n.key.as_bytes());
        self.count_new(n.protocol, Ghost(b));
        let id: StreamId = match self.free.pop() {
            Some(index) => StreamId { index, generation: self.slots[index as usize].generation },
            None => StreamId { index: self.slots.len() as u32, generation: 0 },
        };
        assert(id == state::next_id(s0));
        let created_seq: u64 = self.next_seq;
        self.next_seq = self.next_seq + 1;
        let parent = n.parent;
        let protocol = n.protocol;
        let ts: Timestamp = n.ts;
        let stream = Stream {
            id,
            protocol: n.protocol,
            key: n.key,
            key_fields: n.key_fields,
            parent: n.parent,
            children: Vec::new(),
            initiator: n.dir,
            first_seen: n.ts,
            last_seen: n.ts,
            stats: [DirStats { packets: 0, bytes: 0 }, DirStats { packets: 0, bytes: 0 }],
            opaque_bytes: 0,
            state: n.state,
            rollups: n.rollups,
            closed: None,
            close_eligible: false,
            close_eligible_since: None,
            created_seq,
            condensed: n.condensed,
        };
        assert(stream@ =~= state::record(nc, id, s0.next_seq));
        let i: usize = id.index as usize;
        if i < self.slots.len() {
            let generation: u32 = self.slots[i].generation;
            self.slots.set(i, SlotRecord { generation, stream: Some(Arc::new(stream)) });
        } else {
            self.slots.push(SlotRecord { generation: 0, stream: Some(Arc::new(stream)) });
        }
        assert(self@.slots =~= state::placed(
            s0.slots,
            id,
            state::record(nc, id, s0.next_seq),
        ));
        self.index.insert(d, (id.index, id.generation));
        assert(self@.ever =~= state::counted_up(s0.ever, protocol@));
        self.attach(parent, id);
        self.arm(id, ts, created_seq);
        proof {
            assert(self@ =~= state::created(s0, nc));
            index::indexed_after_created(s0, nc, ix0, self.index);
            assert forall|p: Seq<char>| #[trigger]
                tally::counts_of(self.tallies@, p).live == state::live_of(self@.slots, p) by {
                bounds::sums_after_created(s0, nc, p);
                bounds::sums_are_natural(s0.slots, p);
                assert(tally::counts_of(tallies0, p).live == state::live_of(s0.slots, p));
            }
            assert forall|p: Seq<char>| #[trigger]
                tally::counts_of(self.tallies@, p).bytes == state::bytes_of(self@.slots, p) by {
                bounds::sums_after_created(s0, nc, p);
                assert(tally::counts_of(tallies0, p).bytes == state::bytes_of(s0.slots, p));
            }
            bounds::sums_after_created(s0, nc, nc.protocol);
        }
        id
    }
}

} // verus!

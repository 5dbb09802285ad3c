//! Streams that leave: those that are due, and those beyond the cap.
use vstd::prelude::*;

use crate::flows::bounds;
use crate::flows::condense::{self, CondenseGroup, GroupId};
use crate::flows::heap::{Entry, Heap};
use crate::flows::index;
use crate::flows::queues;
use crate::flows::state::{self, EvictionPolicy, GroupKey, Slot, State};
use crate::flows::store::{self, Aggregator, EvictedStream, SlotRecord};
use crate::flows::stream::{self, CloseReason, Stream, StreamId, StreamView};
use crate::flows::tally::{self, Counts};
use crate::flows::tree;
use crate::value::ProtocolName;

verus! {

/// Some handles without one.
fn without_id(ids: &Vec<StreamId>, id: StreamId) -> (r: Vec<StreamId>)
    ensures
        r@ == state::without(ids@, id),
{
    let n: usize = ids.len();
    let mut out: Vec<StreamId> = Vec::new();
    let mut i: usize = 0;
    assert(ids@.take(0) =~= Seq::empty());
    assert(out@ =~= state::without(ids@.take(0), id));
    while i < n
        invariant
            n == ids@.len(),
            i <= n,
            out@ == state::without(ids@.take(i as int), id),
        decreases n - i,
    {
        let x = ids[i];
        assert(ids@.take(i + 1).drop_last() =~= ids@.take(i as int));
        assert(ids@.take(i + 1).last() == x);
        if x.index != id.index || x.generation != id.generation {
            out.push(x);
        }
        i = i + 1;
    }
    assert(ids@.take(n as int) =~= ids@);
    out
}

/// Whether every group of a table is in order.
spec fn tidy_groups(m: Map<GroupKey, CondenseGroup>) -> bool {
    forall|k: GroupKey| #[trigger] m.contains_key(k) ==> m[k].wf()
}

impl Aggregator {
    /// When a stream becomes due.
    pub(super) fn deadline_of(&self, id: StreamId, Ghost(b): Ghost<nat>) -> (r: Option<i128>)
        requires
            bounds::timed(self@.config),
            self@.live(id) ==> bounds::stream_within(self@.get(id)->0, b),
        ensures
            match r {
                Some(d) => state::deadline(self@, id) == Some(d as int),
                None => state::deadline(self@, id) is None,
            },
    {
        match self.config.eviction {
            EvictionPolicy::Live { idle_timeout, close_linger, .. } => match self.get(id) {
                Some(st) => {
                    let idle: i128 = st.last_seen + idle_timeout as i128;
                    match st.close_eligible_since {
                        Some(since) => {
                            let over: i128 = since + close_linger as i128;
                            if over < idle {
                                Some(over)
                            } else {
                                Some(idle)
                            }
                        },
                        None => Some(idle),
                    }
                },
                None => None,
            },
            EvictionPolicy::Never => None,
        }
    }

    /// One flow less in an anchor's group.
    fn strike(&mut self, key: GroupId)
        requires
            old(self).condense.wf(),
            tidy_groups(old(self).condense@),
        ensures
            *final(self) == (Aggregator { condense: final(self).condense, ..*old(self) }),
            final(self).condense.wf(),
            tidy_groups(final(self).condense@),
            final(self)@.groups == state::struck(old(self)@.groups, key@),
    {
        let ghost m = self.condense@;
        let ghost k = key@;
        match self.condense.remove(&key) {
            Some(mut group) => {
                if group.expanded > 0 {
                    group.expanded = group.expanded - 1;
                }
                if group.expanded > 0 || group.node.is_some() {
                    let ghost g = group;
                    self.condense.insert(key, group);
                    assert(self@.groups =~= state::struck(old(self)@.groups, k));
                } else {
                    assert(self@.groups =~= state::struck(old(self)@.groups, k));
                }
                assert forall|x: GroupKey| #[trigger]
                    self.condense@.contains_key(x) implies self.condense@[x].wf() by {
                    assert(m.contains_key(x));
                }
            },
            None => {
                assert(self.condense@ =~= m);
            },
        }
    }

    /// Strikes an evicted stream from the groups: a condensed node takes its
    /// group along, a flow is struck from its anchors' groups.
    fn condense_evict(&mut self, st: &Stream)
        requires
            old(self).condense.wf(),
            tidy_groups(old(self).condense@),
        ensures
            *final(self) == (Aggregator { condense: final(self).condense, ..*old(self) }),
            final(self).condense.wf(),
            tidy_groups(final(self).condense@),
            final(self)@.groups == state::groups_without(old(self)@, st@),
    {
        if self.config.condense_threshold == 0 {
            return;
        }
        let ghost m = self.condense@;
        let ghost s0 = self@;
        if st.condensed.is_some() {
            let bytes = st.key.as_bytes();
            let anchor: Vec<u8> = if bytes.len() > 0 {
                vstd::slice::slice_to_vec(vstd::slice::slice_subrange(bytes, 1, bytes.len()))
            } else {
                Vec::new()
            };
            proof {
                assert(anchor@ =~= state::anchor_in(st@.key));
            }
            let key = GroupId { parent: st.parent, protocol: st.protocol, anchor };
            let _group = self.condense.remove(&key);
            proof {
                assert(self@.groups =~= s0.groups.remove(key@));
                assert forall|x: GroupKey| #[trigger]
                    self.condense@.contains_key(x) implies self.condense@[x].wf() by {
                    assert(m.contains_key(x));
                }
            }
            return;
        }
        let (identity, condense) = match self.engine.plugin_by_name(st.protocol) {
            Some(p) => (p.stream_identity(), p.condense()),
            None => {
                return;
            },
        };
        let (identity, spec_) = match (identity, condense) {
            (Some(identity), Some(spec_)) => (identity, spec_),
            _ => {
                return;
            },
        };
        let anchors = match condense::condense_candidates(&identity, &spec_, &st.key_fields) {
            Some(anchors) => anchors,
            None => {
                return;
            },
        };
        let ghost list = condense::candidates_view(anchors@);
        let n: usize = anchors.len();
        let mut i: usize = 0;
        while i < n
            invariant
                n == anchors@.len(),
                list == condense::candidates_view(anchors@),
                i <= n,
                *self == (Aggregator { condense: self.condense, ..*old(self) }),
                self.condense.wf(),
                tidy_groups(self.condense@),
                self@.groups == state::struck_all(
                    s0.groups,
                    st@.parent,
                    st@.protocol,
                    list,
                    i as int,
                ),
            decreases n - i,
        {
            let key = GroupId {
                parent: st.parent,
                protocol: st.protocol,
                anchor: vstd::slice::slice_to_vec(anchors[i].anchor.as_slice()),
            };
            assert(list[i as int] == anchors@[i as int]@);
            self.strike(key);
            i = i + 1;
        }
    }

    /// Takes a stream off its parent's list, or off the roots. The parent may
    /// now be a leaf, so it is queued anew.
    fn unlink(&mut self, parent: Option<StreamId>, id: StreamId, Ghost(b): Ghost<nat>)
        requires
            old(self).expiry.wf(),
            old(self).lru.wf(),
            bounds::timed(old(self)@.config),
            parent is Some && old(self)@.live(parent->0) ==> bounds::stream_within(
                old(self)@.get(parent->0)->0,
                b,
            ),
        ensures
            final(self)@ == state::detached(old(self)@, parent, id),
            final(self).expiry.wf(),
            final(self).lru.wf(),
            *final(self) == (Aggregator {
                slots: final(self).slots,
                roots: final(self).roots,
                expiry: final(self).expiry,
                lru: final(self).lru,
                ..*old(self)
            }),
    {
        let ghost s0 = self@;
        match parent {
            None => {
                self.roots = without_id(&self.roots, id);
                assert(self@ =~= state::detached(s0, parent, id));
            },
            Some(p) => {
                if self.get(p).is_none() {
                    return;
                }
                let st = store::stream_mut(&mut self.slots, p.index as usize);
                let ghost before = st@;
                st.children = without_id(&st.children, id);
                let last_seen: i128 = st.last_seen;
                let created_seq: u64 = st.created_seq;
                assert(st@ =~= StreamView {
                    children: state::without(before.children, id),
                    ..before
                });
                assert(self@.slots =~= s0.put(
                    p,
                    StreamView { children: state::without(before.children, id), ..before },
                ).slots);
                let ghost t = self@;
                assert(t =~= s0.put(
                    p,
                    StreamView { children: state::without(before.children, id), ..before },
                ));
                if let Some(d) = self.deadline_of(p, Ghost(b)) {
                    self.expiry.push(
                        Entry { time: d, seq: 0, index: p.index, generation: p.generation },
                    );
                }
                self.lru.push(
                    Entry {
                        time: last_seen,
                        seq: created_seq,
                        index: p.index,
                        generation: p.generation,
                    },
                );
                assert(self@ =~= state::detached(s0, parent, id));
            },
        }
    }
}

impl Aggregator {
    /// Takes a leaf's record out of its slot, whose next stream gets another
    /// generation.
    fn take_record(&mut self, id: StreamId) -> (r: Stream)
        requires
            old(self)@.live(id),
        ensures
            r@ == old(self)@.get(id)->0,
            final(self)@.slots == old(self)@.slots.update(
                id.index as int,
                Slot { generation: state::next_generation(id.generation), stream: None },
            ),
            *final(self) == (Aggregator { slots: final(self).slots, ..*old(self) }),
    {
        let i: usize = id.index as usize;
        let ghost before = self.slots@;
        assert(self@.slots[i as int] == before[i as int]@);
        let mut gone = SlotRecord { generation: id.generation.wrapping_add(1), stream: None };
        std::mem::swap(&mut self.slots[i], &mut gone);
        assert(self@.slots =~= old(self)@.slots.update(
            i as int,
            Slot { generation: state::next_generation(id.generation), stream: None },
        ));
        match gone.stream {
            Some(shared) => stream::unwrap_or_clone(shared),
            None => unreached(),
        }
    }

    /// Counts a stream of slot `i` that leaves.
    fn count_gone(&mut self, protocol: ProtocolName, bytes: u64, Ghost(i): Ghost<int>)
        requires
            old(self).tallied(),
            old(self)@.live_at(i),
            old(self)@.at(i).protocol == protocol@,
            state::stream_bytes(old(self)@.at(i)) == bytes,
        ensures
            *final(self) == (Aggregator {
                tallies: final(self).tallies,
                live_count: final(self).live_count,
                ..*old(self)
            }),
            final(self).tallies.wf(),
            final(self).tallies@ == old(self).tallies@.insert(
                protocol@,
                ({
                    let c = tally::counts_of(old(self).tallies@, protocol@);
                    Counts { live: (c.live - 1) as u64, bytes: (c.bytes - bytes) as u64, ..c }
                }),
            ),
            final(self).live_count == old(self).live_count - 1,
            tally::counts_of(old(self).tallies@, protocol@).live >= 1,
            tally::counts_of(old(self).tallies@, protocol@).bytes >= bytes,
            old(self).tallies@.contains_key(protocol@),
    {
        proof {
            let p = protocol@;
            let slots = self@.slots;
            let t = slots.update(i, Slot { generation: 0, stream: None });
            bounds::sums_after_emptied(slots, i, 0, p);
            bounds::sums_are_natural(t, p);
            bounds::live_count_is_bounded(t);
            assert(tally::counts_of(self.tallies@, p).live == state::live_of(slots, p));
            assert(tally::counts_of(self.tallies@, p).bytes == state::bytes_of(slots, p));
        }
        let mut row = self.tallies.get(protocol);
        row.live = row.live - 1;
        row.bytes = row.bytes - bytes;
        self.tallies.set(row);
        self.live_count = self.live_count - 1;
    }

    /// Removes a leaf: its slot is free, its handle out of date, its index entry
    /// gone; its parent is queued anew, and the record is handed out if the
    /// caller collects them.
    pub(super) fn evict(&mut self, id: StreamId, reason: CloseReason, Ghost(b): Ghost<nat>)
        requires
            old(self).sound(b),
            b <= u64::MAX,
            old(self)@.live(id) ==> old(self)@.get(id)->0.children.len() == 0,
        ensures
            final(self)@ == state::evict(old(self)@, id, reason),
            final(self).sound(b),
    {
        let ghost s0 = self@;
        let ghost ix0 = self.index;
        let ghost t0 = self.tallies@;
        let ghost o = s0.get(id)->0;
        proof {
            if s0.live(id) {
                tree::handles_are_unique(s0, id);
                tree::evicting_keeps_the_hierarchy(s0, id, reason);
                tree::evicting_removes_one(s0, id, reason);
                bounds::within_after_evict(s0, b, id, reason);
                assert(s0.live_at(id.index as int));
                assert(bounds::stream_within(o, b));
                assert(state::bytes_of(s0.slots, o.protocol) <= b);
                bounds::sums_after_emptied(s0.slots, id.index as int, 0, o.protocol);
                bounds::sums_are_natural(
                    s0.slots.update(id.index as int, Slot { generation: 0, stream: None }),
                    o.protocol,
                );
                if o.parent is Some {
                    let q = o.parent->0;
                    assert(s0.live(q));
                    assert(s0.live_at(q.index as int));
                    assert(bounds::stream_within(s0.at(q.index as int), b));
                    assert(q.index != id.index) by {
                        tree::handles_are_unique(s0, q);
                        assert(s0.get(q)->0.created_seq < o.created_seq);
                    }
                }
            }
        }
        let (d, protocol, bytes): (u64, ProtocolName, u64) = match self.get(id) {
            Some(st) => (
                index::digest_of(st.parent, st.protocol, st.key.as_bytes()),
                st.protocol,
                st.stats[0].bytes + st.stats[1].bytes,
            ),
            None => {
                return;
            },
        };
        self.count_gone(protocol, bytes, Ghost(id.index as int));
        let mut st = self.take_record(id);
        self.free.push(id.index);
        self.condense_evict(&st);
        self.index.remove(d, (id.index, id.generation));
        let ghost gone = self@;
        assert(gone =~= (State {
            slots: s0.slots.update(
                id.index as int,
                Slot {
                    generation: state::next_generation(s0.slots[id.index as int].generation),
                    stream: None,
                },
            ),
            free: s0.free.push(id.index),
            groups: state::groups_without(s0, o),
            ..s0
        })) by {
            assert(self@.ever =~= s0.ever);
        }
        self.unlink(st.parent, id, Ghost(b));
        let ghost before = st@;
        st.closed = Some(reason);
        assert(st@ =~= StreamView { closed: Some(reason), ..before });
        if self.config.sink {
            let ghost list = self.evicted@;
            let e = EvictedStream { stream: st, reason };
            let ghost x = e;
            self.evicted.push(e);
            assert(store::evicted_view(self.evicted@) =~= store::evicted_view(list).push(x@));
        }
        proof {
            assert(self@ =~= state::evict(s0, id, reason));
            index::indexed_after_evict(s0, id, reason, ix0, self.index);
            assert forall|p: Seq<char>| #[trigger]
                tally::counts_of(self.tallies@, p).live == state::live_of(self@.slots, p) by {
                bounds::sums_after_evict(s0, id, reason, p);
                assert(tally::counts_of(t0, p).live == state::live_of(s0.slots, p));
            }
            assert forall|p: Seq<char>| #[trigger]
                tally::counts_of(self.tallies@, p).bytes == state::bytes_of(self@.slots, p) by {
                bounds::sums_after_evict(s0, id, reason, p);
                assert(tally::counts_of(t0, p).bytes == state::bytes_of(s0.slots, p));
            }
            bounds::sums_after_evict(s0, id, reason, o.protocol);
        }
    }
}

/// Other queue entries change nothing else.
proof fn lemma_requeued(before: Aggregator, after: Aggregator, b: nat)
    requires
        before.sound(b),
        after == (Aggregator { expiry: after.expiry, lru: after.lru, ..before }),
        after.expiry.wf(),
        after.lru.wf(),
    ensures
        after.sound(b),
        after@ == (State { expiry: after.expiry@, lru: after.lru@, ..before@ }),
{
    assert(after@ =~= State { expiry: after.expiry@, lru: after.lru@, ..before@ });
    queues::lemma_same_hierarchy(before@, after@);
    queues::lemma_same_bounds(before@, after@, b);
    index::indexed_after_update(before@, after@, before.index);
}

impl Aggregator {
    /// Takes the earliest expiry entry, which is due.
    fn sweep_one(&mut self, close_linger: u128, Ghost(b): Ghost<nat>)
        requires
            old(self).sound(b),
            b <= u64::MAX,
            state::sweepable(old(self)@),
            old(self)@.config.eviction->close_linger == close_linger,
        ensures
            final(self)@ == state::sweep_step(old(self)@),
            final(self).sound(b),
    {
        let ghost s0 = self@;
        let e = match self.expiry.pop() {
            Some(e) => e,
            None => unreached(),
        };
        let ghost t = self@;
        proof {
            lemma_requeued(*old(self), *self, b);
            assert(t == State { expiry: s0.expiry.remove(e), ..s0 });
        }
        let id = StreamId { index: e.index, generation: e.generation };
        proof {
            if t.live(id) {
                assert(t.live_at(id.index as int));
                assert(bounds::stream_within(t.at(id.index as int), b));
            }
        }
        let due: i128 = match self.deadline_of(id, Ghost(b)) {
            Some(d) => d,
            None => {
                return;
            },
        };
        if due > self.clock {
            self.expiry.push(
                Entry { time: due, seq: e.seq, index: e.index, generation: e.generation },
            );
            proof {
                lemma_requeued(*old(self), *self, b);
                assert(self@ =~= state::sweep_step(s0));
            }
            return;
        }
        let (leaf, since) = match self.get(id) {
            Some(st) => (st.children.len() == 0, st.close_eligible_since),
            None => {
                return;
            },
        };
        if !leaf {
            return;
        }
        let reason = match since {
            Some(since) => if since + close_linger as i128 <= self.clock {
                CloseReason::ProtocolClose
            } else {
                CloseReason::IdleTimeout
            },
            None => CloseReason::IdleTimeout,
        };
        self.evict(id, reason, Ghost(b));
    }

    /// Takes every due expiry entry. An entry that is out of date is queued anew,
    /// a stream with children stays, a leaf leaves.
    pub(super) fn sweep(&mut self, Ghost(b): Ghost<nat>)
        requires
            old(self).sound(b),
            b <= u64::MAX,
        ensures
            final(self)@ == state::swept(old(self)@),
            final(self).sound(b),
    {
        let close_linger: u128 = match self.config.eviction {
            EvictionPolicy::Live { close_linger, .. } => close_linger,
            EvictionPolicy::Never => {
                return;
            },
        };
        loop
            invariant_except_break
                state::swept(self@) == state::swept(old(self)@),
            invariant
                self.sound(b),
                b <= u64::MAX,
                self@.config == old(self)@.config,
                self@.config.eviction is Live,
                self@.config.eviction->close_linger == close_linger,
            ensures
                self@ == state::swept(old(self)@),
            decreases state::live_count(self@.slots), state::due_entries(self@),
        {
            let ghost s = self@;
            let e = match self.expiry.peek() {
                Some(e) => e,
                None => {
                    break;
                },
            };
            if e.time > self.clock {
                break;
            }
            proof {
                bounds::live_count_is_bounded(s.slots);
                queues::sweeping_progresses(s, b);
            }
            self.sweep_one(close_linger, Ghost(b));
        }
    }

    /// Takes the earliest candidate for the cap.
    fn cap_one(&mut self, Ghost(b): Ghost<nat>)
        requires
            old(self).sound(b),
            b <= u64::MAX,
            state::over_cap(old(self)@),
        ensures
            final(self)@ == state::cap_step(old(self)@),
            final(self).sound(b),
    {
        let ghost s0 = self@;
        let e = match self.lru.pop() {
            Some(e) => e,
            None => unreached(),
        };
        let ghost t = self@;
        proof {
            lemma_requeued(*old(self), *self, b);
            assert(t == State { lru: s0.lru.remove(e), ..s0 });
        }
        let id = StreamId { index: e.index, generation: e.generation };
        let (leaf, last_seen, created_seq): (bool, i128, u64) = match self.get(id) {
            Some(st) => (st.children.len() == 0, st.last_seen, st.created_seq),
            None => {
                return;
            },
        };
        if !leaf {
            return;
        }
        if last_seen != e.time || created_seq != e.seq {
            self.lru.push(
                Entry {
                    time: last_seen,
                    seq: created_seq,
                    index: e.index,
                    generation: e.generation,
                },
            );
            proof {
                lemma_requeued(*old(self), *self, b);
                assert(self@ =~= state::cap_step(s0));
            }
            return;
        }
        self.evict(id, CloseReason::LruEvicted, Ghost(b));
    }

    /// Lets the least recently updated leaves leave until the cap on streams is
    /// kept.
    pub(super) fn enforce_max_streams(&mut self, Ghost(b): Ghost<nat>)
        requires
            old(self).sound(b),
            b <= u64::MAX,
        ensures
            final(self)@ == state::capped(old(self)@),
            final(self).sound(b),
    {
        let max_streams: usize = match self.config.eviction {
            EvictionPolicy::Live { max_streams, .. } => max_streams,
            EvictionPolicy::Never => {
                return;
            },
        };
        while self.live_count > max_streams && self.lru.len() > 0
            invariant
                state::capped(self@) == state::capped(old(self)@),
                self.sound(b),
                b <= u64::MAX,
                self@.config.eviction is Live,
                self@.config.eviction->max_streams == max_streams,
            decreases state::live_count(self@.slots), state::stale_candidates(self@),
        {
            let ghost s = self@;
            proof {
                bounds::live_count_is_bounded(s.slots);
                queues::capping_progresses(s, b);
            }
            self.cap_one(Ghost(b));
        }
    }

    /// Builds the candidates for the cap anew, from the leaves, once more than
    /// half of them are out of date.
    pub(super) fn compact_lru(&mut self, Ghost(b): Ghost<nat>)
        requires
            old(self).sound(b),
        ensures
            final(self)@ == state::compacted(old(self)@),
            final(self).sound(b),
    {
        let live: u128 = self.live_count as u128;
        if self.lru.len() as u128 <= 2 * live + 1024 {
            return;
        }
        let ghost s0 = self@;
        let n: usize = self.slots.len();
        let mut lru = Heap::new();
        let mut i: usize = 0;
        while i < n
            invariant
                n == self.slots@.len(),
                self@ == s0,
                i <= n,
                lru.wf(),
                lru@ == state::leaf_entries(s0.slots, i as int),
            decreases n - i,
        {
            assert(s0.slots[i as int] == self.slots@[i as int]@);
            if let Some(st) = &self.slots[i].stream {
                if st.children.len() == 0 {
                    lru.push(
                        Entry {
                            time: st.last_seen,
                            seq: st.created_seq,
                            index: st.id.index,
                            generation: st.id.generation,
                        },
                    );
                }
            }
            i = i + 1;
        }
        self.lru = lru;
        proof {
            lemma_requeued(*old(self), *self, b);
            assert(self@ =~= state::compacted(s0));
        }
    }
}

} // verus!

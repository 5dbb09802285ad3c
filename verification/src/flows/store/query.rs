//! Questions to the aggregator.
use std::sync::Arc;

use vstd::prelude::*;

use crate::flows::bounds;
use crate::flows::heap::{self, Entry, Heap};
use crate::flows::state::{self, Merged, Slot, State, Totals};
use crate::flows::store::{self, Aggregator};
use crate::flows::stream::{self, DirStats, Stream, StreamId, StreamView};
use crate::flows::tally::{self, ProtocolCounts};
use crate::flows::tree;
use crate::flows::unknown::{self, UnknownGroup, UnknownKey};
use crate::identity::FlowKey;
use crate::layer::Timestamp;
use crate::packet::StopClass;
use crate::text::str_eq;
use crate::value::{FieldMap, ProtocolName};

verus! {

/// The contents of some streams.
pub open spec fn streams_view(s: Seq<&Stream>) -> Seq<StreamView> {
    Seq::new(s.len(), |i: int| s[i]@)
}

/// The entry of a stream that is queued by its age.
spec fn age_entry(st: StreamView) -> Entry {
    Entry {
        time: st.created_seq as i128,
        seq: 0,
        index: st.id.index,
        generation: st.id.generation,
    }
}

/// Whether an entry is that of a stream asked for in the first `n` slots.
spec fn is_queued(s: State, protocol: Option<Seq<char>>, e: Entry, n: int) -> bool {
    exists|i: int|
        0 <= i < n && #[trigger] s.live_at(i) && state::wanted(s.at(i), protocol) && age_entry(
            s.at(i),
        ) == e
}

spec fn name_view(protocol: Option<&str>) -> Option<Seq<char>> {
    match protocol {
        Some(p) => Some(p@),
        None => None,
    }
}

impl Aggregator {
    /// Queues the streams asked for by their age.
    fn age_queue(&self, protocol: Option<&str>) -> (r: Heap)
        requires
            tree::hierarchy(self@),
        ensures
            r.wf(),
            forall|e: Entry| #[trigger]
                r@.count(e) == if is_queued(
                    self@,
                    name_view(protocol),
                    e,
                    self@.slots.len() as int,
                ) {
                    1nat
                } else {
                    0nat
                },
    {
        broadcast use vstd::multiset::group_multiset_axioms;

        let ghost s = self@;
        let ghost p = name_view(protocol);
        let n: usize = self.slots.len();
        let mut queue = Heap::new();
        let mut i: usize = 0;
        while i < n
            invariant
                s == self@,
                p == name_view(protocol),
                tree::hierarchy(s),
                n == self.slots@.len(),
                n == s.slots.len(),
                i <= n,
                queue.wf(),
                forall|e: Entry| #[trigger]
                    queue@.count(e) == if is_queued(s, p, e, i as int) {
                        1nat
                    } else {
                        0nat
                    },
            decreases n - i,
        {
            assert(s.slots[i as int] == self.slots@[i as int]@);
            let ghost before = queue@;
            let ghost added = s.live_at(i as int) && state::wanted(s.at(i as int), p);
            if let Some(st) = &self.slots[i].stream {
                let asked = match protocol {
                    Some(name) => str_eq(st.protocol, name),
                    None => true,
                };
                if asked {
                    queue.push(
                        Entry {
                            time: st.created_seq as i128,
                            seq: 0,
                            index: st.id.index,
                            generation: st.id.generation,
                        },
                    );
                }
            }
            proof {
                let e = age_entry(s.at(i as int));
                assert(queue@ == if added {
                    before.insert(e)
                } else {
                    before
                });
                assert forall|x: Entry| #[trigger]
                    queue@.count(x) == if is_queued(s, p, x, i + 1) {
                        1nat
                    } else {
                        0nat
                    } by {
                    assert(before.count(x) == if is_queued(s, p, x, i as int) {
                        1nat
                    } else {
                        0nat
                    });
                    if is_queued(s, p, x, i as int) {
                        let j = choose|j: int|
                            0 <= j < i && s.live_at(j) && state::wanted(s.at(j), p) && age_entry(
                                s.at(j),
                            ) == x;
                        assert(s.live_at(j));
                        assert(is_queued(s, p, x, i + 1));
                        if added {
                            assert(s.live_at(i as int));
                            assert(s.at(j).id.index != s.at(i as int).id.index);
                        }
                    } else if is_queued(s, p, x, i + 1) {
                        let j = choose|j: int|
                            0 <= j < i + 1 && s.live_at(j) && state::wanted(s.at(j), p)
                                && age_entry(s.at(j)) == x;
                        assert(s.live_at(j));
                        assert(j == i);
                    } else if added {
                        assert(s.live_at(i as int));
                        assert(x != e);
                    }
                }
            }
            i = i + 1;
        }
        queue
    }

    /// The handles of the streams asked for, in the order of their creation.
    fn ids_by_age(&self, protocol: Option<&str>) -> (r: Vec<StreamId>)
        requires
            tree::hierarchy(self@),
        ensures
            forall|k: int| 0 <= k < r@.len() ==> self@.live(#[trigger] r@[k]),
            state::by_age(
                self@,
                name_view(protocol),
                Seq::new(r@.len(), |k: int| self@.get(r@[k])->0),
            ),
    {
        broadcast use vstd::seq_lib::group_to_multiset_ensures;

        let ghost s = self@;
        let ghost p = name_view(protocol);
        let ghost n = s.slots.len() as int;
        let queue = self.age_queue(protocol);
        let ghost counts = queue@;
        let entries = queue.into_sorted();
        let r = store::closing::handles_of(&entries);
        proof {
            let list = Seq::new(r@.len(), |k: int| s.get(r@[k])->0);
            assert forall|e: Entry| #[trigger] entries@.to_multiset().count(e) <= 1 by {
                assert(counts.count(e) <= 1);
            }
            heap::counted_once_means_distinct(entries@);
            assert forall|k: int| 0 <= k < r@.len() implies s.live(#[trigger] r@[k]) && {
                let i = r@[k].index as int;
                s.live_at(i) && state::wanted(s.at(i), p) && s.at(i).id == r@[k] && s.get(r@[k])
                    == Some(s.at(i)) && entries@[k] == age_entry(s.at(i))
            } by {
                let e = entries@[k];
                assert(entries@.contains(e));
                assert(entries@.to_multiset().count(e) > 0);
                assert(is_queued(s, p, e, n));
                let i = choose|i: int|
                    0 <= i < n && s.live_at(i) && state::wanted(s.at(i), p) && age_entry(s.at(i))
                        == e;
                assert(s.live_at(i));
            }
            assert forall|k: int| 0 <= k < list.len() implies s.get((#[trigger] list[k]).id)
                == Some(list[k]) && state::wanted(list[k], p) by {
                assert(s.live(r@[k]));
            }
            assert forall|i: int| #[trigger]
                s.live_at(i) && state::wanted(s.at(i), p) implies list.contains(s.at(i)) by {
                let e = age_entry(s.at(i));
                assert(is_queued(s, p, e, n));
                assert(counts.count(e) == 1);
                let k = choose|k: int| 0 <= k < entries@.len() && entries@[k] == e;
                assert(r@[k] == s.at(i).id);
                assert(s.live(r@[k]));
                assert(list[k] == s.at(i));
            }
            assert forall|j: int, k: int| 0 <= j < k < list.len() implies (
            #[trigger] list[j]).created_seq < (#[trigger] list[k]).created_seq by {
                assert(s.live(r@[j]) && s.live(r@[k]));
                assert(heap::before(entries@[j], entries@[k]));
                assert(entries@[j] != entries@[k]);
                let a = r@[j].index as int;
                let b = r@[k].index as int;
                assert(s.live_at(a) && s.live_at(b));
            }
        }
        r
    }
}

impl Aggregator {
    /// The streams of some handles that are not out of date.
    fn of_handles(&self, ids: &Vec<StreamId>) -> (r: Vec<&Stream>)
        ensures
            streams_view(r@) == state::of_handles(self@, ids@, ids@.len() as int),
    {
        let n: usize = ids.len();
        let mut out: Vec<&Stream> = Vec::new();
        let mut i: usize = 0;
        assert(streams_view(out@) =~= Seq::empty());
        while i < n
            invariant
                n == ids@.len(),
                i <= n,
                streams_view(out@) == state::of_handles(self@, ids@, i as int),
            decreases n - i,
        {
            if let Some(st) = self.get(ids[i]) {
                let ghost before = out@;
                out.push(st);
                assert(streams_view(out@) =~= streams_view(before).push(st@));
            }
            i = i + 1;
        }
        out
    }

    /// The streams without a parent, in the order of their creation.
    pub fn roots(&self) -> (r: Vec<&Stream>)
        requires
            self.wf(),
        ensures
            streams_view(r@) == state::of_handles(
                self.view(),
                self.view().roots,
                self.view().roots.len() as int,
            ),
            r@.len() == self.view().roots.len(),
    {
        let r = self.of_handles(&self.roots);
        proof {
            lemma_all_live(self@, self@.roots, self@.roots.len() as int);
        }
        r
    }

    /// A stream's children, in the order of their creation; none where the handle
    /// is out of date.
    pub fn children(&self, id: StreamId) -> (r: Vec<&Stream>)
        ensures
            match self.view().get(id) {
                Some(st) => streams_view(r@) == state::of_handles(
                    self.view(),
                    st.children,
                    st.children.len() as int,
                ),
                None => r@.len() == 0,
            },
    {
        match self.get(id) {
            Some(st) => self.of_handles(&st.children),
            None => Vec::new(),
        }
    }

    /// The live streams, slot by slot.
    pub fn streams(&self) -> (r: Vec<&Stream>)
        ensures
            streams_view(r@) == state::in_slots(
                self.view().slots,
                self.view().slots.len() as int,
            ),
    {
        let n: usize = self.slots.len();
        let mut out: Vec<&Stream> = Vec::new();
        let mut i: usize = 0;
        assert(streams_view(out@) =~= Seq::empty());
        while i < n
            invariant
                n == self.slots@.len(),
                i <= n,
                streams_view(out@) == state::in_slots(self@.slots, i as int),
            decreases n - i,
        {
            assert(self@.slots[i as int] == self.slots@[i as int]@);
            if let Some(st) = &self.slots[i].stream {
                let ghost before = out@;
                out.push(&**st);
                assert(streams_view(out@) =~= streams_view(before).push((**st)@));
            }
            i = i + 1;
        }
        out
    }

    /// The number of live streams.
    pub fn len(&self) -> (n: usize)
        requires
            self.wf(),
        ensures
            n == state::live_count(self.view().slots),
    {
        self.live_count
    }

    pub fn is_empty(&self) -> (r: bool)
        requires
            self.wf(),
        ensures
            r == (state::live_count(self.view().slots) == 0),
    {
        self.live_count == 0
    }

    /// The streams of one protocol, in the order of their creation.
    pub fn at_layer(&self, protocol: &str) -> (r: Vec<&Stream>)
        requires
            self.wf(),
        ensures
            state::by_age(self.view(), Some(protocol@), streams_view(r@)),
    {
        let ids = self.ids_by_age(Some(protocol));
        let ghost list = Seq::new(ids@.len(), |k: int| self@.get(ids@[k])->0);
        let r = self.of_handles(&ids);
        proof {
            lemma_of_live_handles(self@, ids@, ids@.len() as int);
            assert(streams_view(r@) =~= list);
        }
        r
    }

    /// What the packets added up to, whatever was evicted.
    pub fn totals(&self) -> (r: Totals)
        ensures
            r == self.view().totals,
    {
        self.totals
    }

    /// The latest packet time.
    pub fn clock(&self) -> (r: Timestamp)
        ensures
            r == self.view().clock,
    {
        self.clock
    }

    /// The unknown payloads by shape, those seen most often first.
    pub fn unknowns(&self) -> (r: Vec<&UnknownGroup>)
        requires
            self.wf(),
        ensures
            unknown::reported(
                self.view().unknowns,
                Seq::new(r@.len(), |i: int| r@[i]@),
            ),
    {
        self.unknowns.groups()
    }

    /// The unknown payloads of one shape.
    pub fn unknown_group(&self, key: &UnknownKey) -> (r: Option<&UnknownGroup>)
        requires
            self.wf(),
        ensures
            match r {
                Some(g) => self.view().unknowns.groups.contains_key(key@) && g@
                    == self.view().unknowns.groups[key@],
                None => !self.view().unknowns.groups.contains_key(key@),
            },
    {
        self.unknowns.group(key)
    }
}

/// Handles that are not out of date lead to as many streams.
proof fn lemma_all_live(s: State, ids: Seq<StreamId>, n: int)
    requires
        forall|k: int| 0 <= k < ids.len() ==> s.live(#[trigger] ids[k]),
        0 <= n <= ids.len(),
    ensures
        state::of_handles(s, ids, n).len() == n,
    decreases n,
{
    if n > 0 {
        assert(s.live(ids[n - 1]));
        lemma_all_live(s, ids, n - 1);
    }
}

proof fn lemma_of_live_handles(s: State, ids: Seq<StreamId>, n: int)
    requires
        forall|k: int| 0 <= k < ids.len() ==> s.live(#[trigger] ids[k]),
        0 <= n <= ids.len(),
    ensures
        state::of_handles(s, ids, n) == Seq::new(n as nat, |k: int| s.get(ids[k])->0),
    decreases n,
{
    if n > 0 {
        assert(s.live(ids[n - 1]));
        lemma_of_live_handles(s, ids, n - 1);
    }
    assert(state::of_handles(s, ids, n) =~= Seq::new(n as nat, |k: int| s.get(ids[k])->0));
}

/// Streams of one key under different parents, added up. What the streams retain
/// is not merged.
#[derive(PartialEq, Eq, Debug)]
pub struct MergedStreamView {
    pub protocol: ProtocolName,
    pub key: FlowKey,
    /// The fields of the first stream.
    pub key_fields: FieldMap,
    /// The sums, by direction.
    pub stats: [DirStats; 2],
    pub first_seen: Timestamp,
    pub last_seen: Timestamp,
    /// The streams, in the order of their creation.
    pub nodes: Vec<StreamId>,
}

impl View for MergedStreamView {
    type V = Merged;

    open spec fn view(&self) -> Merged {
        Merged {
            protocol: self.protocol@,
            key: self.key@,
            key_fields: self.key_fields@,
            stats: self.stats@,
            first_seen: self.first_seen,
            last_seen: self.last_seen,
            nodes: self.nodes@,
        }
    }
}

impl Clone for MergedStreamView {
    fn clone(&self) -> (r: MergedStreamView)
        ensures
            r@ == self@,
    {
        MergedStreamView {
            protocol: self.protocol,
            key: self.key.clone(),
            key_fields: self.key_fields.clone(),
            stats: self.stats,
            first_seen: self.first_seen,
            last_seen: self.last_seen,
            nodes: stream::copy_ids(&self.nodes),
        }
    }
}

/// The contents of some rows.
pub open spec fn rows_view(s: Seq<MergedStreamView>) -> Seq<Merged> {
    Seq::new(s.len(), |i: int| s[i]@)
}

/// What the first `n` streams counted.
spec fn sum_of(list: Seq<StreamView>, quantity: spec_fn(StreamView) -> int, n: int) -> int
    decreases n,
{
    if n <= 0 {
        0
    } else {
        sum_of(list, quantity, n - 1) + quantity(list[n - 1])
    }
}

/// The slots without the first `n` of some streams.
spec fn emptied(slots: Seq<Slot>, list: Seq<StreamView>, n: int) -> Seq<Slot>
    decreases n,
{
    if n <= 0 {
        slots
    } else {
        emptied(slots, list, n - 1).update(
            list[n - 1].id.index as int,
            Slot { generation: 0, stream: None },
        )
    }
}

/// A quantity of the streams of one protocol.
spec fn slot_quantity(protocol: Seq<char>, quantity: spec_fn(StreamView) -> int) -> spec_fn(
    Slot,
) -> int {
    |x: Slot|
        if state::is_of(x, protocol) {
            quantity(x.stream->0)
        } else {
            0int
        }
}

/// Taking some streams of a protocol out takes what they counted out of the sum.
proof fn lemma_emptied(
    s: State,
    protocol: Seq<char>,
    list: Seq<StreamView>,
    quantity: spec_fn(StreamView) -> int,
    n: int,
)
    requires
        tree::numbered(s),
        state::by_age(s, Some(protocol), list),
        0 <= n <= list.len(),
    ensures
        ({
            let t = emptied(s.slots, list, n);
            &&& t.len() == s.slots.len()
            &&& forall|i: int|
                0 <= i < t.len() ==> (#[trigger] t[i] == s.slots[i] || t[i].stream is None)
            &&& forall|k: int|
                n <= k < list.len() ==> t[(#[trigger] list[k]).id.index as int]
                    == s.slots[list[k].id.index as int]
            &&& state::total(t, slot_quantity(protocol, quantity)) == state::total(
                s.slots,
                slot_quantity(protocol, quantity),
            ) - sum_of(list, quantity, n)
        }),
    decreases n,
{
    if n > 0 {
        lemma_emptied(s, protocol, list, quantity, n - 1);
        let u = emptied(s.slots, list, n - 1);
        let st = list[n - 1];
        let i = st.id.index as int;
        assert(s.get(list[n - 1].id) == Some(list[n - 1]));
        assert(s.live(st.id));
        assert(u[i] == s.slots[i]);
        bounds::total_after_update(
            u,
            i,
            Slot { generation: 0, stream: None },
            slot_quantity(protocol, quantity),
        );
        let t = emptied(s.slots, list, n);
        assert forall|k: int| n <= k < list.len() implies t[(#[trigger] list[k]).id.index as int]
            == s.slots[list[k].id.index as int] by {
            assert(s.get(list[k].id) == Some(list[k]));
            assert(list[n - 1].created_seq < list[k].created_seq);
            if list[k].id.index == i {
                assert(s.live(list[k].id));
            }
        }
    }
}

/// Some streams of a protocol counted no more than all of them.
proof fn lemma_sum_is_covered(
    s: State,
    protocol: Seq<char>,
    list: Seq<StreamView>,
    quantity: spec_fn(StreamView) -> int,
    n: int,
)
    requires
        tree::numbered(s),
        state::by_age(s, Some(protocol), list),
        0 <= n <= list.len(),
        forall|st: StreamView| #[trigger] quantity(st) >= 0,
    ensures
        sum_of(list, quantity, n) <= state::total(s.slots, slot_quantity(protocol, quantity)),
{
    lemma_emptied(s, protocol, list, quantity, n);
    let t = emptied(s.slots, list, n);
    assert forall|k: int| 0 <= k < t.len() implies slot_quantity(protocol, quantity)(
        #[trigger] t[k],
    ) >= 0 by {
        if state::is_of(t[k], protocol) {
            assert(quantity(t[k].stream->0) >= 0);
        }
    }
    bounds::total_covers(t, 0, slot_quantity(protocol, quantity));
}

spec fn bytes_quantity() -> spec_fn(StreamView) -> int {
    |st: StreamView| state::stream_bytes(st)
}

spec fn packets_quantity() -> spec_fn(StreamView) -> int {
    |st: StreamView| state::stream_packets(st)
}

/// Whether every row counted no more than some bounds.
spec fn rows_within(rows: Seq<Merged>, packets: int, bytes: int) -> bool {
    forall|i: int|
        0 <= i < rows.len() ==> {
            let r = #[trigger] rows[i];
            &&& r.stats.len() == 2
            &&& r.stats[0].packets <= packets
            &&& r.stats[1].packets <= packets
            &&& r.stats[0].bytes <= bytes
            &&& r.stats[1].bytes <= bytes
        }
}

proof fn lemma_row(rows: Seq<Merged>, key: Seq<u8>, i: int)
    requires
        0 <= i,
    ensures
        match state::row_of(rows, key, i) {
            Some(k) => i <= k < rows.len() && rows[k].key == key,
            None => true,
        },
    decreases rows.len() - i,
{
    if i < rows.len() {
        lemma_row(rows, key, i + 1);
    }
}

/// The first row of a key, or the number of rows.
fn row_position(rows: &Vec<MergedStreamView>, key: &FlowKey) -> (r: usize)
    ensures
        match state::row_of(rows_view(rows@), key@, 0) {
            Some(i) => r == i && r < rows@.len(),
            None => r == rows@.len(),
        },
{
    let n: usize = rows.len();
    let mut i: usize = 0;
    while i < n
        invariant
            n == rows@.len(),
            i <= n,
            state::row_of(rows_view(rows@), key@, 0) == state::row_of(
                rows_view(rows@),
                key@,
                i as int,
            ),
        decreases n - i,
    {
        assert(rows_view(rows@)[i as int] == rows@[i as int]@);
        if rows[i].key.same(key) {
            return i;
        }
        i = i + 1;
    }
    n
}

impl MergedStreamView {
    fn of(st: &Stream) -> (r: MergedStreamView)
        ensures
            r@ == state::alone(st@),
    {
        let mut nodes: Vec<StreamId> = Vec::new();
        nodes.push(st.id);
        let r = MergedStreamView {
            protocol: st.protocol,
            key: st.key.clone(),
            key_fields: st.key_fields.clone(),
            stats: st.stats,
            first_seen: st.first_seen,
            last_seen: st.last_seen,
            nodes,
        };
        assert(r@.nodes =~= seq![st.id]);
        r
    }

    fn join(&mut self, st: &Stream)
        requires
            old(self)@.stats[0].packets + st@.stats[0].packets <= u64::MAX,
            old(self)@.stats[1].packets + st@.stats[1].packets <= u64::MAX,
            old(self)@.stats[0].bytes + st@.stats[0].bytes <= u64::MAX,
            old(self)@.stats[1].bytes + st@.stats[1].bytes <= u64::MAX,
        ensures
            final(self)@ == state::joined(old(self)@, st@),
    {
        let a = DirStats {
            packets: self.stats[0].packets + st.stats[0].packets,
            bytes: self.stats[0].bytes + st.stats[0].bytes,
        };
        let b = DirStats {
            packets: self.stats[1].packets + st.stats[1].packets,
            bytes: self.stats[1].bytes + st.stats[1].bytes,
        };
        self.stats = [a, b];
        if st.first_seen < self.first_seen {
            self.first_seen = st.first_seen;
        }
        if st.last_seen > self.last_seen {
            self.last_seen = st.last_seen;
        }
        self.nodes.push(st.id);
        assert(self@.stats =~= state::joined(old(self)@, st@).stats);
    }
}

impl Aggregator {
    /// The streams of one protocol, those of one key added up across their
    /// parents; rows in the order in which their first streams were created.
    pub fn at_layer_merged(&self, protocol: &str) -> (r: Vec<MergedStreamView>)
        requires
            self.wf(),
        ensures
            exists|list: Seq<StreamView>| #[trigger]
                state::by_age(self.view(), Some(protocol@), list) && rows_view(r@)
                    == state::merged(list, list.len() as int),
    {
        let ghost s = self@;
        let ghost b = self.load as nat;
        let nodes = self.at_layer(protocol);
        let ghost list = streams_view(nodes@);
        let n: usize = nodes.len();
        let mut rows: Vec<MergedStreamView> = Vec::new();
        let mut i: usize = 0;
        assert(rows_view(rows@) =~= Seq::empty());
        while i < n
            invariant
                n == nodes@.len(),
                list == streams_view(nodes@),
                i <= n,
                tree::hierarchy(s),
                bounds::within(s, b),
                b <= u64::MAX,
                state::by_age(s, Some(protocol@), list),
                rows_view(rows@) == state::merged(list, i as int),
                rows_within(
                    rows_view(rows@),
                    sum_of(list, packets_quantity(), i as int),
                    sum_of(list, bytes_quantity(), i as int),
                ),
            decreases n - i,
        {
            let node = nodes[i];
            let ghost before = rows@;
            proof {
                assert(list[i as int] == node@);
                lemma_room(s, protocol@, list, i as int, b);
                lemma_row(rows_view(before), node@.key, 0);
            }
            let at: usize = row_position(&rows, &node.key);
            if at < rows.len() {
                assert(rows_view(before)[at as int] == before[at as int]@);
                rows[at].join(node);
                proof {
                    assert(rows_view(rows@) =~= rows_view(before).update(
                        at as int,
                        state::joined(before[at as int]@, node@),
                    ));
                }
            } else {
                rows.push(MergedStreamView::of(node));
                assert(rows_view(rows@) =~= rows_view(before).push(state::alone(node@)));
            }
            proof {
                let packets = sum_of(list, packets_quantity(), i + 1);
                let bytes = sum_of(list, bytes_quantity(), i + 1);
                assert forall|k: int| 0 <= k < rows@.len() implies {
                    let r = #[trigger] rows_view(rows@)[k];
                    &&& r.stats.len() == 2
                    &&& r.stats[0].packets <= packets
                    &&& r.stats[1].packets <= packets
                    &&& r.stats[0].bytes <= bytes
                    &&& r.stats[1].bytes <= bytes
                } by {
                    if k < before.len() {
                        assert(rows_view(before)[k].stats.len() == 2);
                    }
                }
            }
            i = i + 1;
        }
        rows
    }
}

proof fn lemma_sum_is_natural(list: Seq<StreamView>, quantity: spec_fn(StreamView) -> int, n: int)
    requires
        forall|st: StreamView| #[trigger] quantity(st) >= 0,
    ensures
        sum_of(list, quantity, n) >= 0,
    decreases n,
{
    if n > 0 {
        lemma_sum_is_natural(list, quantity, n - 1);
        assert(quantity(list[n - 1]) >= 0);
    }
}

/// There is room for one more stream's counts.
proof fn lemma_room(s: State, protocol: Seq<char>, list: Seq<StreamView>, n: int, b: nat)
    requires
        tree::hierarchy(s),
        bounds::within(s, b),
        state::by_age(s, Some(protocol), list),
        0 <= n < list.len(),
    ensures
        sum_of(list, packets_quantity(), n + 1) <= b,
        sum_of(list, bytes_quantity(), n + 1) <= b,
        sum_of(list, packets_quantity(), n + 1) == sum_of(list, packets_quantity(), n)
            + state::stream_packets(list[n]),
        sum_of(list, bytes_quantity(), n + 1) == sum_of(list, bytes_quantity(), n)
            + state::stream_bytes(list[n]),
        sum_of(list, packets_quantity(), n) >= 0,
        sum_of(list, bytes_quantity(), n) >= 0,
        list[n].stats.len() == 2,
{
    lemma_sum_is_natural(list, packets_quantity(), n);
    lemma_sum_is_natural(list, bytes_quantity(), n);
    lemma_sum_is_covered(s, protocol, list, packets_quantity(), n + 1);
    lemma_sum_is_covered(s, protocol, list, bytes_quantity(), n + 1);
    assert(state::bytes_of(s.slots, protocol) <= b && state::packets_of(s.slots, protocol) <= b);
    lemma_same_total(s.slots, protocol);
    assert(s.get(list[n].id) == Some(list[n]));
    assert(s.live_at(list[n].id.index as int));
    assert(bounds::stream_within(s.at(list[n].id.index as int), b));
}

proof fn lemma_same_total(slots: Seq<Slot>, protocol: Seq<char>)
    ensures
        state::total(slots, slot_quantity(protocol, bytes_quantity())) == state::bytes_of(
            slots,
            protocol,
        ),
        state::total(slots, slot_quantity(protocol, packets_quantity())) == state::packets_of(
            slots,
            protocol,
        ),
    decreases slots.len(),
{
    if slots.len() > 0 {
        lemma_same_total(slots.drop_last(), protocol);
    }
}

/// The kinds of end, in the order in which they are reported.
pub const STOP_CLASSES: [StopClass; 4] = [
    StopClass::Clean,
    StopClass::UnknownPayload,
    StopClass::Malformed,
    StopClass::Suspicious,
];

/// The counts of a capture. Eviction changes none of them but those of the live
/// streams.
#[derive(PartialEq, Eq, Debug)]
pub struct AggregateSummary {
    pub packets: u64,
    pub bytes: u64,
    pub streams_created: u64,
    pub streams_live: u64,
    /// Flows that were folded into condensed nodes; `streams_created` counts
    /// them too.
    pub flows_condensed: u64,
    pub key_errors: u64,
    /// Sorted by protocol name.
    pub per_protocol: Vec<ProtocolCounts>,
    /// Packets by the kind of their end, in the order of [`STOP_CLASSES`].
    pub stop_classes: [(StopClass, u64); 4],
}

/// Whether some rows are the counts of every protocol that ever had a flow: the
/// flows ever created, the live streams and their bytes.
pub open spec fn breaks_down(s: State, rows: Seq<ProtocolCounts>) -> bool {
    &&& tally::sorted(rows)
    &&& forall|i: int|
        0 <= i < rows.len() ==> {
            let r = #[trigger] rows[i];
            &&& s.ever.contains_key(r.protocol@)
            &&& r.ever == s.ever[r.protocol@]
            &&& r.live == state::live_of(s.slots, r.protocol@)
            &&& r.bytes == state::bytes_of(s.slots, r.protocol@)
        }
    &&& forall|p: Seq<char>| #[trigger]
        s.ever.contains_key(p) ==> exists|i: int|
            0 <= i < rows.len() && (#[trigger] rows[i]).protocol@ == p
}

/// Whether a summary is that of a state.
pub open spec fn summarizes(s: State, r: AggregateSummary) -> bool {
    &&& r.packets == s.totals.packets
    &&& r.bytes == s.totals.bytes
    &&& r.streams_created == s.totals.streams_created
    &&& r.streams_live == state::live_count(s.slots)
    &&& r.flows_condensed == s.totals.flows_condensed
    &&& r.key_errors == s.totals.key_errors
    &&& breaks_down(s, r.per_protocol@)
    &&& forall|i: int|
        0 <= i < 4 ==> #[trigger] r.stop_classes@[i] == (
            STOP_CLASSES@[i],
            s.stop_classes[state::class_index(STOP_CLASSES@[i])],
        )
}

/// Whether two summaries are equal in every count and row.
pub open spec fn same_summary(a: AggregateSummary, b: AggregateSummary) -> bool {
    &&& a.packets == b.packets
    &&& a.bytes == b.bytes
    &&& a.streams_created == b.streams_created
    &&& a.streams_live == b.streams_live
    &&& a.flows_condensed == b.flows_condensed
    &&& a.key_errors == b.key_errors
    &&& a.per_protocol@ == b.per_protocol@
    &&& a.stop_classes == b.stop_classes
}

fn copy_rows(rows: &Vec<ProtocolCounts>) -> (r: Vec<ProtocolCounts>)
    ensures
        r@ == rows@,
{
    let n: usize = rows.len();
    let mut out: Vec<ProtocolCounts> = Vec::new();
    let mut i: usize = 0;
    while i < n
        invariant
            n == rows@.len(),
            i <= n,
            out@ == rows@.take(i as int),
        decreases n - i,
    {
        out.push(rows[i]);
        i = i + 1;
        assert(out@ =~= rows@.take(i as int));
    }
    assert(rows@.take(n as int) =~= rows@);
    out
}

impl Clone for AggregateSummary {
    fn clone(&self) -> (r: AggregateSummary)
        ensures
            same_summary(r, *self),
    {
        AggregateSummary {
            packets: self.packets,
            bytes: self.bytes,
            streams_created: self.streams_created,
            streams_live: self.streams_live,
            flows_condensed: self.flows_condensed,
            key_errors: self.key_errors,
            per_protocol: copy_rows(&self.per_protocol),
            stop_classes: self.stop_classes,
        }
    }
}

/// The contents of some shared streams.
pub open spec fn shared_view(s: Seq<Arc<Stream>>) -> Seq<StreamView> {
    Seq::new(s.len(), |i: int| (*s[i])@)
}

/// The contents of some groups of unknown payloads.
pub open spec fn unknowns_view(s: Seq<UnknownGroup>) -> Seq<unknown::Group> {
    Seq::new(s.len(), |i: int| s[i]@)
}

/// What an aggregator held at one time, for other threads to read. It shares the
/// records with the aggregator, which copies one only when it changes it while a
/// snapshot still holds it.
#[derive(PartialEq, Eq, Debug)]
pub struct AggregatorSnapshot {
    /// Every live stream, in the order of their creation.
    pub streams: Vec<Arc<Stream>>,
    /// The streams without a parent, in the order of their creation.
    pub roots: Vec<StreamId>,
    pub summary: AggregateSummary,
    pub clock: Timestamp,
    /// The unknown payloads by shape, those seen most often first.
    pub unknowns: Vec<UnknownGroup>,
}

/// Whether a snapshot is that of a state.
pub open spec fn captures(s: State, r: AggregatorSnapshot) -> bool {
    &&& state::by_age(s, None, shared_view(r.streams@))
    &&& r.roots@ == s.roots
    &&& summarizes(s, r.summary)
    &&& r.clock == s.clock
    &&& unknown::reported(s.unknowns, unknowns_view(r.unknowns@))
}

impl Clone for AggregatorSnapshot {
    fn clone(&self) -> (r: AggregatorSnapshot)
        ensures
            shared_view(r.streams@) == shared_view(self.streams@),
            r.roots@ == self.roots@,
            same_summary(r.summary, self.summary),
            r.clock == self.clock,
            unknowns_view(r.unknowns@) == unknowns_view(self.unknowns@),
    {
        let n: usize = self.streams.len();
        let mut streams: Vec<Arc<Stream>> = Vec::new();
        let mut i: usize = 0;
        while i < n
            invariant
                n == self.streams@.len(),
                i <= n,
                streams@.len() == i,
                forall|j: int| 0 <= j < i ==> *(#[trigger] streams@[j]) == *self.streams@[j],
            decreases n - i,
        {
            streams.push(stream::share(&self.streams[i]));
            i = i + 1;
        }
        assert(shared_view(streams@) =~= shared_view(self.streams@));
        let m: usize = self.unknowns.len();
        let mut unknowns: Vec<UnknownGroup> = Vec::new();
        let mut k: usize = 0;
        while k < m
            invariant
                m == self.unknowns@.len(),
                k <= m,
                unknowns@.len() == k,
                forall|j: int| 0 <= j < k ==> (#[trigger] unknowns@[j])@ == self.unknowns@[j]@,
            decreases m - k,
        {
            unknowns.push(self.unknowns[k].clone());
            k = k + 1;
        }
        assert(unknowns_view(unknowns@) =~= unknowns_view(self.unknowns@));
        AggregatorSnapshot {
            streams,
            roots: stream::copy_ids(&self.roots),
            summary: self.summary.clone(),
            clock: self.clock,
            unknowns,
        }
    }
}

impl Aggregator {
    /// The counts of the capture.
    pub fn summary(&self) -> (r: AggregateSummary)
        requires
            self.wf(),
        ensures
            summarizes(self.view(), r),
    {
        let per_protocol = self.tallies.rows();
        let ghost rows = per_protocol@;
        proof {
            assert forall|i: int| 0 <= i < rows.len() implies {
                let r = #[trigger] rows[i];
                &&& self@.ever.contains_key(r.protocol@)
                &&& r.ever == self@.ever[r.protocol@]
                &&& r.live == state::live_of(self@.slots, r.protocol@)
                &&& r.bytes == state::bytes_of(self@.slots, r.protocol@)
            } by {
                tally::by_name_at(rows, i);
                let p = rows[i].protocol@;
                assert(tally::counts_of(self.tallies@, p).live == state::live_of(self@.slots, p));
                assert(tally::counts_of(self.tallies@, p).bytes == state::bytes_of(self@.slots, p));
            }
            assert forall|p: Seq<char>| #[trigger] self@.ever.contains_key(p) implies exists|i: int|
                0 <= i < rows.len() && (#[trigger] rows[i]).protocol@ == p by {
                assert(self.tallies@.contains_key(p));
            }
        }
        let c = self.stop_classes;
        AggregateSummary {
            packets: self.totals.packets,
            bytes: self.totals.bytes,
            streams_created: self.totals.streams_created,
            streams_live: self.live_count as u64,
            flows_condensed: self.totals.flows_condensed,
            key_errors: self.totals.key_errors,
            per_protocol,
            stop_classes: [
                (StopClass::Clean, c[0]),
                (StopClass::UnknownPayload, c[1]),
                (StopClass::Malformed, c[2]),
                (StopClass::Suspicious, c[3]),
            ],
        }
    }

    /// What the aggregator holds, for other threads to read.
    pub fn snapshot(&self) -> (r: AggregatorSnapshot)
        requires
            self.wf(),
        ensures
            captures(self.view(), r),
    {
        let ids = self.ids_by_age(None);
        let ghost list = Seq::new(ids@.len(), |k: int| self@.get(ids@[k])->0);
        let n: usize = ids.len();
        let mut streams: Vec<Arc<Stream>> = Vec::new();
        let mut i: usize = 0;
        while i < n
            invariant
                n == ids@.len(),
                i <= n,
                forall|k: int| 0 <= k < n ==> self@.live(#[trigger] ids@[k]),
                streams@.len() == i,
                forall|j: int|
                    0 <= j < i ==> (*#[trigger] streams@[j])@ == self@.get(ids@[j])->0,
            decreases n - i,
        {
            let at: usize = ids[i].index as usize;
            assert(self@.live(ids@[i as int]));
            assert(self@.slots[at as int] == self.slots@[at as int]@);
            if let Some(shared) = &self.slots[at].stream {
                streams.push(stream::share(shared));
            }
            i = i + 1;
        }
        assert(shared_view(streams@) =~= list);
        let found = self.unknowns();
        let ghost groups = Seq::new(found@.len(), |k: int| found@[k]@);
        let m: usize = found.len();
        let mut unknowns: Vec<UnknownGroup> = Vec::new();
        let mut k: usize = 0;
        while k < m
            invariant
                m == found@.len(),
                k <= m,
                unknowns@.len() == k,
                forall|j: int| 0 <= j < k ==> (#[trigger] unknowns@[j])@ == found@[j]@,
            decreases m - k,
        {
            unknowns.push(found[k].clone());
            k = k + 1;
        }
        assert(unknowns_view(unknowns@) =~= groups);
        AggregatorSnapshot {
            streams,
            roots: stream::copy_ids(&self.roots),
            summary: self.summary(),
            clock: self.clock,
            unknowns,
        }
    }
}

} // verus!

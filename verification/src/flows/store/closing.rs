//! The end of the capture.
use vstd::prelude::*;

use crate::flows::bounds;
use crate::flows::closing;
use crate::flows::heap::{self, Entry, Heap};
use crate::flows::index;
use crate::flows::state::{self, EvictionPolicy, State};
use crate::flows::store::{self, Aggregator, EvictedStream};
use crate::flows::stream::{CloseReason, StreamId, StreamView};
use crate::flows::tally;
use crate::flows::tree;

verus! {

/// The place of slot `i`'s stream in the closing order: deeper ones first, then
/// older ones.
spec fn closing_entry(s: State, i: int) -> Entry {
    let st = s.at(i);
    Entry {
        time: (-state::depth(s, st.id)) as i128,
        seq: st.created_seq,
        index: st.id.index,
        generation: st.id.generation,
    }
}

/// Whether an entry is that of a stream in the first `n` slots.
spec fn is_listed(s: State, e: Entry, n: int) -> bool {
    exists|i: int| 0 <= i < n && #[trigger] s.live_at(i) && closing_entry(s, i) == e
}

pub(super) open spec fn ids_of(list: Seq<Entry>) -> Seq<StreamId> {
    Seq::new(list.len(), |i: int| state::id_of(list[i]))
}

proof fn lemma_closing_order(s: State, list: Seq<Entry>)
    requires
        tree::hierarchy(s),
        heap::ascending(list),
        list.no_duplicates(),
        forall|j: int|
            0 <= j < list.len() ==> is_listed(s, #[trigger] list[j], s.slots.len() as int),
        forall|e: Entry| #[trigger] is_listed(s, e, s.slots.len() as int) ==> list.contains(e),
    ensures
        state::closing_order(s, ids_of(list)),
{
    let order = ids_of(list);
    let n = s.slots.len() as int;
    assert forall|k: int| 0 <= k < order.len() implies s.live(#[trigger] order[k]) && {
        let i = order[k].index as int;
        s.live_at(i) && s.at(i).id == order[k] && list[k] == closing_entry(s, i)
    } by {
        assert(is_listed(s, list[k], n));
        let i = choose|i: int| 0 <= i < n && s.live_at(i) && closing_entry(s, i) == list[k];
        assert(s.live_at(i));
        assert(s.at(i).id.index == i);
    }
    assert forall|i: int| #[trigger] s.live_at(i) implies order.contains(s.at(i).id) by {
        let e = closing_entry(s, i);
        assert(is_listed(s, e, n));
        let k = choose|k: int| 0 <= k < list.len() && list[k] == e;
        assert(order[k] == s.at(i).id);
    }
    assert forall|j: int, k: int| 0 <= j < k < order.len() implies state::depth(
        s,
        #[trigger] order[j],
    ) > state::depth(s, #[trigger] order[k]) || (state::depth(s, order[j]) == state::depth(
        s,
        order[k],
    ) && s.get(order[j])->0.created_seq < s.get(order[k])->0.created_seq) by {
        let a = order[j].index as int;
        let b = order[k].index as int;
        assert(s.live(order[j]) && s.live(order[k]));
        closing::children_are_deeper(s, order[j]);
        closing::children_are_deeper(s, order[k]);
        assert(heap::before(list[j], list[k]) && list[j] != list[k]);
        if s.at(a).created_seq == s.at(b).created_seq {
            assert(s.live_at(a) && s.live_at(b));
            assert(a == b);
        }
    }
}

impl Aggregator {
    /// How many streams are around a stream.
    fn depth_of(&self, id: StreamId) -> (r: u64)
        requires
            tree::hierarchy(self@),
            self@.live(id),
        ensures
            r == state::depth(self@, id),
    {
        let ghost s = self@;
        let ghost top = s.get(id)->0.created_seq;
        let mut d: u64 = 0;
        let mut at: StreamId = id;
        proof {
            closing::children_are_deeper(s, id);
        }
        loop
            invariant
                s == self@,
                tree::hierarchy(s),
                s.live(at),
                d + state::depth(s, at) == state::depth(s, id),
                d + s.get(at)->0.created_seq <= top,
                top <= u64::MAX,
            ensures
                d == state::depth(s, id),
            decreases s.get(at)->0.created_seq,
        {
            proof {
                closing::children_are_deeper(s, at);
                tree::handles_are_unique(s, at);
                assert(s.live_at(at.index as int));
            }
            let parent = match self.get(at) {
                Some(st) => st.parent,
                None => None,
            };
            match parent {
                Some(p) => {
                    d = d + 1;
                    at = p;
                },
                None => {
                    break;
                },
            }
        }
        d
    }

    /// Queues every stream by its place in the closing order.
    fn closing_queue(&self) -> (r: Heap)
        requires
            tree::hierarchy(self@),
        ensures
            r.wf(),
            forall|e: Entry| #[trigger]
                r@.count(e) == if is_listed(self@, e, self@.slots.len() as int) {
                    1nat
                } else {
                    0nat
                },
    {
        broadcast use vstd::multiset::group_multiset_axioms;

        let ghost s = self@;
        let n: usize = self.slots.len();
        let mut queue = Heap::new();
        let mut i: usize = 0;
        while i < n
            invariant
                s == self@,
                tree::hierarchy(s),
                n == self.slots@.len(),
                n == s.slots.len(),
                i <= n,
                queue.wf(),
                forall|e: Entry| #[trigger]
                    queue@.count(e) == if is_listed(s, e, i as int) {
                        1nat
                    } else {
                        0nat
                    },
            decreases n - i,
        {
            assert(s.slots[i as int] == self.slots@[i as int]@);
            let ghost before = queue@;
            if let Some(st) = &self.slots[i].stream {
                proof {
                    assert(s.live_at(i as int));
                    assert(s.at(i as int) == (**st)@);
                    assert(s.live(st.id));
                    closing::children_are_deeper(s, st.id);
                }
                let d: u64 = self.depth_of(st.id);
                let e = Entry {
                    time: -(d as i128),
                    seq: st.created_seq,
                    index: st.id.index,
                    generation: st.id.generation,
                };
                assert(e == closing_entry(s, i as int));
                queue.push(e);
                proof {
                    assert forall|x: Entry| #[trigger]
                        queue@.count(x) == if is_listed(s, x, i + 1) {
                            1nat
                        } else {
                            0nat
                        } by {
                        if x == e {
                            assert(!is_listed(s, x, i as int)) by {
                                if is_listed(s, x, i as int) {
                                    let j = choose|j: int|
                                        0 <= j < i && s.live_at(j) && closing_entry(s, j) == x;
                                    assert(s.live_at(j));
                                    assert(s.at(j).id.index == j);
                                }
                            }
                            assert(before.count(x) == 0);
                            assert(s.live_at(i as int));
                            assert(is_listed(s, x, i + 1));
                        } else {
                            if is_listed(s, x, i + 1) {
                                let j = choose|j: int|
                                    0 <= j < i + 1 && s.live_at(j) && closing_entry(s, j) == x;
                                assert(s.live_at(j));
                                assert(is_listed(s, x, i as int));
                            }
                            if is_listed(s, x, i as int) {
                                let j = choose|j: int|
                                    0 <= j < i && s.live_at(j) && closing_entry(s, j) == x;
                                assert(s.live_at(j));
                            }
                            assert(before.count(x) == queue@.count(x));
                        }
                    }
                }
            } else {
                proof {
                    assert forall|x: Entry| #[trigger]
                        queue@.count(x) == if is_listed(s, x, i + 1) {
                            1nat
                        } else {
                            0nat
                        } by {
                        if is_listed(s, x, i + 1) {
                            let j = choose|j: int|
                                0 <= j < i + 1 && s.live_at(j) && closing_entry(s, j) == x;
                            assert(s.live_at(j));
                            assert(is_listed(s, x, i as int));
                        }
                        if is_listed(s, x, i as int) {
                            let j = choose|j: int|
                                0 <= j < i && s.live_at(j) && closing_entry(s, j) == x;
                            assert(s.live_at(j));
                        }
                    }
                }
            }
            i = i + 1;
        }
        queue
    }

    /// Every stream, deeper ones first and, at one depth, older ones first.
    fn closing_list(&self) -> (r: Vec<StreamId>)
        requires
            tree::hierarchy(self@),
        ensures
            state::closing_order(self@, r@),
    {
        broadcast use vstd::seq_lib::group_to_multiset_ensures;

        let ghost s = self@;
        let queue = self.closing_queue();
        let ghost counts = queue@;
        let list = queue.into_sorted();
        let ghost n = s.slots.len() as int;
        proof {
            assert forall|e: Entry| #[trigger] list@.to_multiset().count(e) <= 1 by {
                assert(counts.count(e) <= 1);
            }
            heap::counted_once_means_distinct(list@);
            assert forall|e: Entry| #[trigger] is_listed(s, e, n) implies list@.contains(e) by {
                assert(counts.count(e) == 1);
            }
            assert forall|j: int| 0 <= j < list@.len() implies is_listed(
                s,
                #[trigger] list@[j],
                n,
            ) by {
                assert(list@.contains(list@[j]));
                assert(list@.to_multiset().count(list@[j]) > 0);
            }
            lemma_closing_order(s, list@);
        }
        handles_of(&list)
    }
}

/// The handles of some entries.
pub(super) fn handles_of(list: &Vec<Entry>) -> (r: Vec<StreamId>)
    ensures
        r@ == ids_of(list@),
{
    let n: usize = list.len();
    let mut out: Vec<StreamId> = Vec::new();
    let mut i: usize = 0;
    while i < n
        invariant
            n == list@.len(),
            i <= n,
            out@.len() == i,
            forall|j: int| 0 <= j < i ==> out@[j] == state::id_of(#[trigger] list@[j]),
        decreases n - i,
    {
        out.push(StreamId { index: list[i].index, generation: list[i].generation });
        i = i + 1;
    }
    assert(out@ =~= ids_of(list@));
    out
}

impl Aggregator {
    /// Marks a stream as closed, and hands a copy out if the caller collects
    /// them.
    fn mark_closed(&mut self, id: StreamId, Ghost(b): Ghost<nat>)
        requires
            old(self).sound(b),
            old(self)@.live(id),
            old(self)@.config.eviction is Never,
            tree::hierarchy(state::closed(old(self)@, id)),
            bounds::within(state::closed(old(self)@, id), b),
        ensures
            final(self)@ == state::closed(old(self)@, id),
            final(self).sound(b),
    {
        let ghost s0 = self@;
        let ghost t0 = self.tallies@;
        let ghost o = s0.get(id)->0;
        let st = store::stream_mut(&mut self.slots, id.index as usize);
        st.closed = Some(CloseReason::CaptureEnd);
        let ghost after = st@;
        assert(after =~= StreamView { closed: Some(CloseReason::CaptureEnd), ..o });
        if self.config.sink {
            let copy = st.clone();
            let ghost list = self.evicted@;
            let e = EvictedStream { stream: copy, reason: CloseReason::CaptureEnd };
            let ghost x = e;
            self.evicted.push(e);
            assert(store::evicted_view(self.evicted@) =~= store::evicted_view(list).push(x@));
        }
        proof {
            assert(self@ =~= state::closed(s0, id));
            index::indexed_after_update(s0, self@, self.index);
            assert forall|p: Seq<char>| #[trigger]
                tally::counts_of(self.tallies@, p).live == state::live_of(self@.slots, p) by {
                bounds::sums_after_put(s0, id, after, p);
                assert(tally::counts_of(t0, p).live == state::live_of(s0.slots, p));
            }
            assert forall|p: Seq<char>| #[trigger]
                tally::counts_of(self.tallies@, p).bytes == state::bytes_of(self@.slots, p) by {
                bounds::sums_after_put(s0, id, after, p);
                assert(tally::counts_of(t0, p).bytes == state::bytes_of(s0.slots, p));
            }
            bounds::sums_after_put(s0, id, after, o.protocol);
        }
    }

    /// Ends the capture: closes every stream, children before their parents and
    /// older ones first. Where nothing is ever evicted the closed streams stay
    /// for the final report.
    pub fn finish(&mut self)
        requires
            old(self).wf(),
        ensures
            final(self).wf(),
            exists|order: Seq<StreamId>| #[trigger]
                state::closing_order(old(self).view(), order) && final(self).view()
                    == state::closed_all(old(self).view(), order, order.len() as int),
    {
        let ghost s = self@;
        let ghost b = self.load as nat;
        let order = self.closing_list();
        let n: usize = order.len();
        let live = match self.config.eviction {
            EvictionPolicy::Live { .. } => true,
            EvictionPolicy::Never => false,
        };
        let mut k: usize = 0;
        while k < n
            invariant
                n == order@.len(),
                k <= n,
                tree::hierarchy(s),
                bounds::within(s, b),
                b <= u64::MAX,
                state::closing_order(s, order@),
                self.sound(b),
                self.load == b,
                self@ == state::closed_all(s, order@, k as int),
                live == (s.config.eviction is Live),
                closing::closed_so_far(s, self@, order@, k as int),
            decreases n - k,
        {
            let id = order[k];
            proof {
                closing::closing_one_keeps(s, self@, order@, k as int, b);
                if live {
                    closing::children_go_first(s, self@, order@, k as int);
                }
            }
            if live {
                self.evict(id, CloseReason::CaptureEnd, Ghost(b));
            } else {
                self.mark_closed(id, Ghost(b));
            }
            k = k + 1;
        }
    }

    /// The streams that left since the last call, in the order in which they
    /// left.
    pub fn take_evicted(&mut self) -> (r: Vec<EvictedStream>)
        requires
            old(self).wf(),
        ensures
            final(self).wf(),
            store::evicted_view(r@) == old(self).view().evicted,
            final(self).view() == (State { evicted: Seq::empty(), ..old(self).view() }),
    {
        let ghost s0 = self@;
        let mut out: Vec<EvictedStream> = Vec::new();
        std::mem::swap(&mut out, &mut self.evicted);
        proof {
            assert(self@.evicted =~= Seq::empty());
            assert(self@ =~= State { evicted: Seq::empty(), ..s0 });
            crate::flows::queues::lemma_same_hierarchy(s0, self@);
            crate::flows::queues::lemma_same_bounds(s0, self@, self.load as nat);
            index::indexed_after_update(s0, self@, self.index);
        }
        out
    }
}

} // verus!

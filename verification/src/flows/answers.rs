//! What the questions to an aggregator are answered with.
use vstd::prelude::*;

use crate::flows::accounts;
use crate::flows::bounds;
use crate::flows::state::{self, Slot, State};
use crate::flows::store::query::{self, AggregateSummary};
use crate::flows::stream::{StreamId, StreamView};
use crate::flows::tree;
use crate::packet::{Packet, StopClass, StopReason};

verus! {

/// Whether a list holds no stream twice, the older ones first.
pub open spec fn by_creation(list: Seq<StreamView>) -> bool {
    forall|j: int, k: int|
        0 <= j < k < list.len() ==> (#[trigger] list[j]).created_seq < (
        #[trigger] list[k]).created_seq
}

proof fn lemma_of_live_handles(s: State, ids: Seq<StreamId>, n: int)
    requires
        forall|k: int| 0 <= k < ids.len() ==> s.live(#[trigger] ids[k]),
        0 <= n <= ids.len(),
    ensures
        state::of_handles(s, ids, n) == Seq::new(n as nat, |k: int| s.get(ids[k])->0),
    decreases n,
{
    if n > 0 {
        assert(s.live(ids[n - 1]));
        lemma_of_live_handles(s, ids, n - 1);
    }
    assert(state::of_handles(s, ids, n) =~= Seq::new(n as nat, |k: int| s.get(ids[k])->0));
}

/// The roots are the live streams without a parent, each once, the older ones first.
pub proof fn roots_are_listed(s: State)
    requires
        tree::hierarchy(s),
    ensures
        ({
            let list = state::of_handles(s, s.roots, s.roots.len() as int);
            &&& forall|i: int| #[trigger]
                s.live_at(i) && s.at(i).parent is None ==> list.contains(s.at(i))
            &&& forall|k: int|
                0 <= k < list.len() ==> {
                    let st = #[trigger] list[k];
                    &&& s.live_at(st.id.index as int)
                    &&& st == s.at(st.id.index as int)
                    &&& st.parent is None
                }
            &&& by_creation(list)
        }),
{
    let ids = s.roots;
    let list = state::of_handles(s, ids, ids.len() as int);
    lemma_of_live_handles(s, ids, ids.len() as int);
    assert forall|k: int| 0 <= k < list.len() implies {
        let st = #[trigger] list[k];
        &&& s.live_at(st.id.index as int)
        &&& st == s.at(st.id.index as int)
        &&& st.parent is None
    } by {
        assert(s.live(ids[k]));
        tree::handles_are_unique(s, ids[k]);
    }
    assert forall|i: int| #[trigger]
        s.live_at(i) && s.at(i).parent is None implies list.contains(s.at(i)) by {
        let k = ids.index_of(s.at(i).id);
        assert(ids[k] == s.at(i).id);
        tree::handles_are_unique(s, ids[k]);
        assert(list[k] == s.at(i));
    }
    assert forall|j: int, k: int| 0 <= j < k < list.len() implies (
    #[trigger] list[j]).created_seq < (#[trigger] list[k]).created_seq by {
        assert(s.get(ids[j])->0.created_seq < s.get(ids[k])->0.created_seq);
    }
}

/// A stream's children are the live streams that have it as their parent, each once,
/// the older ones first.
pub proof fn children_are_listed(s: State, id: StreamId)
    requires
        tree::hierarchy(s),
        s.get(id) is Some,
    ensures
        ({
            let ids = s.get(id)->0.children;
            let list = state::of_handles(s, ids, ids.len() as int);
            &&& forall|i: int| #[trigger]
                s.live_at(i) && s.at(i).parent == Some(id) ==> list.contains(s.at(i))
            &&& forall|k: int|
                0 <= k < list.len() ==> {
                    let st = #[trigger] list[k];
                    &&& s.live_at(st.id.index as int)
                    &&& st == s.at(st.id.index as int)
                    &&& st.parent == Some(id)
                }
            &&& by_creation(list)
        }),
{
    tree::handles_are_unique(s, id);
    let i = id.index as int;
    assert(s.live_at(i));
    let ids = s.at(i).children;
    let list = state::of_handles(s, ids, ids.len() as int);
    assert forall|k: int| 0 <= k < ids.len() implies s.live(#[trigger] ids[k]) by {
        assert(s.live(s.at(i).children[k]));
    }
    lemma_of_live_handles(s, ids, ids.len() as int);
    assert forall|k: int| 0 <= k < list.len() implies {
        let st = #[trigger] list[k];
        &&& s.live_at(st.id.index as int)
        &&& st == s.at(st.id.index as int)
        &&& st.parent == Some(id)
    } by {
        assert(s.live(s.at(i).children[k]));
        tree::handles_are_unique(s, ids[k]);
    }
    assert forall|j: int| #[trigger]
        s.live_at(j) && s.at(j).parent == Some(id) implies list.contains(s.at(j)) by {
        let k = ids.index_of(s.at(j).id);
        assert(ids[k] == s.at(j).id);
        tree::handles_are_unique(s, ids[k]);
        assert(list[k] == s.at(j));
    }
    assert forall|j: int, k: int| 0 <= j < k < list.len() implies (
    #[trigger] list[j]).created_seq < (#[trigger] list[k]).created_seq by {
        assert(s.get(ids[j])->0.created_seq < s.get(ids[k])->0.created_seq);
    }
}

/// The number of streams of a protocol in a list.
pub open spec fn number_of(list: Seq<StreamView>, protocol: Seq<char>) -> int
    decreases list.len(),
{
    if list.len() == 0 {
        0
    } else if list.last().protocol == protocol {
        number_of(list.drop_last(), protocol) + 1
    } else {
        number_of(list.drop_last(), protocol)
    }
}

/// What the streams of a protocol in a list carry, both ways.
pub open spec fn carried(list: Seq<StreamView>, protocol: Seq<char>) -> int
    decreases list.len(),
{
    if list.len() == 0 {
        0
    } else if list.last().protocol == protocol {
        carried(list.drop_last(), protocol) + list.last().stats[0].bytes
            + list.last().stats[1].bytes
    } else {
        carried(list.drop_last(), protocol)
    }
}

proof fn lemma_in_slots(slots: Seq<Slot>, n: int, p: Seq<char>)
    requires
        0 <= n <= slots.len(),
    ensures
        state::in_slots(slots, n).len() == state::live_count(slots.take(n)),
        number_of(state::in_slots(slots, n), p) == state::live_of(slots.take(n), p),
        carried(state::in_slots(slots, n), p) == state::bytes_of(slots.take(n), p),
    decreases n,
{
    if n > 0 {
        lemma_in_slots(slots, n - 1, p);
        assert(slots.take(n).drop_last() =~= slots.take(n - 1));
        assert(slots.take(n).last() == slots[n - 1]);
        if slots[n - 1].stream is Some {
            let list = state::in_slots(slots, n);
            assert(list.drop_last() =~= state::in_slots(slots, n - 1));
            assert(list.last() == slots[n - 1].stream->0);
        }
    }
}

proof fn lemma_held(slots: Seq<Slot>, n: int)
    requires
        0 <= n <= slots.len(),
    ensures
        forall|k: int|
            0 <= k < state::in_slots(slots, n).len() ==> exists|i: int|
                0 <= i < n && (#[trigger] slots[i]).stream == Some(
                    #[trigger] state::in_slots(slots, n)[k],
                ),
        forall|i: int|
            0 <= i < n && (#[trigger] slots[i]).stream is Some ==> state::in_slots(
                slots,
                n,
            ).contains(slots[i].stream->0),
    decreases n,
{
    if n > 0 {
        lemma_held(slots, n - 1);
        let before = state::in_slots(slots, n - 1);
        let list = state::in_slots(slots, n);
        assert forall|k: int| 0 <= k < list.len() implies exists|i: int|
            0 <= i < n && (#[trigger] slots[i]).stream == Some(#[trigger] list[k]) by {
            if k < before.len() {
                assert(list[k] == before[k]);
                let i = choose|i: int|
                    0 <= i < n - 1 && (#[trigger] slots[i]).stream == Some(before[k]);
                assert(slots[i].stream == Some(list[k]));
            } else {
                assert(slots[n - 1].stream == Some(list[k]));
            }
        }
        assert forall|i: int| 0 <= i < n && (#[trigger] slots[i]).stream is Some implies list
            .contains(slots[i].stream->0) by {
            if i < n - 1 {
                let k = before.index_of(slots[i].stream->0);
                assert(before.contains(slots[i].stream->0));
                assert(list[k] == before[k]);
            } else {
                assert(list[list.len() - 1] == slots[i].stream->0);
            }
        }
    }
}

/// The list of all streams holds every live stream, and nothing else; it is as long
/// as they are many, and what a summary says of a protocol is what the list holds of
/// it.
pub proof fn every_stream_is_listed(s: State, r: AggregateSummary)
    requires
        query::summarizes(s, r),
    ensures
        ({
            let list = state::in_slots(s.slots, s.slots.len() as int);
            &&& forall|i: int| #[trigger] s.live_at(i) ==> list.contains(s.at(i))
            &&& forall|k: int|
                0 <= k < list.len() ==> exists|i: int| #[trigger]
                    s.live_at(i) && s.at(i) == #[trigger] list[k]
            &&& r.streams_live == list.len()
            &&& forall|k: int|
                0 <= k < r.per_protocol@.len() ==> {
                    let row = #[trigger] r.per_protocol@[k];
                    &&& row.live == number_of(list, row.protocol@)
                    &&& row.bytes == carried(list, row.protocol@)
                }
        }),
{
    let n = s.slots.len() as int;
    let list = state::in_slots(s.slots, n);
    assert(s.slots.take(n) =~= s.slots);
    lemma_held(s.slots, n);
    lemma_in_slots(s.slots, n, Seq::empty());
    assert forall|i: int| #[trigger] s.live_at(i) implies list.contains(s.at(i)) by {
        assert(s.slots[i].stream is Some);
    }
    assert forall|k: int| 0 <= k < list.len() implies exists|i: int| #[trigger]
        s.live_at(i) && s.at(i) == #[trigger] list[k] by {
        let i = choose|i: int| 0 <= i < n && (#[trigger] s.slots[i]).stream == Some(list[k]);
        assert(s.live_at(i));
    }
    assert forall|k: int| 0 <= k < r.per_protocol@.len() implies {
        let row = #[trigger] r.per_protocol@[k];
        &&& row.live == number_of(list, row.protocol@)
        &&& row.bytes == carried(list, row.protocol@)
    } by {
        lemma_in_slots(s.slots, n, r.per_protocol@[k].protocol@);
    }
}

/// A list by age holds a live stream exactly where it is asked for, and none twice.
pub proof fn lists_by_age_tell_every_stream(
    s: State,
    protocol: Option<Seq<char>>,
    list: Seq<StreamView>,
    i: int,
)
    requires
        tree::hierarchy(s),
        state::by_age(s, protocol, list),
        s.live_at(i),
    ensures
        list.contains(s.at(i)) <==> (protocol matches Some(p) ==> s.at(i).protocol == p),
        list.no_duplicates(),
{
    if list.contains(s.at(i)) {
        let k = list.index_of(s.at(i));
        assert(list[k] == s.at(i));
    }
    assert forall|j: int, k: int| 0 <= j < list.len() && 0 <= k < list.len() && j != k implies
        list[j] != list[k] by {
        if j < k {
            assert(list[j].created_seq < list[k].created_seq);
        } else {
            assert(list[k].created_seq < list[j].created_seq);
        }
    }
}

/// How a packet's end is counted: one that was read to its end as clean, one that
/// left a payload nobody knows as such, one that a protocol declined as malformed,
/// and one of too many layers as suspicious.
pub proof fn ends_are_told_apart(stop: StopReason)
    ensures
        stop.spec_class() == StopClass::Clean <==> stop is Complete,
        stop.spec_class() == StopClass::UnknownPayload <==> stop is UnclaimedRoute || stop
            is NoHeuristicWinner,
        stop.spec_class() == StopClass::Malformed <==> stop is PluginError,
        stop.spec_class() == StopClass::Suspicious <==> stop is LayerLimit,
{
}

/// Between two summaries with one packet between them there is that packet: one
/// more, of its length, under the kind of its end and no other.
pub proof fn summaries_tell_of_the_packet(
    s: State,
    pkt: Packet,
    r: AggregateSummary,
    q: AggregateSummary,
)
    requires
        tree::hierarchy(s),
        bounds::within(s, s.load),
        accounts::adds_up(s),
        accounts::classes_add_up(s),
        s.totals.packets < u64::MAX,
        state::has_room(s, pkt),
        query::summarizes(s, r),
        query::summarizes(state::ingested(s, pkt), q),
    ensures
        q.packets == r.packets + 1,
        q.bytes == r.bytes + pkt.meta.origlen,
        q.streams_created >= r.streams_created,
        forall|i: int|
            0 <= i < 4 ==> {
                let (class, before) = r.stop_classes@[i];
                let (same, after) = #[trigger] q.stop_classes@[i];
                let its_own = match class {
                    StopClass::Clean => pkt.stop is Complete,
                    StopClass::UnknownPayload => pkt.stop is UnclaimedRoute || pkt.stop
                        is NoHeuristicWinner,
                    StopClass::Malformed => pkt.stop is PluginError,
                    StopClass::Suspicious => pkt.stop is LayerLimit,
                };
                &&& same == class
                &&& after == if its_own {
                    before + 1
                } else {
                    before as int
                }
            },
        q.stop_classes@[0].0 == StopClass::Clean,
        q.stop_classes@[1].0 == StopClass::UnknownPayload,
        q.stop_classes@[2].0 == StopClass::Malformed,
        q.stop_classes@[3].0 == StopClass::Suspicious,
{
    accounts::a_packet_is_counted_once(s, pkt);
    let t = state::ingested(s, pkt);
    let a = r.stop_classes@;
    let b = q.stop_classes@;
    assert(a[0].1 == s.stop_classes[0] && b[0].1 == t.stop_classes[0]);
    assert(a[1].1 == s.stop_classes[1] && b[1].1 == t.stop_classes[1]);
    assert(a[2].1 == s.stop_classes[2] && b[2].1 == t.stop_classes[2]);
    assert(a[3].1 == s.stop_classes[3] && b[3].1 == t.stop_classes[3]);
}

} // verus!

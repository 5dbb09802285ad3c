//! The end of the capture: streams are closed children first.
use vstd::prelude::*;

use crate::flows::bounds;
use crate::flows::queues;
use crate::flows::state::{self, Evicted, State};
use crate::flows::stream::{CloseReason, StreamId, StreamView};
use crate::flows::tree;

verus! {

/// A child is one deeper than its parent.
pub proof fn children_are_deeper(s: State, id: StreamId)
    requires
        tree::hierarchy(s),
        s.live(id),
    ensures
        s.get(id)->0.parent matches Some(p) ==> s.live(p) && state::depth(s, id) == state::depth(
            s,
            p,
        ) + 1,
        s.get(id)->0.parent is None ==> state::depth(s, id) == 0,
        0 <= state::depth(s, id) <= s.get(id)->0.created_seq,
    decreases s.get(id)->0.created_seq,
{
    assert(s.live_at(id.index as int));
    if s.get(id)->0.parent is Some {
        let p = s.get(id)->0.parent->0;
        assert(s.live(p));
        children_are_deeper(s, p);
    }
}

/// Whether `order` lists a handle before place `k`.
pub open spec fn passed(order: Seq<StreamId>, k: int, id: StreamId) -> bool {
    exists|j: int| 0 <= j < k && order[j] == id
}

/// No stream is listed twice.
pub proof fn order_is_distinct(s: State, order: Seq<StreamId>)
    requires
        state::closing_order(s, order),
    ensures
        order.no_duplicates(),
{
    assert forall|i: int, j: int|
        0 <= i < order.len() && 0 <= j < order.len() && i != j implies order[i] != order[j] by {
        if i < j {
            assert(state::depth(s, order[i]) > state::depth(s, order[j]) || s.get(
                order[i],
            )->0.created_seq < s.get(order[j])->0.created_seq);
        } else {
            assert(state::depth(s, order[j]) > state::depth(s, order[i]) || s.get(
                order[j],
            )->0.created_seq < s.get(order[i])->0.created_seq);
        }
    }
}

/// What closing the first `k` streams has done: in a live capture they are gone,
/// else they are marked; the others are where they were.
pub open spec fn closed_so_far(s: State, t: State, order: Seq<StreamId>, k: int) -> bool {
    &&& t.config == s.config
    &&& t.slots.len() == s.slots.len()
    &&& forall|x: StreamId| #[trigger]
        t.live(x) <==> s.live(x) && !(s.config.eviction is Live && passed(order, k, x))
    &&& forall|x: StreamId| #[trigger]
        t.live(x) ==> t.get(x)->0.parent == s.get(x)->0.parent && t.get(x)->0.created_seq == s.get(
            x,
        )->0.created_seq
    &&& s.config.eviction is Never ==> forall|x: StreamId| #[trigger]
        t.live(x) && passed(order, k, x) ==> t.get(x)->0.closed == Some(CloseReason::CaptureEnd)
}

/// When a stream's turn comes, its children are gone.
pub proof fn children_go_first(s: State, t: State, order: Seq<StreamId>, k: int)
    requires
        tree::hierarchy(s),
        state::closing_order(s, order),
        tree::hierarchy(t),
        closed_so_far(s, t, order, k),
        0 <= k < order.len(),
        s.config.eviction is Live,
    ensures
        t.live(order[k]),
        t.get(order[k])->0.children.len() == 0,
{
    let id = order[k];
    order_is_distinct(s, order);
    assert(s.live(id));
    assert(!passed(order, k, id)) by {
        if passed(order, k, id) {
            let j = choose|j: int| 0 <= j < k && order[j] == id;
            assert(order[j] != order[k]);
        }
    }
    assert(t.live(id));
    let st = t.get(id)->0;
    tree::handles_are_unique(t, id);
    if st.children.len() > 0 {
        let c = st.children[0];
        assert(t.live_at(id.index as int));
        assert(t.live(t.at(id.index as int).children[0]));
        assert(t.get(c)->0.parent == Some(id));
        assert(s.live(c));
        assert(s.get(c)->0.parent == Some(id));
        children_are_deeper(s, c);
        tree::handles_are_unique(s, c);
        assert(order.contains(s.at(c.index as int).id));
        let j = choose|j: int| 0 <= j < order.len() && order[j] == c;
        if j < k {
            assert(passed(order, k, c));
        } else if j > k {
            assert(state::depth(s, order[k]) >= state::depth(s, order[j]));
        } else {
            assert(false);
        }
        assert(false);
    }
}

/// Closing one more stream.
pub proof fn closing_one_keeps(s: State, t: State, order: Seq<StreamId>, k: int, b: nat)
    requires
        tree::hierarchy(s),
        state::closing_order(s, order),
        tree::hierarchy(t),
        bounds::within(t, b),
        closed_so_far(s, t, order, k),
        0 <= k < order.len(),
    ensures
        t.live(order[k]),
        tree::hierarchy(state::closed(t, order[k])),
        bounds::within(state::closed(t, order[k]), b),
        closed_so_far(s, state::closed(t, order[k]), order, k + 1),
        state::closed(t, order[k]).evicted == if s.config.sink {
            t.evicted.push(
                Evicted {
                    stream: StreamView {
                        closed: Some(CloseReason::CaptureEnd),
                        ..t.get(order[k])->0
                    },
                    reason: CloseReason::CaptureEnd,
                },
            )
        } else {
            t.evicted
        },
        state::closed(t, order[k]).load == t.load,
{
    let id = order[k];
    let u = state::closed(t, id);
    assert(s.live(id));
    assert forall|x: StreamId| passed(order, k + 1, x) == (passed(order, k, x) || x == id) by {
        if passed(order, k + 1, x) {
            let j = choose|j: int| 0 <= j < k + 1 && order[j] == x;
            if j < k {
                assert(passed(order, k, x));
            }
        }
        if passed(order, k, x) {
            let j = choose|j: int| 0 <= j < k && order[j] == x;
            assert(0 <= j < k + 1 && order[j] == x);
        }
        if x == id {
            assert(0 <= k < k + 1 && order[k] == x);
        }
    }
    if s.config.eviction is Live {
        children_go_first(s, t, order, k);
        tree::evicting_keeps_the_hierarchy(t, id, CloseReason::CaptureEnd);
        tree::evicting_removes_one(t, id, CloseReason::CaptureEnd);
        bounds::within_after_evict(t, b, id, CloseReason::CaptureEnd);
        assert forall|x: StreamId| #[trigger] u.live(x) implies u.get(x)->0.parent == s.get(
            x,
        )->0.parent && u.get(x)->0.created_seq == s.get(x)->0.created_seq by {
            assert(t.live(x));
        }
    } else {
        let st = t.get(id)->0;
        assert(t.live(id));
        let after = StreamView { closed: Some(CloseReason::CaptureEnd), ..st };
        tree::updating_keeps_the_hierarchy(t, id, after);
        assert(t.live_at(id.index as int));
        assert(bounds::stream_within(t.at(id.index as int), b));
        bounds::within_after_put(t, b, id, after, b);
        let put = t.put(id, after);
        queues::lemma_same_hierarchy(put, u);
        queues::lemma_same_bounds(put, u, b);
        assert forall|x: StreamId| #[trigger] u.live(x) <==> t.live(x) by {}
        assert forall|x: StreamId| #[trigger] u.live(x) implies u.get(x)->0.parent == s.get(
            x,
        )->0.parent && u.get(x)->0.created_seq == s.get(x)->0.created_seq by {
            assert(t.live(x));
            tree::handles_are_unique(t, x);
            tree::handles_are_unique(t, id);
            if x.index == id.index {
                assert(x == id);
            }
        }
        assert forall|x: StreamId| #[trigger]
            u.live(x) && passed(order, k + 1, x) implies u.get(x)->0.closed == Some(
            CloseReason::CaptureEnd,
        ) by {
            assert(t.live(x));
            tree::handles_are_unique(t, x);
            if x.index == id.index {
                tree::handles_are_unique(t, id);
                assert(x == id);
            }
        }
    }
}

/// What was handed out since `s`: the first `k` streams of an order, each closed
/// by the end of the capture.
pub open spec fn handed_out(s: State, t: State, order: Seq<StreamId>, k: int) -> bool {
    if s.config.sink {
        &&& t.evicted.len() == s.evicted.len() + k
        &&& forall|j: int| 0 <= j < s.evicted.len() ==> #[trigger] t.evicted[j] == s.evicted[j]
        &&& forall|j: int|
            s.evicted.len() <= j < s.evicted.len() + k ==> (#[trigger] t.evicted[j]).stream.id
                == order[j - s.evicted.len()] && t.evicted[j].stream.closed == Some(
                CloseReason::CaptureEnd,
            ) && t.evicted[j].reason == CloseReason::CaptureEnd
    } else {
        t.evicted == s.evicted
    }
}

/// Closing the first streams of an order keeps the hierarchy, and hands them out
/// in that order.
pub proof fn closing_all_keeps(s: State, order: Seq<StreamId>, k: nat, b: nat)
    requires
        tree::hierarchy(s),
        bounds::within(s, b),
        state::closing_order(s, order),
        k <= order.len(),
    ensures
        ({
            let t = state::closed_all(s, order, k as int);
            &&& tree::hierarchy(t)
            &&& bounds::within(t, b)
            &&& closed_so_far(s, t, order, k as int)
            &&& handed_out(s, t, order, k as int)
            &&& t.load == s.load
        }),
    decreases k,
{
    if k > 0 {
        let t = state::closed_all(s, order, k - 1);
        closing_all_keeps(s, order, (k - 1) as nat, b);
        closing_one_keeps(s, t, order, k - 1, b);
        tree::handles_are_unique(t, order[k - 1]);
    }
}

/// The end of a capture closes every stream and hands each out once, children
/// before their parents. In a live capture none is left; else all stay and are
/// marked.
pub proof fn the_end_closes_everything(s: State, order: Seq<StreamId>, b: nat)
    requires
        tree::hierarchy(s),
        bounds::within(s, b),
        state::closing_order(s, order),
    ensures
        ({
            let t = state::closed_all(s, order, order.len() as int);
            &&& handed_out(s, t, order, order.len() as int)
            &&& order.no_duplicates()
            &&& forall|i: int| #[trigger] s.live_at(i) ==> order.contains(s.at(i).id)
            &&& forall|j: int, k: int|
                #![trigger order[j], order[k]]
                0 <= j < order.len() && 0 <= k < order.len() && s.get(order[j])->0.parent == Some(
                    order[k],
                ) ==> j < k
            &&& s.config.eviction is Live ==> forall|x: StreamId| !#[trigger] t.live(x)
            &&& s.config.eviction is Never ==> forall|x: StreamId| #[trigger]
                s.live(x) ==> t.live(x) && t.get(x)->0.closed == Some(CloseReason::CaptureEnd)
        }),
{
    let n = order.len();
    let t = state::closed_all(s, order, n as int);
    closing_all_keeps(s, order, n, b);
    order_is_distinct(s, order);
    assert forall|x: StreamId| #[trigger] s.live(x) implies passed(order, n as int, x) by {
        tree::handles_are_unique(s, x);
        assert(order.contains(s.at(x.index as int).id));
        let j = choose|j: int| 0 <= j < order.len() && order[j] == x;
        assert(0 <= j < n && order[j] == x);
    }
    assert forall|j: int, k: int|
        #![trigger order[j], order[k]]
        0 <= j < order.len() && 0 <= k < order.len() && s.get(order[j])->0.parent == Some(
            order[k],
        ) implies j < k by {
        children_are_deeper(s, order[j]);
        if k < j {
            assert(state::depth(s, order[k]) >= state::depth(s, order[j]));
        }
    }
}

} // verus!

//! The two queues: each step of a sweep and of the cap comes closer to its end,
//! and keeps what holds of every state.
use vstd::multiset::Multiset;
use vstd::prelude::*;

use crate::flows::bounds;
use crate::flows::heap::{self, Entry};
use crate::flows::state::{self, State};
use crate::flows::stream::CloseReason;
use crate::flows::tree;

verus! {

proof fn lemma_filter_same(m: Multiset<Entry>, f: spec_fn(Entry) -> bool, g: spec_fn(Entry) -> bool)
    requires
        forall|e: Entry| #[trigger] f(e) == g(e),
    ensures
        m.filter(f) == m.filter(g),
{
    broadcast use vstd::multiset::group_multiset_axioms;

    assert forall|e: Entry| m.filter(f).count(e) == m.filter(g).count(e) by {
        assert(f(e) == g(e));
    }
    assert(m.filter(f) =~= m.filter(g));
}

/// Taking out an entry that is counted makes the count smaller by one.
proof fn lemma_filter_remove(m: Multiset<Entry>, e: Entry, f: spec_fn(Entry) -> bool)
    requires
        m.count(e) > 0,
        f(e),
    ensures
        m.remove(e).filter(f).len() == m.filter(f).len() - 1,
{
    broadcast use vstd::multiset::group_multiset_axioms;

    assert(m.remove(e).filter(f) =~= m.filter(f).remove(e)) by {
        assert forall|x: Entry| m.remove(e).filter(f).count(x) == m.filter(f).remove(e).count(
            x,
        ) by {}
    }
    assert(m.filter(f).count(e) > 0);
}

/// An entry that is not counted does not change the count.
proof fn lemma_filter_insert(m: Multiset<Entry>, e: Entry, f: spec_fn(Entry) -> bool)
    requires
        !f(e),
    ensures
        m.insert(e).filter(f).len() == m.filter(f).len(),
{
    broadcast use vstd::multiset::group_multiset_axioms;

    assert(m.insert(e).filter(f) =~= m.filter(f)) by {
        assert forall|x: Entry| m.insert(e).filter(f).count(x) == m.filter(f).count(x) by {}
    }
}

/// A step of a sweep keeps the hierarchy and the bounds and comes closer to the
/// end.
pub proof fn sweeping_progresses(s: State, b: nat)
    requires
        tree::hierarchy(s),
        bounds::within(s, b),
        state::sweepable(s),
    ensures
        tree::hierarchy(state::sweep_step(s)),
        bounds::within(state::sweep_step(s), b),
        state::sweep_progress(s, state::sweep_step(s)),
{
    let e = heap::first(s.expiry);
    heap::first_is_earliest(s.expiry);
    let id = state::id_of(e);
    let t = State { expiry: s.expiry.remove(e), ..s };
    let u = state::sweep_step(s);
    let f = |x: Entry| x.time <= s.clock;
    lemma_filter_remove(s.expiry, e, f);
    assert forall|i: int| t.live_at(i) == #[trigger] s.live_at(i) by {}
    assert(tree::hierarchy(t)) by {
        lemma_same_hierarchy(s, t);
    }
    assert(bounds::within(t, b)) by {
        lemma_same_bounds(s, t, b);
    }
    bounds::live_count_is_bounded(s.slots);
    match state::deadline(t, id) {
        None => {
            assert(u == t);
        },
        Some(d) => {
            let st = t.get(id)->0;
            assert(s.live_at(id.index as int));
            assert(bounds::stream_within(s.at(id.index as int), b));
            if d > t.clock {
                let x = Entry { time: d as i128, ..e };
                assert(x.time == d);
                lemma_filter_insert(t.expiry, x, f);
                lemma_same_hierarchy(s, u);
                lemma_same_bounds(s, u, b);
            } else if st.children.len() == 0 {
                let reason = state::due_reason(t, st);
                tree::evicting_keeps_the_hierarchy(t, id, reason);
                bounds::within_after_evict(t, b, id, reason);
                bounds::sums_after_evict(t, id, reason, st.protocol);
                bounds::live_count_is_bounded(u.slots);
            } else {
                assert(u == t);
            }
        },
    }
}

/// The hierarchy is a matter of the slots, the free list, the roots and the next
/// number.
pub proof fn lemma_same_hierarchy(s: State, t: State)
    requires
        tree::hierarchy(s),
        t.slots == s.slots,
        t.free == s.free,
        t.roots == s.roots,
        t.next_seq == s.next_seq,
    ensures
        tree::hierarchy(t),
{
    assert forall|i: int| #[trigger] t.live_at(i) == s.live_at(i) && t.at(i) == s.at(i) by {}
    assert forall|x: crate::flows::stream::StreamId| #[trigger]
        t.live(x) == s.live(x) && t.get(x) == s.get(x) by {}
    assert(tree::numbered(t)) by {
        assert forall|i: int, j: int|
            #![trigger t.live_at(i), t.live_at(j)]
            t.live_at(i) && t.live_at(j) && i != j implies t.at(i).created_seq != t.at(
            j,
        ).created_seq by {
            assert(s.live_at(i) && s.live_at(j));
        }
        assert forall|i: int| #[trigger] t.live_at(i) implies t.at(i).id.index == i && t.at(
            i,
        ).id.generation == t.slots[i].generation && t.at(i).created_seq < t.next_seq by {
            assert(s.live_at(i));
        }
    }
    assert forall|ids: Seq<crate::flows::stream::StreamId>| #[trigger]
        tree::in_order(s, ids) implies tree::in_order(t, ids) by {}
    assert(tree::upward(t)) by {
        assert forall|i: int| #[trigger] t.live_at(i) implies match t.at(i).parent {
            Some(p) => t.live(p) && t.get(p)->0.children.contains(t.at(i).id) && t.get(
                p,
            )->0.created_seq < t.at(i).created_seq,
            None => t.roots.contains(t.at(i).id),
        } by {
            assert(s.live_at(i));
            if t.at(i).parent is Some {
                let p = t.at(i).parent->0;
                assert(t.live(p) == s.live(p));
            }
        }
    }
    assert(tree::downward(t)) by {
        assert forall|i: int, k: int|
            t.live_at(i) && 0 <= k < t.at(i).children.len() implies t.live(
            #[trigger] t.at(i).children[k],
        ) && t.get(t.at(i).children[k])->0.parent == Some(t.at(i).id) by {
            assert(s.live_at(i));
            assert(s.live(s.at(i).children[k]));
        }
        assert forall|i: int| #[trigger] t.live_at(i) implies tree::in_order(
            t,
            t.at(i).children,
        ) by {
            assert(s.live_at(i));
            assert(tree::in_order(s, s.at(i).children));
        }
    }
    assert(tree::rooted(t)) by {
        assert(tree::in_order(s, s.roots));
        assert forall|k: int| 0 <= k < t.roots.len() implies t.live(#[trigger] t.roots[k]) && t.get(
            t.roots[k],
        )->0.parent is None by {
            assert(s.live(s.roots[k]));
        }
    }
}

/// The bounds are no matter of the queues, the roots or the streams handed out.
pub proof fn lemma_same_bounds(s: State, t: State, b: nat)
    requires
        bounds::within(s, b),
        t.slots == s.slots,
        t.config == s.config,
        t.clock == s.clock,
        t.stop_classes == s.stop_classes,
        t.totals == s.totals,
        t.next_seq == s.next_seq,
        t.ever == s.ever,
        t.groups == s.groups,
        t.unknowns == s.unknowns,
    ensures
        bounds::within(t, b),
{
    assert forall|i: int| #[trigger] t.live_at(i) implies bounds::stream_within(t.at(i), b) by {
        assert(s.live_at(i));
    }
}

/// A step of the cap keeps the hierarchy and the bounds and comes closer to the
/// cap.
pub proof fn capping_progresses(s: State, b: nat)
    requires
        tree::hierarchy(s),
        bounds::within(s, b),
        state::over_cap(s),
    ensures
        tree::hierarchy(state::cap_step(s)),
        bounds::within(state::cap_step(s), b),
        state::cap_progress(s, state::cap_step(s)),
{
    let e = heap::first(s.lru);
    heap::first_is_earliest(s.lru);
    let id = state::id_of(e);
    let t = State { lru: s.lru.remove(e), ..s };
    let u = state::cap_step(s);
    let f = |x: Entry| !state::accurate(s, x);
    lemma_same_hierarchy(s, t);
    lemma_same_bounds(s, t, b);
    bounds::live_count_is_bounded(s.slots);
    if u.slots == s.slots {
        let g = |x: Entry| !state::accurate(u, x);
        assert forall|x: Entry| #[trigger] f(x) == g(x) by {
            assert(u.get(state::id_of(x)) == s.get(state::id_of(x)));
        }
        lemma_filter_same(u.lru, f, g);
    }
    match t.get(id) {
        None => {
            assert(!state::accurate(s, e));
            lemma_filter_remove(s.lru, e, f);
            assert(u == t);
        },
        Some(st) => {
            assert(s.get(id) == Some(st));
            if st.children.len() > 0 {
                assert(!state::accurate(s, e));
                lemma_filter_remove(s.lru, e, f);
                assert(u == t);
            } else if st.last_seen != e.time || st.created_seq != e.seq {
                assert(!state::accurate(s, e));
                lemma_filter_remove(s.lru, e, f);
                let x = Entry {
                    time: st.last_seen,
                    seq: st.created_seq,
                    index: e.index,
                    generation: e.generation,
                };
                assert(state::accurate(s, x));
                lemma_filter_insert(t.lru, x, f);
                lemma_same_hierarchy(s, u);
                lemma_same_bounds(s, u, b);
            } else {
                tree::evicting_keeps_the_hierarchy(t, id, CloseReason::LruEvicted);
                bounds::within_after_evict(t, b, id, CloseReason::LruEvicted);
                bounds::sums_after_evict(t, id, CloseReason::LruEvicted, st.protocol);
                bounds::live_count_is_bounded(u.slots);
            }
        },
    }
}

} // verus!

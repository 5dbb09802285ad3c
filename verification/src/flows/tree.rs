//! The hierarchy of streams: what holds of it in every state, and that creating,
//! updating and evicting streams keep it.
use vstd::prelude::*;

use crate::flows::state::{self, Newcomer, State};
use crate::flows::stream::{CloseReason, StreamId, StreamView};

verus! {

/// Every stream knows its handle, and no creation number is used twice.
pub open spec fn numbered(s: State) -> bool {
    &&& s.slots.len() <= u32::MAX
    &&& forall|i: int| #[trigger]
        s.live_at(i) ==> s.at(i).id.index == i && s.at(i).id.generation == s.slots[i].generation
            && s.at(i).created_seq < s.next_seq
    &&& forall|i: int, j: int|
        #![trigger s.live_at(i), s.live_at(j)]
        s.live_at(i) && s.live_at(j) && i != j ==> s.at(i).created_seq != s.at(j).created_seq
}

/// The slots to reuse are empty, and none is listed twice.
pub open spec fn recyclable(s: State) -> bool {
    &&& forall|k: int|
        0 <= k < s.free.len() ==> (#[trigger] s.free[k]) < s.slots.len()
            && s.slots[s.free[k] as int].stream is None
    &&& s.free.no_duplicates()
}

/// Whether some streams are in creation order.
pub open spec fn in_order(s: State, ids: Seq<StreamId>) -> bool {
    forall|j: int, k: int|
        0 <= j < k < ids.len() ==> s.get(#[trigger] ids[j])->0.created_seq < s.get(
            #[trigger] ids[k],
        )->0.created_seq
}

/// A stream's parent is there, is older and lists it; a stream without a parent
/// is a root.
pub open spec fn upward(s: State) -> bool {
    forall|i: int| #[trigger]
        s.live_at(i) ==> match s.at(i).parent {
            Some(p) => s.live(p) && s.get(p)->0.children.contains(s.at(i).id) && s.get(
                p,
            )->0.created_seq < s.at(i).created_seq,
            None => s.roots.contains(s.at(i).id),
        }
}

/// A stream's children are there, have it as their parent and are listed in
/// creation order.
pub open spec fn downward(s: State) -> bool {
    &&& forall|i: int, k: int|
        s.live_at(i) && 0 <= k < s.at(i).children.len() ==> s.live(#[trigger] s.at(i).children[k])
            && s.get(s.at(i).children[k])->0.parent == Some(s.at(i).id)
    &&& forall|i: int| #[trigger] s.live_at(i) ==> in_order(s, s.at(i).children)
}

/// The roots are there, have no parent and are listed in creation order.
pub open spec fn rooted(s: State) -> bool {
    &&& forall|k: int|
        0 <= k < s.roots.len() ==> s.live(#[trigger] s.roots[k]) && s.get(s.roots[k])->0.parent
            is None
    &&& in_order(s, s.roots)
}

/// The hierarchy is consistent.
pub open spec fn hierarchy(s: State) -> bool {
    &&& numbered(s)
    &&& recyclable(s)
    &&& upward(s)
    &&& downward(s)
    &&& rooted(s)
}

/// A handle that is not out of date leads to the stream that carries it.
pub proof fn handles_are_unique(s: State, id: StreamId)
    requires
        numbered(s),
        s.live(id),
    ensures
        s.live_at(id.index as int),
        s.get(id) == Some(s.at(id.index as int)),
        s.get(id)->0.id == id,
{
    assert(s.live_at(id.index as int));
}

/// Streams in creation order are all different.
pub proof fn in_order_means_distinct(s: State, ids: Seq<StreamId>)
    requires
        in_order(s, ids),
    ensures
        ids.no_duplicates(),
{
    assert forall|j: int, k: int| 0 <= j < ids.len() && 0 <= k < ids.len() && j
        != k implies ids[j] != ids[k] by {
        if j < k {
            assert(s.get(ids[j])->0.created_seq < s.get(ids[k])->0.created_seq);
        } else {
            assert(s.get(ids[k])->0.created_seq < s.get(ids[j])->0.created_seq);
        }
    }
}

/// Leaving a handle out keeps all others and their order.
pub proof fn without_removes(ids: Seq<StreamId>, id: StreamId)
    ensures
        forall|x: StreamId| #[trigger]
            state::without(ids, id).contains(x) <==> ids.contains(x) && x != id,
        !ids.contains(id) ==> state::without(ids, id) == ids,
        state::without(ids, id).len() <= ids.len(),
    decreases ids.len(),
{
    if ids.len() > 0 {
        let init = ids.drop_last();
        without_removes(init, id);
        let w = state::without(ids, id);
        let wi = state::without(init, id);
        assert forall|x: StreamId| #[trigger] w.contains(x) <==> ids.contains(x) && x != id by {
            if ids.contains(x) && x != id {
                let k = choose|k: int| 0 <= k < ids.len() && ids[k] == x;
                if k < init.len() {
                    assert(init[k] == x);
                    assert(wi.contains(x));
                    let m = choose|m: int| 0 <= m < wi.len() && wi[m] == x;
                    assert(w[m] == x);
                } else {
                    assert(w[w.len() - 1] == x);
                }
            }
            if w.contains(x) {
                let m = choose|m: int| 0 <= m < w.len() && w[m] == x;
                if ids.last() != id && m == wi.len() {
                    assert(ids[ids.len() - 1] == x);
                } else {
                    assert(wi[m] == x);
                    assert(wi.contains(x));
                    assert(init.contains(x));
                    let k = choose|k: int| 0 <= k < init.len() && init[k] == x;
                    assert(ids[k] == x);
                }
            }
        }
        if !ids.contains(id) {
            assert(ids[ids.len() - 1] != id);
            assert(!init.contains(id)) by {
                if init.contains(id) {
                    let k = choose|k: int| 0 <= k < init.len() && init[k] == id;
                    assert(ids[k] == id);
                }
            }
            assert(w =~= ids);
        }
    }
}

/// Leaving a handle out keeps creation order, in any state that knows the others
/// by the same numbers.
proof fn lemma_without_in_order(s: State, t: State, ids: Seq<StreamId>, id: StreamId)
    requires
        in_order(s, ids),
        forall|k: int|
            0 <= k < ids.len() && ids[k] != id ==> t.get(#[trigger] ids[k])->0.created_seq == s.get(
                ids[k],
            )->0.created_seq,
    ensures
        in_order(t, state::without(ids, id)),
        forall|j: int|
            0 <= j < state::without(ids, id).len() ==> exists|k: int|
                0 <= k < ids.len() && #[trigger] state::without(ids, id)[j] == ids[k],
    decreases ids.len(),
{
    if ids.len() > 0 {
        let init = ids.drop_last();
        assert forall|j: int, k: int| 0 <= j < k < init.len() implies s.get(
            #[trigger] init[j],
        )->0.created_seq < s.get(#[trigger] init[k])->0.created_seq by {
            assert(init[j] == ids[j] && init[k] == ids[k]);
        }
        assert forall|k: int| 0 <= k < init.len() && init[k] != id implies t.get(
            #[trigger] init[k],
        )->0.created_seq == s.get(init[k])->0.created_seq by {
            assert(init[k] == ids[k]);
        }
        lemma_without_in_order(s, t, init, id);
        let w = state::without(ids, id);
        let wi = state::without(init, id);
        without_removes(init, id);
        without_removes(ids, id);
        assert forall|j: int, k: int| 0 <= j < k < w.len() implies t.get(
            #[trigger] w[j],
        )->0.created_seq < t.get(#[trigger] w[k])->0.created_seq by {
            if ids.last() != id && k == wi.len() {
                assert(wi.contains(wi[j]));
                let m = choose|m: int| 0 <= m < init.len() && init[m] == wi[j];
                assert(w[j] == wi[j]);
                assert(ids[m] == w[j]);
                assert(w[k] == ids[ids.len() - 1]);
                assert(s.get(ids[m])->0.created_seq < s.get(
                    ids[ids.len() - 1],
                )->0.created_seq);
                assert(ids[m] != id);
                assert(t.get(ids[m])->0.created_seq == s.get(ids[m])->0.created_seq);
                assert(t.get(ids[ids.len() - 1])->0.created_seq == s.get(
                    ids[ids.len() - 1],
                )->0.created_seq);
            } else {
                assert(w[j] == wi[j] && w[k] == wi[k]);
            }
        }
        assert forall|j: int| 0 <= j < w.len() implies exists|k: int|
            0 <= k < ids.len() && #[trigger] w[j] == ids[k] by {
            assert(w.contains(w[j]));
            assert(ids.contains(w[j]));
        }
    }
}

/// Whether two records are one stream's, at the same place in the hierarchy.
pub open spec fn same_place(a: StreamView, b: StreamView) -> bool {
    &&& a.id == b.id
    &&& a.parent == b.parent
    &&& a.children == b.children
    &&& a.created_seq == b.created_seq
}

/// Updating a record keeps the hierarchy.
pub proof fn updating_keeps_the_hierarchy(s: State, id: StreamId, st: StreamView)
    requires
        hierarchy(s),
        s.live(id),
        same_place(s.get(id)->0, st),
    ensures
        hierarchy(s.put(id, st)),
{
    let t = s.put(id, st);
    let i0 = id.index as int;
    assert forall|i: int| t.live_at(i) == s.live_at(i) && (s.live_at(i) ==> same_place(
        #[trigger] s.at(i),
        t.at(i),
    )) by {}
    assert forall|x: StreamId| #[trigger] t.live(x) == s.live(x) by {}
    assert forall|x: StreamId| s.live(x) implies same_place(s.get(x)->0, #[trigger] t.get(x)->0) by {
        assert(same_place(s.at(x.index as int), t.at(x.index as int)));
    }
    assert(numbered(t)) by {
        assert forall|i: int| #[trigger] t.live_at(i) implies t.at(i).id.index == i && t.at(
            i,
        ).id.generation == t.slots[i].generation && t.at(i).created_seq < t.next_seq by {
            assert(s.live_at(i));
        }
        assert forall|i: int, j: int|
            #![trigger t.live_at(i), t.live_at(j)]
            t.live_at(i) && t.live_at(j) && i != j implies t.at(i).created_seq != t.at(
            j,
        ).created_seq by {
            assert(s.live_at(i) && s.live_at(j));
        }
    }
    assert(recyclable(t));
    assert(upward(t)) by {
        assert forall|i: int| #[trigger] t.live_at(i) implies match t.at(i).parent {
            Some(p) => t.live(p) && t.get(p)->0.children.contains(t.at(i).id) && t.get(
                p,
            )->0.created_seq < t.at(i).created_seq,
            None => t.roots.contains(t.at(i).id),
        } by {
            assert(s.live_at(i));
            if t.at(i).parent is Some {
                let p = t.at(i).parent->0;
                assert(s.live(p));
                assert(same_place(s.get(p)->0, t.get(p)->0));
            }
        }
    }
    assert forall|ids: Seq<StreamId>|
        (forall|k: int| 0 <= k < ids.len() ==> s.live(#[trigger] ids[k])) && in_order(
            s,
            ids,
        ) implies #[trigger] in_order(t, ids) by {
        assert forall|j: int, k: int| 0 <= j < k < ids.len() implies t.get(
            #[trigger] ids[j],
        )->0.created_seq < t.get(#[trigger] ids[k])->0.created_seq by {
            assert(s.live(ids[j]) && s.live(ids[k]));
            assert(same_place(s.get(ids[j])->0, t.get(ids[j])->0));
            assert(same_place(s.get(ids[k])->0, t.get(ids[k])->0));
        }
    }
    assert(downward(t)) by {
        assert forall|i: int, k: int|
            t.live_at(i) && 0 <= k < t.at(i).children.len() implies t.live(
            #[trigger] t.at(i).children[k],
        ) && t.get(t.at(i).children[k])->0.parent == Some(t.at(i).id) by {
            assert(s.live_at(i));
            let c = s.at(i).children[k];
            assert(s.live(c));
            assert(same_place(s.get(c)->0, t.get(c)->0));
        }
        assert forall|i: int| #[trigger] t.live_at(i) implies in_order(t, t.at(i).children) by {
            assert(s.live_at(i));
            let ids = s.at(i).children;
            assert forall|k: int| 0 <= k < ids.len() implies s.live(#[trigger] ids[k]) by {
                assert(s.live(s.at(i).children[k]));
            }
        }
    }
    assert(rooted(t)) by {
        assert forall|k: int| 0 <= k < t.roots.len() implies t.live(#[trigger] t.roots[k]) && t.get(
            t.roots[k],
        )->0.parent is None by {
            assert(s.live(s.roots[k]));
            assert(same_place(s.get(s.roots[k])->0, t.get(s.roots[k])->0));
        }
    }
}

/// What creating a stream does to the slots: the new stream's handle was not in
/// use, and of the others only the parent changes, which lists the new one last.
pub proof fn creating_adds_one(s: State, n: Newcomer)
    requires
        numbered(s),
        recyclable(s),
        s.slots.len() < u32::MAX,
        n.parent is Some ==> s.live(n.parent->0),
    ensures
        ({
            let t = state::created(s, n);
            let id = state::next_id(s);
            &&& !s.live(id)
            &&& !s.live_at(id.index as int)
            &&& t.get(id) == Some(state::record(n, id, s.next_seq))
            &&& forall|i: int| #[trigger] t.live_at(i) <==> s.live_at(i) || i == id.index
            &&& forall|x: StreamId| #[trigger] t.live(x) <==> s.live(x) || x == id
            &&& forall|x: StreamId| #[trigger]
                s.live(x) ==> t.get(x) == if n.parent == Some(x) {
                    let p = s.get(x)->0;
                    Some(StreamView { children: p.children.push(id), ..p })
                } else {
                    s.get(x)
                }
            &&& t.slots.len() <= s.slots.len() + 1
            &&& t.next_seq == (s.next_seq + 1) as u64
            &&& t.roots == if n.parent is None {
                s.roots.push(id)
            } else {
                s.roots
            }
            &&& t.free == if s.free.len() > 0 {
                s.free.drop_last()
            } else {
                s.free
            }
        }),
{
    let t = state::created(s, n);
    let id = state::next_id(s);
    let i0 = id.index as int;
    if s.free.len() > 0 {
        assert(s.free[s.free.len() - 1] < s.slots.len());
    }
    assert(!s.live_at(i0));
    assert(!s.live(id));
    let slots = state::placed(s.slots, id, state::record(n, id, s.next_seq));
    assert(slots[i0].stream == Some(state::record(n, id, s.next_seq)));
    assert(slots[i0].generation == id.generation);
    assert forall|i: int| 0 <= i < s.slots.len() && i != i0 implies slots[i] == s.slots[i] by {}
    if n.parent is Some {
        let p = n.parent->0;
        assert(p.index != i0);
        assert(t.slots[i0] == slots[i0]);
        assert forall|i: int|
            0 <= i < s.slots.len() && i != i0 && i != p.index implies t.slots[i] == s.slots[i] by {}
    } else {
        assert(t.slots == slots);
    }
    assert forall|x: StreamId| #[trigger] s.live(x) implies t.get(x) == if n.parent == Some(x) {
        let p = s.get(x)->0;
        Some(StreamView { children: p.children.push(id), ..p })
    } else {
        s.get(x)
    } by {
        assert(x.index != i0);
        if n.parent is Some && x.index == n.parent->0.index {
            assert(x == n.parent->0);
        }
    }
    assert forall|x: StreamId| #[trigger] t.live(x) <==> s.live(x) || x == id by {
        if x.index == i0 {
            assert(!s.live(x));
        }
    }
}

/// Creating a stream keeps the hierarchy.
pub proof fn creating_keeps_the_hierarchy(s: State, n: Newcomer)
    requires
        hierarchy(s),
        s.slots.len() < u32::MAX,
        s.next_seq < u64::MAX,
        n.parent is Some ==> s.live(n.parent->0),
    ensures
        hierarchy(state::created(s, n)),
{
    let t = state::created(s, n);
    let id = state::next_id(s);
    let i0 = id.index as int;
    creating_adds_one(s, n);
    assert forall|i: int| s.live_at(i) implies s.live(#[trigger] s.at(i).id) && s.get(s.at(i).id)
        == Some(s.at(i)) by {}
    // Of an older stream everything but the parent's list of children stays.
    assert forall|i: int| #[trigger] s.live_at(i) implies t.live_at(i) && t.at(i).id == s.at(i).id
        && t.at(i).parent == s.at(i).parent && t.at(i).created_seq == s.at(i).created_seq
        && t.at(i).children == if n.parent == Some(s.at(i).id) {
        s.at(i).children.push(id)
    } else {
        s.at(i).children
    } by {
        let x = s.at(i).id;
        assert(s.live(x));
        assert(t.live(x));
        assert(t.get(x) == Some(t.at(i)));
    }
    assert(t.live(id) && t.live_at(i0) && t.at(i0) == state::record(n, id, s.next_seq));
    assert(numbered(t)) by {
        assert forall|i: int| #[trigger] t.live_at(i) implies t.at(i).id.index == i && t.at(
            i,
        ).id.generation == t.slots[i].generation && t.at(i).created_seq < t.next_seq by {
            if i != i0 {
                assert(s.live_at(i));
                assert(t.live(s.at(i).id));
            }
        }
        assert forall|i: int, j: int|
            #![trigger t.live_at(i), t.live_at(j)]
            t.live_at(i) && t.live_at(j) && i != j implies t.at(i).created_seq != t.at(
            j,
        ).created_seq by {
            if i != i0 {
                assert(s.live_at(i));
            }
            if j != i0 {
                assert(s.live_at(j));
            }
        }
    }
    assert(recyclable(t)) by {
        assert forall|k: int| 0 <= k < t.free.len() implies (#[trigger] t.free[k]) < t.slots.len()
            && t.slots[t.free[k] as int].stream is None by {
            assert(t.free[k] == s.free[k]);
            assert(s.free[k] < s.slots.len());
            if s.free.len() > 0 {
                assert(s.free[k] != s.free[s.free.len() - 1]);
            }
            assert(t.free[k] != i0);
            assert(!s.live_at(t.free[k] as int));
            assert(!t.live_at(t.free[k] as int));
        }
    }
    assert(upward(t)) by {
        assert forall|i: int| #[trigger] t.live_at(i) implies match t.at(i).parent {
            Some(p) => t.live(p) && t.get(p)->0.children.contains(t.at(i).id) && t.get(
                p,
            )->0.created_seq < t.at(i).created_seq,
            None => t.roots.contains(t.at(i).id),
        } by {
            if i == i0 {
                match n.parent {
                    Some(p) => {
                        handles_are_unique(s, p);
                        let c = t.get(p)->0.children;
                        assert(s.live(p));
                        assert(c[c.len() - 1] == id);
                    },
                    None => {
                        assert(t.roots[t.roots.len() - 1] == id);
                    },
                }
            } else {
                assert(s.live_at(i));
                match s.at(i).parent {
                    Some(p) => {
                        assert(s.live(p));
                        let k = choose|k: int|
                            0 <= k < s.get(p)->0.children.len() && s.get(p)->0.children[k] == s.at(
                                i,
                            ).id;
                        assert(t.get(p)->0.children[k] == s.at(i).id);
                    },
                    None => {
                        let k = choose|k: int| 0 <= k < s.roots.len() && s.roots[k] == s.at(i).id;
                        assert(t.roots[k] == s.at(i).id);
                    },
                }
            }
        }
    }
    assert(downward(t)) by {
        assert forall|i: int, k: int|
            t.live_at(i) && 0 <= k < t.at(i).children.len() implies t.live(
            #[trigger] t.at(i).children[k],
        ) && t.get(t.at(i).children[k])->0.parent == Some(t.at(i).id) by {
            if i != i0 {
                assert(s.live_at(i));
                if k < s.at(i).children.len() {
                    let c = s.at(i).children[k];
                    assert(s.live(c));
                    assert(t.at(i).children[k] == c);
                    assert(t.live(c));
                } else {
                    assert(t.at(i).children[k] == id);
                }
            }
        }
        assert forall|i: int| #[trigger] t.live_at(i) implies in_order(t, t.at(i).children) by {
            if i != i0 {
                assert(s.live_at(i));
                let old_ids = s.at(i).children;
                let ids = t.at(i).children;
                assert forall|j: int, k: int| 0 <= j < k < ids.len() implies t.get(
                    #[trigger] ids[j],
                )->0.created_seq < t.get(#[trigger] ids[k])->0.created_seq by {
                    assert(ids[j] == old_ids[j]);
                    assert(s.live(s.at(i).children[j]));
                    handles_are_unique(s, old_ids[j]);
                    if k < old_ids.len() {
                        assert(ids[k] == old_ids[k]);
                        assert(s.live(s.at(i).children[k]));
                        assert(s.get(old_ids[j])->0.created_seq < s.get(
                            old_ids[k],
                        )->0.created_seq);
                    } else {
                        assert(ids[k] == id);
                    }
                }
            }
        }
    }
    assert(rooted(t)) by {
        assert forall|k: int| 0 <= k < t.roots.len() implies t.live(#[trigger] t.roots[k]) && t.get(
            t.roots[k],
        )->0.parent is None by {
            if k < s.roots.len() {
                assert(t.roots[k] == s.roots[k]);
                assert(s.live(s.roots[k]));
            }
        }
        assert forall|j: int, k: int| 0 <= j < k < t.roots.len() implies t.get(
            #[trigger] t.roots[j],
        )->0.created_seq < t.get(#[trigger] t.roots[k])->0.created_seq by {
            assert(t.roots[j] == s.roots[j]);
            assert(s.live(s.roots[j]));
            handles_are_unique(s, s.roots[j]);
            if k < s.roots.len() {
                assert(t.roots[k] == s.roots[k]);
                assert(s.live(s.roots[k]));
            } else {
                assert(t.roots[k] == id);
            }
        }
    }
}

/// What evicting a leaf does to the slots: its handle is out of date, and of the
/// others only the parent changes, which no longer lists it.
pub proof fn evicting_removes_one(s: State, id: StreamId, reason: CloseReason)
    requires
        hierarchy(s),
        s.live(id),
        s.get(id)->0.children.len() == 0,
    ensures
        ({
            let t = state::evict(s, id, reason);
            let parent = s.get(id)->0.parent;
            &&& !t.live(id)
            &&& t.slots.len() == s.slots.len()
            &&& t.slots[id.index as int].generation == state::next_generation(id.generation)
            &&& forall|i: int| #[trigger] t.live_at(i) <==> s.live_at(i) && i != id.index
            &&& forall|x: StreamId| #[trigger] t.live(x) <==> s.live(x) && x != id
            &&& forall|x: StreamId| #[trigger]
                s.live(x) && x != id ==> t.get(x) == if parent == Some(x) {
                    let p = s.get(x)->0;
                    Some(StreamView { children: state::without(p.children, id), ..p })
                } else {
                    s.get(x)
                }
            &&& t.roots == if parent is None {
                state::without(s.roots, id)
            } else {
                s.roots
            }
            &&& t.free == s.free.push(id.index)
            &&& t.next_seq == s.next_seq
        }),
{
    let t = state::evict(s, id, reason);
    let i0 = id.index as int;
    let parent = s.get(id)->0.parent;
    handles_are_unique(s, id);
    if parent is Some {
        let p = parent->0;
        assert(s.live(p));
        assert(p != id) by {
            assert(s.get(p)->0.created_seq < s.get(id)->0.created_seq);
        }
        handles_are_unique(s, p);
        assert(p.index != i0);
    }
    assert forall|x: StreamId| #[trigger] s.live(x) && x != id implies t.get(x) == if parent
        == Some(x) {
        let p = s.get(x)->0;
        Some(StreamView { children: state::without(p.children, id), ..p })
    } else {
        s.get(x)
    } by {
        handles_are_unique(s, x);
        assert(x.index != i0);
        if parent is Some && x.index == parent->0.index {
            assert(x == parent->0);
        }
    }
    assert forall|x: StreamId| #[trigger] t.live(x) <==> s.live(x) && x != id by {
        if x.index == i0 {
            assert(t.slots[i0].stream is None);
        }
    }
}

/// Evicting a leaf keeps the hierarchy.
pub proof fn evicting_keeps_the_hierarchy(s: State, id: StreamId, reason: CloseReason)
    requires
        hierarchy(s),
        s.live(id),
        s.get(id)->0.children.len() == 0,
    ensures
        hierarchy(state::evict(s, id, reason)),
{
    let t = state::evict(s, id, reason);
    let i0 = id.index as int;
    let parent = s.get(id)->0.parent;
    handles_are_unique(s, id);
    evicting_removes_one(s, id, reason);
    assert forall|i: int| s.live_at(i) implies s.live(#[trigger] s.at(i).id) && s.get(s.at(i).id)
        == Some(s.at(i)) by {}
    assert forall|i: int| #[trigger] t.live_at(i) implies s.live_at(i) && t.at(i).id == s.at(i).id
        && t.at(i).parent == s.at(i).parent && t.at(i).created_seq == s.at(i).created_seq
        && t.at(i).children == (if parent == Some(s.at(i).id) {
        state::without(s.at(i).children, id)
    } else {
        s.at(i).children
    }) && t.at(i).id != id by {
        let x = s.at(i).id;
        assert(s.live(x) && x.index == i);
        assert(t.live(x));
        assert(t.get(x) == Some(t.at(i)));
    }
    assert(numbered(t)) by {
        assert forall|i: int| #[trigger] t.live_at(i) implies t.at(i).id.index == i && t.at(
            i,
        ).id.generation == t.slots[i].generation && t.at(i).created_seq < t.next_seq by {
            assert(s.live_at(i));
            assert(t.live(s.at(i).id));
        }
        assert forall|i: int, j: int|
            #![trigger t.live_at(i), t.live_at(j)]
            t.live_at(i) && t.live_at(j) && i != j implies t.at(i).created_seq != t.at(
            j,
        ).created_seq by {
            assert(s.live_at(i) && s.live_at(j));
        }
    }
    assert(recyclable(t)) by {
        assert forall|k: int| 0 <= k < t.free.len() implies (#[trigger] t.free[k]) < t.slots.len()
            && t.slots[t.free[k] as int].stream is None by {
            if k < s.free.len() {
                assert(t.free[k] == s.free[k]);
                assert(!s.live_at(s.free[k] as int));
                assert(!t.live_at(t.free[k] as int));
            } else {
                assert(!t.live_at(i0));
            }
        }
        assert(t.free.no_duplicates()) by {
            assert forall|j: int, k: int|
                0 <= j < t.free.len() && 0 <= k < t.free.len() && j != k implies t.free[j]
                != t.free[k] by {
                if j < s.free.len() {
                    assert(s.free[j] < s.slots.len());
                    assert(!s.live_at(s.free[j] as int));
                }
                if k < s.free.len() {
                    assert(s.free[k] < s.slots.len());
                    assert(!s.live_at(s.free[k] as int));
                }
                assert(s.live_at(i0));
            }
        }
    }
    assert forall|x: StreamId| #[trigger] t.live(x) implies t.get(x)->0.created_seq == s.get(
        x,
    )->0.created_seq && t.get(x)->0.parent == s.get(x)->0.parent by {
        assert(s.live(x) && x != id);
    }
    assert(upward(t)) by {
        assert forall|i: int| #[trigger] t.live_at(i) implies match t.at(i).parent {
            Some(p) => t.live(p) && t.get(p)->0.children.contains(t.at(i).id) && t.get(
                p,
            )->0.created_seq < t.at(i).created_seq,
            None => t.roots.contains(t.at(i).id),
        } by {
            assert(s.live_at(i));
            match s.at(i).parent {
                Some(p) => {
                    assert(s.live(p));
                    assert(s.get(p)->0.children.contains(s.at(i).id));
                    assert(p != id) by {
                        if p == id {
                            assert(s.get(id)->0.children.len() == 0);
                        }
                    }
                    assert(t.live(p));
                    without_removes(s.get(p)->0.children, id);
                },
                None => {
                    without_removes(s.roots, id);
                    assert(s.roots.contains(s.at(i).id));
                },
            }
        }
    }
    assert(downward(t)) by {
        assert forall|i: int, k: int|
            t.live_at(i) && 0 <= k < t.at(i).children.len() implies t.live(
            #[trigger] t.at(i).children[k],
        ) && t.get(t.at(i).children[k])->0.parent == Some(t.at(i).id) by {
            assert(s.live_at(i));
            let c = t.at(i).children[k];
            let old_ids = s.at(i).children;
            without_removes(old_ids, id);
            if parent == Some(s.at(i).id) {
                assert(state::without(old_ids, id).contains(c));
            } else {
                assert(old_ids.contains(c));
            }
            let m = choose|m: int| 0 <= m < old_ids.len() && old_ids[m] == c;
            assert(s.at(i).children[m] == c);
            assert(s.live(c) && s.get(c)->0.parent == Some(s.at(i).id));
            assert(c != id) by {
                if c == id {
                    assert(parent == Some(s.at(i).id));
                }
            }
            assert(t.live(c));
        }
        assert forall|i: int| #[trigger] t.live_at(i) implies in_order(t, t.at(i).children) by {
            assert(s.live_at(i));
            let old_ids = s.at(i).children;
            assert(in_order(s, old_ids));
            assert forall|k: int| 0 <= k < old_ids.len() && old_ids[k] != id implies t.get(
                #[trigger] old_ids[k],
            )->0.created_seq == s.get(old_ids[k])->0.created_seq by {
                assert(s.live(s.at(i).children[k]));
                assert(t.live(old_ids[k]));
            }
            lemma_without_in_order(s, t, old_ids, id);
            if parent != Some(s.at(i).id) {
                assert(!old_ids.contains(id)) by {
                    if old_ids.contains(id) {
                        let m = choose|m: int| 0 <= m < old_ids.len() && old_ids[m] == id;
                        assert(s.at(i).children[m] == id);
                        assert(s.get(id)->0.parent == Some(s.at(i).id));
                    }
                }
                without_removes(old_ids, id);
            }
        }
    }
    assert(rooted(t)) by {
        without_removes(s.roots, id);
        assert forall|k: int| 0 <= k < t.roots.len() implies t.live(#[trigger] t.roots[k]) && t.get(
            t.roots[k],
        )->0.parent is None by {
            let c = t.roots[k];
            if parent is None {
                assert(state::without(s.roots, id).contains(c));
            } else {
                assert(s.roots.contains(c));
            }
            let m = choose|m: int| 0 <= m < s.roots.len() && s.roots[m] == c;
            assert(s.live(s.roots[m]));
            assert(c != id);
            assert(t.live(c));
        }
        assert forall|k: int| 0 <= k < s.roots.len() && s.roots[k] != id implies t.get(
            #[trigger] s.roots[k],
        )->0.created_seq == s.get(s.roots[k])->0.created_seq by {
            assert(s.live(s.roots[k]));
            assert(t.live(s.roots[k]));
        }
        lemma_without_in_order(s, t, s.roots, id);
        if parent is Some {
            assert(!s.roots.contains(id)) by {
                if s.roots.contains(id) {
                    let m = choose|m: int| 0 <= m < s.roots.len() && s.roots[m] == id;
                    assert(s.get(s.roots[m])->0.parent is None);
                }
            }
        }
    }
}

/// A handle is out of date as soon as its stream is evicted: its slot has moved
/// on to another generation.
pub proof fn handles_expire(s: State, id: StreamId, reason: CloseReason)
    requires
        hierarchy(s),
        s.live(id),
        s.get(id)->0.children.len() == 0,
    ensures
        state::evict(s, id, reason).get(id) is None,
        state::evict(s, id, reason).slots[id.index as int].generation != id.generation,
{
    evicting_removes_one(s, id, reason);
}

} // verus!

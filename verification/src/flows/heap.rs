//! A priority queue of stream handles: the earliest entry comes out first.
use vstd::multiset::Multiset;
use vstd::prelude::*;

verus! {

/// A handle and what it is ordered by: time, then a sequence number, then the
/// handle itself.
#[derive(Clone, Copy, PartialEq, Eq, Debug, Structural)]
pub struct Entry {
    pub time: i128,
    pub seq: u64,
    pub index: u32,
    pub generation: u32,
}

/// Whether `a` comes no later than `b`.
pub open spec fn before(a: Entry, b: Entry) -> bool {
    ||| a.time < b.time
    ||| a.time == b.time && a.seq < b.seq
    ||| a.time == b.time && a.seq == b.seq && a.index < b.index
    ||| a.time == b.time && a.seq == b.seq && a.index == b.index && a.generation <= b.generation
}

/// Whether `e` is in `m` and nothing in `m` comes before it.
pub open spec fn earliest(m: Multiset<Entry>, e: Entry) -> bool {
    &&& m.count(e) > 0
    &&& forall|x: Entry| m.count(x) > 0 ==> #[trigger] before(e, x)
}

/// The earliest entry of a queue that is not empty.
pub open spec fn first(m: Multiset<Entry>) -> Entry {
    choose|e: Entry| #[trigger] earliest(m, e)
}

/// There is one earliest entry.
pub proof fn earliest_is_first(m: Multiset<Entry>, e: Entry)
    requires
        earliest(m, e),
    ensures
        first(m) == e,
{
    let f = first(m);
    assert(before(e, f) && before(f, e));
}

/// Of two entries one comes no later than the other, and so along a chain.
proof fn lemma_order(a: Entry, b: Entry, c: Entry)
    ensures
        before(a, b) || before(b, a),
        before(a, b) && before(b, c) ==> before(a, c),
{
}

/// A queue that is not empty has an earliest entry.
pub proof fn first_is_earliest(m: Multiset<Entry>)
    requires
        m.len() > 0,
    ensures
        earliest(m, first(m)),
    decreases m.len(),
{
    broadcast use vstd::multiset::group_multiset_axioms;

    let a = m.choose();
    assert(m.count(a) > 0);
    let rest = m.remove(a);
    if rest.len() == 0 {
        assert forall|x: Entry| m.count(x) > 0 implies #[trigger] before(a, x) by {
            if x != a {
                assert(rest.count(x) > 0);
                assert(rest.count(x) <= rest.len());
            }
        }
        assert(earliest(m, a));
    } else {
        first_is_earliest(rest);
        let b = first(rest);
        if before(a, b) {
            assert forall|x: Entry| m.count(x) > 0 implies #[trigger] before(a, x) by {
                if x != a {
                    assert(rest.count(x) > 0);
                    assert(before(b, x));
                    lemma_order(a, b, x);
                }
            }
            assert(earliest(m, a));
        } else {
            lemma_order(a, b, b);
            assert forall|x: Entry| m.count(x) > 0 implies #[trigger] before(b, x) by {
                if x != a {
                    assert(rest.count(x) > 0);
                }
            }
            assert(m.count(b) > 0);
            assert(earliest(m, b));
        }
    }
}

fn comes_before(a: &Entry, b: &Entry) -> (r: bool)
    ensures
        r == before(*a, *b),
{
    if a.time != b.time {
        a.time < b.time
    } else if a.seq != b.seq {
        a.seq < b.seq
    } else if a.index != b.index {
        a.index < b.index
    } else {
        a.generation <= b.generation
    }
}

/// A binary heap.
pub struct Heap {
    items: Vec<Entry>,
}

impl View for Heap {
    type V = Multiset<Entry>;

    closed spec fn view(&self) -> Multiset<Entry> {
        self.items@.to_multiset()
    }
}

spec fn parent(i: int) -> int {
    (i - 1) / 2
}

/// Every entry but the one at `hole` is no earlier than its parent, and what
/// stands below `hole` is no earlier than what stands above it.
spec fn ordered_but(s: Seq<Entry>, hole: int) -> bool {
    &&& forall|i: int| 0 < i < s.len() && i != hole ==> before(s[parent(i)], #[trigger] s[i])
    &&& forall|i: int|
        0 < i < s.len() && parent(i) == hole && hole > 0 ==> before(
            s[parent(hole)],
            #[trigger] s[i],
        )
}

/// Every entry is no earlier than its parent, except below `hole`.
spec fn ordered_above(s: Seq<Entry>, hole: int) -> bool {
    &&& forall|i: int| 0 < i < s.len() && parent(i) != hole ==> before(s[parent(i)], #[trigger] s[i])
    &&& forall|i: int|
        0 < i < s.len() && parent(i) == hole && hole > 0 ==> before(
            s[parent(hole)],
            #[trigger] s[i],
        )
}

spec fn ordered(s: Seq<Entry>) -> bool {
    forall|i: int| 0 < i < s.len() ==> before(s[parent(i)], #[trigger] s[i])
}

proof fn lemma_root_is_earliest(s: Seq<Entry>, i: int)
    requires
        ordered(s),
        0 <= i < s.len(),
    ensures
        before(s[0], s[i]),
    decreases i,
{
    if i > 0 {
        lemma_root_is_earliest(s, parent(i));
        assert(before(s[parent(i)], s[i]));
    }
}

proof fn lemma_update(s: Seq<Entry>, i: int, x: Entry)
    requires
        0 <= i < s.len(),
    ensures
        s.update(i, x).to_multiset() == s.to_multiset().remove(s[i]).insert(x),
{
    assert(s.update(i, x) =~= s.remove(i).insert(i, x));
    vstd::seq_lib::to_multiset_remove(s, i);
    vstd::seq_lib::to_multiset_insert(s.remove(i), i, x);
}

proof fn lemma_swap(s: Seq<Entry>, i: int, j: int)
    requires
        0 <= i < s.len(),
        0 <= j < s.len(),
        i != j,
    ensures
        s.update(i, s[j]).update(j, s[i]).to_multiset() == s.to_multiset(),
{
    lemma_update(s, i, s[j]);
    lemma_update(s.update(i, s[j]), j, s[i]);
    vstd::seq_lib::to_multiset_contains(s, s[i]);
    assert(s.to_multiset().remove(s[i]).insert(s[j]).remove(s[j]).insert(s[i])
        =~= s.to_multiset());
}

impl Heap {
    pub closed spec fn wf(&self) -> bool {
        ordered(self.items@)
    }

    pub fn new() -> (r: Heap)
        ensures
            r.wf(),
            r@ == Multiset::<Entry>::empty(),
    {
        let r = Heap { items: Vec::new() };
        proof {
            vstd::seq_lib::to_multiset_len(r.items@);
            assert(r@ =~= Multiset::<Entry>::empty()) by {
                broadcast use vstd::multiset::group_multiset_properties;

                vstd::multiset::lemma_multiset_empty_len(r@);
            }
        }
        r
    }

    /// The number of entries.
    pub fn len(&self) -> (n: usize)
        ensures
            n == self@.len(),
    {
        proof {
            vstd::seq_lib::to_multiset_len(self.items@);
        }
        self.items.len()
    }

    /// The earliest entry.
    pub fn peek(&self) -> (r: Option<Entry>)
        requires
            self.wf(),
        ensures
            r is None <==> self@.len() == 0,
            r matches Some(e) ==> e == first(self@) && earliest(self@, e),
    {
        proof {
            vstd::seq_lib::to_multiset_len(self.items@);
        }
        if self.items.len() == 0 {
            return None;
        }
        proof {
            self.lemma_peek();
        }
        Some(self.items[0])
    }

    proof fn lemma_peek(&self)
        requires
            self.wf(),
            self.items@.len() > 0,
        ensures
            earliest(self@, self.items@[0]),
            first(self@) == self.items@[0],
    {
        let s = self.items@;
        let e = s[0];
        assert(s.contains(e));
        vstd::seq_lib::to_multiset_contains(s, e);
        assert forall|x: Entry| self@.count(x) > 0 implies #[trigger] before(e, x) by {
            vstd::seq_lib::to_multiset_contains(s, x);
            let i = choose|i: int| 0 <= i < s.len() && s[i] == x;
            lemma_root_is_earliest(s, i);
        }
        earliest_is_first(self@, e);
    }

    /// Adds an entry.
    pub fn push(&mut self, e: Entry)
        requires
            old(self).wf(),
        ensures
            final(self).wf(),
            final(self)@ == old(self)@.insert(e),
    {
        proof {
            vstd::seq_lib::to_multiset_build(self.items@, e);
        }
        self.items.push(e);
        let mut i: usize = self.items.len() - 1;
        let n: usize = self.items.len();
        while i > 0
            invariant
                i < n == self.items@.len(),
                ordered_but(self.items@, i as int),
                self.items@.to_multiset() == old(self)@.insert(e),
            decreases i,
        {
            let p: usize = (i - 1) / 2;
            let below = self.items[i];
            let above = self.items[p];
            if comes_before(&above, &below) {
                assert(ordered(self.items@)) by {
                    assert forall|k: int| 0 < k < n implies before(
                        self.items@[parent(k)],
                        #[trigger] self.items@[k],
                    ) by {}
                }
                return;
            }
            let ghost s = self.items@;
            proof {
                lemma_swap(s, i as int, p as int);
            }
            self.items.set(i, above);
            self.items.set(p, below);
            let ghost t = self.items@;
            assert(t =~= s.update(i as int, s[p as int]).update(p as int, s[i as int]));
            assert(ordered_but(t, p as int)) by {
                assert forall|k: int| 0 < k < n && k != p implies before(
                    t[parent(k)],
                    #[trigger] t[k],
                ) by {
                    assert(before(s[parent(k)], s[k]) || k == i);
                    if k != i && parent(k) == i {
                        assert(before(s[parent(i as int)], s[k]));
                    }
                    if k != i && parent(k) == p {
                        assert(before(s[p as int], s[k]));
                    }
                }
                assert forall|k: int| 0 < k < n && parent(k) == p && p > 0 implies before(
                    t[parent(p as int)],
                    #[trigger] t[k],
                ) by {
                    assert(before(s[parent(p as int)], s[p as int]));
                    if k != i {
                        assert(before(s[p as int], s[k]));
                    }
                }
            }
            i = p;
        }
        assert(ordered(self.items@)) by {
            assert forall|k: int| 0 < k < n implies before(
                self.items@[parent(k)],
                #[trigger] self.items@[k],
            ) by {}
        }
    }

    /// Takes the earliest entry out.
    pub fn pop(&mut self) -> (r: Option<Entry>)
        requires
            old(self).wf(),
        ensures
            final(self).wf(),
            match r {
                Some(e) => old(self)@.len() > 0 && e == first(old(self)@) && earliest(
                    old(self)@,
                    e,
                ) && final(self)@ == old(self)@.remove(e),
                None => old(self)@.len() == 0 && final(self)@ == old(self)@,
            },
    {
        proof {
            vstd::seq_lib::to_multiset_len(self.items@);
        }
        let len: usize = self.items.len();
        if len == 0 {
            return None;
        }
        proof {
            self.lemma_peek();
        }
        let ghost whole = self.items@;
        let result = self.items[0];
        let last = self.items[len - 1];
        let _removed = self.items.pop();
        let n: usize = len - 1;
        assert(self.items@ =~= whole.remove(n as int));
        proof {
            vstd::seq_lib::to_multiset_remove(whole, n as int);
        }
        if n == 0 {
            return Some(result);
        }
        let ghost cut = self.items@;
        self.items.set(0, last);
        proof {
            lemma_update(cut, 0, last);
            vstd::seq_lib::to_multiset_contains(whole, last);
            vstd::seq_lib::to_multiset_contains(cut, result);
            assert(cut[0] == result);
            assert(cut.contains(result));
            assert(whole[n as int] == last);
            assert(whole.contains(last));
            assert(self.items@.to_multiset() =~= whole.to_multiset().remove(result));
        }
        assert(ordered_above(self.items@, 0)) by {
            assert forall|k: int| 0 < k < n && parent(k) != 0 implies before(
                self.items@[parent(k)],
                #[trigger] self.items@[k],
            ) by {
                assert(before(whole[parent(k)], whole[k]));
            }
        }
        let mut i: usize = 0;
        while i < n / 2
            invariant
                n == self.items@.len(),
                i < n,
                old(self)@.len() > 0,
                result == first(old(self)@),
                earliest(old(self)@, result),
                ordered_above(self.items@, i as int),
                self.items@.to_multiset() == old(self)@.remove(result),
            decreases n - i,
        {
            let left: usize = 2 * i + 1;
            let mut child: usize = left;
            if left < n - 1 && comes_before(&self.items[left + 1], &self.items[left]) {
                child = left + 1;
            }
            let below = self.items[child];
            let above = self.items[i];
            let ghost s = self.items@;
            assert(forall|k: int| 0 < k < n && parent(k) == i ==> k == left || k == left + 1);
            if comes_before(&above, &below) {
                assert(ordered(s)) by {
                    assert forall|k: int| 0 < k < n implies before(
                        s[parent(k)],
                        #[trigger] s[k],
                    ) by {}
                }
                return Some(result);
            }
            proof {
                lemma_swap(s, i as int, child as int);
            }
            self.items.set(i, below);
            self.items.set(child, above);
            let ghost t = self.items@;
            assert(t =~= s.update(i as int, s[child as int]).update(child as int, s[i as int]));
            assert(ordered_above(t, child as int)) by {
                assert forall|k: int| 0 < k < n && parent(k) != child implies before(
                    t[parent(k)],
                    #[trigger] t[k],
                ) by {
                    if parent(k) == i {
                        assert(before(s[child as int], s[k]));
                    } else {
                        assert(before(s[parent(k)], s[k]));
                        if k == i {
                            assert(before(s[parent(i as int)], s[child as int]));
                        }
                    }
                }
                assert forall|k: int| 0 < k < n && parent(k) == child implies before(
                    t[parent(child as int)],
                    #[trigger] t[k],
                ) by {
                    assert(before(s[child as int], s[k]));
                }
            }
            i = child;
        }
        assert(ordered(self.items@)) by {
            assert forall|k: int| 0 < k < n implies before(
                self.items@[parent(k)],
                #[trigger] self.items@[k],
            ) by {
                assert(parent(k) != i);
            }
        }
        Some(result)
    }

    /// Every entry, the earliest first.
    pub fn into_sorted(self) -> (r: Vec<Entry>)
        requires
            self.wf(),
        ensures
            r@.to_multiset() == self@,
            ascending(r@),
    {
        broadcast use vstd::multiset::group_multiset_axioms;
        broadcast use vstd::seq_lib::group_to_multiset_ensures;

        let ghost all = self@;
        let mut queue = self;
        let mut out: Vec<Entry> = Vec::new();
        assert(out@.to_multiset() =~= Multiset::empty());
        assert(all =~= out@.to_multiset().add(queue@));
        loop
            invariant
                queue.wf(),
                ascending(out@),
                all == out@.to_multiset().add(queue@),
                forall|j: int, e: Entry|
                    0 <= j < out@.len() && #[trigger] queue@.count(e) > 0 ==> before(
                        #[trigger] out@[j],
                        e,
                    ),
            ensures
                queue@.len() == 0,
            decreases queue@.len(),
        {
            let ghost left = queue@;
            let ghost list = out@;
            match queue.pop() {
                Some(e) => {
                    out.push(e);
                    proof {
                        assert(out@ == list.push(e));
                        assert(all =~= out@.to_multiset().add(queue@)) by {
                            list.to_multiset_ensures();
                            assert(list.push(e).to_multiset() =~= list.to_multiset().insert(e));
                            assert(left.count(e) > 0);
                            assert forall|x: Entry| #[trigger]
                                all.count(x) == out@.to_multiset().add(queue@).count(x) by {}
                        }
                        assert forall|j: int, x: Entry|
                            0 <= j < out@.len() && #[trigger] queue@.count(x) > 0 implies before(
                            #[trigger] out@[j],
                            x,
                        ) by {
                            assert(left.count(x) > 0);
                            if j < list.len() {
                                assert(list[j] == out@[j]);
                            }
                        }
                        assert forall|j: int, k: int|
                            0 <= j < k < out@.len() implies before(
                            #[trigger] out@[j],
                            #[trigger] out@[k],
                        ) by {
                            assert(list[j] == out@[j]);
                            if k < list.len() {
                                assert(list[k] == out@[k]);
                            } else {
                                assert(left.count(e) > 0);
                            }
                        }
                    }
                },
                None => {
                    break;
                },
            }
        }
        proof {
            assert(queue@ =~= Multiset::empty()) by {
                assert forall|x: Entry| #[trigger] queue@.count(x) == 0 by {
                    assert(queue@.count(x) <= queue@.len());
                }
            }
            assert(out@.to_multiset() =~= all);
        }
        out
    }
}

/// Whether entries are in order.
pub open spec fn ascending(list: Seq<Entry>) -> bool {
    forall|j: int, k: int|
        0 <= j < k < list.len() ==> before(#[trigger] list[j], #[trigger] list[k])
}

/// Entries of which none is counted twice are all different.
pub proof fn counted_once_means_distinct(list: Seq<Entry>)
    requires
        forall|e: Entry| #[trigger] list.to_multiset().count(e) <= 1,
    ensures
        list.no_duplicates(),
{
    broadcast use vstd::multiset::group_multiset_axioms;
    broadcast use vstd::seq_lib::group_to_multiset_ensures;

    assert forall|j: int, k: int|
        0 <= j < list.len() && 0 <= k < list.len() && j != k implies list[j] != list[k] by {
        if list[j] == list[k] {
            let rest = list.remove(j);
            let at = if k < j {
                k
            } else {
                k - 1
            };
            assert(rest[at] == list[k]);
            assert(rest.contains(list[k]));
            assert(rest.to_multiset() =~= list.to_multiset().remove(list[j]));
            assert(rest.to_multiset().count(list[k]) > 0);
        }
    }
}

} // verus!

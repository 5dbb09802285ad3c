//! The lookup index: streams by a digest of their parent, protocol and key.
use std::collections::hash_map::DefaultHasher;
use std::collections::HashMap;
use std::hash::Hasher;

use vstd::prelude::*;
use vstd::std_specs::hash::DefaultHasherAdditionalSpecFns;

use crate::flows::state::{self, Newcomer, State};
use crate::flows::stream::{CloseReason, StreamId, StreamView};
use crate::flows::tree;
use crate::small::Bucket;

verus! {

/// The bytes of an optional handle.
pub open spec fn handle_bytes(id: Option<StreamId>) -> Seq<u8> {
    match id {
        None => Seq::empty(),
        Some(id) => seq![
            (id.index / 0x100_0000) as u8,
            (id.index / 0x1_0000 % 0x100) as u8,
            (id.index / 0x100 % 0x100) as u8,
            (id.index % 0x100) as u8,
            (id.generation / 0x100_0000) as u8,
            (id.generation / 0x1_0000 % 0x100) as u8,
            (id.generation / 0x100 % 0x100) as u8,
            (id.generation % 0x100) as u8,
        ],
    }
}

/// The digest of a parent, a protocol and some bytes.
pub open spec fn digest(parent: Option<StreamId>, protocol: Seq<char>, bytes: Seq<u8>) -> u64 {
    DefaultHasher::spec_finish(
        seq![handle_bytes(parent), vstd::utf8::encode_utf8(protocol), bytes],
    )
}

/// Computes [`digest`].
pub fn digest_of(parent: Option<StreamId>, protocol: &str, bytes: &[u8]) -> (r: u64)
    ensures
        r == digest(parent, protocol@, bytes@),
{
    let mut h = DefaultHasher::new();
    match parent {
        None => {
            let nothing: &[u8] = &[];
            assert(nothing@ =~= handle_bytes(parent));
            h.write(nothing);
        },
        Some(id) => {
            let handle: &[u8] = &[
                (id.index / 0x100_0000) as u8,
                (id.index / 0x1_0000 % 0x100) as u8,
                (id.index / 0x100 % 0x100) as u8,
                (id.index % 0x100) as u8,
                (id.generation / 0x100_0000) as u8,
                (id.generation / 0x1_0000 % 0x100) as u8,
                (id.generation / 0x100 % 0x100) as u8,
                (id.generation % 0x100) as u8,
            ];
            assert(handle@ =~= handle_bytes(parent));
            h.write(handle);
        },
    }
    h.write(protocol.as_bytes());
    h.write(bytes);
    assert(h@ =~= seq![handle_bytes(parent), vstd::utf8::encode_utf8(protocol@), bytes@]);
    h.finish()
}

/// Handles by digest.
pub struct Index {
    buckets: HashMap<u64, Bucket>,
}

impl Index {
    /// The handles under a digest.
    pub closed spec fn under(&self, d: u64) -> Seq<(u32, u32)> {
        if self.buckets@.contains_key(d) {
            self.buckets@[d]@
        } else {
            Seq::empty()
        }
    }

    pub fn new() -> (r: Index)
        ensures
            forall|d: u64| #[trigger] r.under(d) == Seq::<(u32, u32)>::empty(),
    {
        broadcast use vstd::std_specs::hash::group_hash_axioms;

        Index { buckets: HashMap::new() }
    }

    /// Adds a handle behind those of its digest.
    pub fn insert(&mut self, d: u64, handle: (u32, u32))
        requires
            old(self).under(d).len() < u32::MAX,
        ensures
            forall|e: u64| #[trigger]
                final(self).under(e) == if e == d {
                    old(self).under(d).push(handle)
                } else {
                    old(self).under(e)
                },
    {
        broadcast use vstd::std_specs::hash::group_hash_axioms;

        let mut bucket = match self.buckets.remove(&d) {
            Some(b) => b,
            None => Bucket::new(),
        };
        bucket.push(handle);
        let _previous = self.buckets.insert(d, bucket);
        assert forall|e: u64| #[trigger] self.under(e) == if e == d {
            old(self).under(d).push(handle)
        } else {
            old(self).under(e)
        } by {}
    }

    /// Takes a handle out of its digest's bucket, if it is there.
    pub fn remove(&mut self, d: u64, handle: (u32, u32))
        ensures
            forall|e: u64| e != d ==> #[trigger] final(self).under(e) == old(self).under(e),
            match position_of(old(self).under(d), handle, 0) {
                Some(i) => final(self).under(d) == old(self).under(d).remove(i),
                None => final(self).under(d) == old(self).under(d),
            },
    {
        broadcast use vstd::std_specs::hash::group_hash_axioms;

        match self.buckets.remove(&d) {
            Some(mut bucket) => {
                let list = bucket.as_slice();
                let n: usize = list.len();
                let mut i: usize = 0;
                while i < n && !(list[i].0 == handle.0 && list[i].1 == handle.1)
                    invariant
                        n == list@.len(),
                        i <= n,
                        position_of(list@, handle, 0) == position_of(list@, handle, i as int),
                    decreases n - i,
                {
                    i = i + 1;
                }
                if i < n {
                    let _gone = bucket.remove(i);
                }
                if bucket.as_slice().len() > 0 {
                    let _previous = self.buckets.insert(d, bucket);
                } else {
                    assert(bucket@ =~= Seq::empty());
                }
            },
            None => {},
        }
        assert forall|e: u64| e != d implies #[trigger] self.under(e) == old(self).under(e) by {}
    }

    /// The handles under a digest, in the order in which they came.
    pub fn get(&self, d: u64) -> (r: &[(u32, u32)])
        ensures
            r@ == self.under(d),
    {
        broadcast use vstd::std_specs::hash::group_hash_axioms;

        match self.buckets.get(&d) {
            Some(bucket) => bucket.as_slice(),
            None => {
                let nothing: &[(u32, u32)] = &[];
                assert(nothing@ =~= Seq::empty());
                nothing
            },
        }
    }
}

/// The first place of a handle from `i` on.
pub open spec fn position_of(list: Seq<(u32, u32)>, handle: (u32, u32), i: int) -> Option<int>
    decreases list.len() - i,
{
    if i < 0 || i >= list.len() {
        None
    } else if list[i] == handle {
        Some(i)
    } else {
        position_of(list, handle, i + 1)
    }
}

/// Where [`position_of`] finds a handle.
pub proof fn position_is_there(list: Seq<(u32, u32)>, handle: (u32, u32), i: int)
    requires
        0 <= i,
    ensures
        match position_of(list, handle, i) {
            Some(k) => i <= k < list.len() && list[k] == handle,
            None => forall|k: int| i <= k < list.len() ==> list[k] != handle,
        },
    decreases list.len() - i,
{
    if i < list.len() && list[i] != handle {
        position_is_there(list, handle, i + 1);
    }
}

pub open spec fn handle_of(id: StreamId) -> (u32, u32) {
    (id.index, id.generation)
}

pub open spec fn id_from(handle: (u32, u32)) -> StreamId {
    StreamId { index: handle.0, generation: handle.1 }
}

/// A stream's digest.
pub open spec fn stream_digest(st: StreamView) -> u64 {
    digest(st.parent, st.protocol, st.key)
}

/// The index lists every stream under its digest and nothing else, older ones
/// first.
pub open spec fn indexed(s: State, ix: Index) -> bool {
    &&& forall|d: u64, k: int|
        0 <= k < ix.under(d).len() ==> s.live(id_from(#[trigger] ix.under(d)[k])) && stream_digest(
            s.get(id_from(ix.under(d)[k]))->0,
        ) == d
    &&& forall|i: int| #[trigger]
        s.live_at(i) ==> ix.under(stream_digest(s.at(i))).contains(handle_of(s.at(i).id))
    &&& forall|d: u64, j: int, k: int|
        0 <= j < k < ix.under(d).len() ==> s.get(
            id_from(#[trigger] ix.under(d)[j]),
        )->0.created_seq < s.get(id_from(#[trigger] ix.under(d)[k]))->0.created_seq
}

/// Whether two records are found under one digest and have one age.
pub open spec fn same_entry(a: StreamView, b: StreamView) -> bool {
    &&& a.id == b.id
    &&& a.parent == b.parent
    &&& a.protocol == b.protocol
    &&& a.key == b.key
    &&& a.created_seq == b.created_seq
}

/// The index stays right if no stream comes or goes and each keeps what it is
/// found by.
pub proof fn indexed_after_update(s: State, t: State, ix: Index)
    requires
        indexed(s, ix),
        forall|i: int| #[trigger] t.live_at(i) <==> s.live_at(i),
        forall|i: int| #[trigger] s.live_at(i) ==> same_entry(s.at(i), t.at(i)),
        forall|x: StreamId| #[trigger] t.live(x) <==> s.live(x),
    ensures
        indexed(t, ix),
{
    assert forall|x: StreamId| s.live(x) implies same_entry(s.get(x)->0, #[trigger] t.get(x)->0) by {
        assert(s.live_at(x.index as int));
        assert(t.live(x));
    }
    assert forall|d: u64, k: int| 0 <= k < ix.under(d).len() implies t.live(
        id_from(#[trigger] ix.under(d)[k]),
    ) && stream_digest(t.get(id_from(ix.under(d)[k]))->0) == d by {
        let x = id_from(ix.under(d)[k]);
        assert(s.live(x));
        assert(same_entry(s.get(x)->0, t.get(x)->0));
    }
    assert forall|i: int| #[trigger] t.live_at(i) implies ix.under(
        stream_digest(t.at(i)),
    ).contains(handle_of(t.at(i).id)) by {
        assert(s.live_at(i));
    }
    assert forall|d: u64, j: int, k: int| 0 <= j < k < ix.under(d).len() implies t.get(
        id_from(#[trigger] ix.under(d)[j]),
    )->0.created_seq < t.get(id_from(#[trigger] ix.under(d)[k]))->0.created_seq by {
        let x = id_from(ix.under(d)[j]);
        let y = id_from(ix.under(d)[k]);
        assert(s.live(x) && s.live(y));
        assert(same_entry(s.get(x)->0, t.get(x)->0));
        assert(same_entry(s.get(y)->0, t.get(y)->0));
    }
}

/// A bucket lists each slot once at most.
pub proof fn bucket_is_bounded(s: State, ix: Index, d: u64)
    requires
        tree::numbered(s),
        indexed(s, ix),
    ensures
        ix.under(d).len() <= s.slots.len(),
{
    let list = ix.under(d);
    let slots = Seq::new(list.len(), |k: int| list[k].0 as int);
    assert forall|j: int, k: int| 0 <= j < slots.len() && 0 <= k < slots.len() && j
        != k implies slots[j] != slots[k] by {
        let x = id_from(ix.under(d)[j]);
        let y = id_from(ix.under(d)[k]);
        assert(s.live(x) && s.live(y));
        if slots[j] == slots[k] {
            assert(x == y);
            if j < k {
                assert(s.get(id_from(ix.under(d)[j]))->0.created_seq < s.get(
                    id_from(ix.under(d)[k]),
                )->0.created_seq);
            } else {
                assert(s.get(id_from(ix.under(d)[k]))->0.created_seq < s.get(
                    id_from(ix.under(d)[j]),
                )->0.created_seq);
            }
        }
    }
    slots.unique_seq_to_set();
    let range = vstd::set_lib::set_int_range(0, s.slots.len() as int);
    vstd::set_lib::lemma_int_range(0, s.slots.len() as int);
    assert(slots.to_set().subset_of(range)) by {
        assert forall|x: int| slots.to_set().contains(x) implies range.contains(x) by {
            let k = choose|k: int| 0 <= k < slots.len() && slots[k] == x;
            assert(s.live(id_from(ix.under(d)[k])));
        }
    }
    vstd::set_lib::lemma_len_subset(slots.to_set(), range);
}

/// The index stays right if a new stream is added behind the others of its
/// digest.
pub proof fn indexed_after_created(s: State, n: Newcomer, a: Index, b: Index)
    requires
        tree::numbered(s),
        tree::recyclable(s),
        s.slots.len() < u32::MAX,
        n.parent is Some ==> s.live(n.parent->0),
        indexed(s, a),
        forall|e: u64| #[trigger]
            b.under(e) == if e == digest(n.parent, n.protocol, n.key) {
                a.under(e).push(handle_of(state::next_id(s)))
            } else {
                a.under(e)
            },
    ensures
        indexed(state::created(s, n), b),
{
    let t = state::created(s, n);
    let id = state::next_id(s);
    let e0 = digest(n.parent, n.protocol, n.key);
    tree::creating_adds_one(s, n);
    let rec = state::record(n, id, s.next_seq);
    assert(t.get(id) == Some(rec));
    assert(t.live(id));
    assert(id_from(handle_of(id)) == id);
    assert forall|x: StreamId| s.live(x) implies same_entry(s.get(x)->0, #[trigger] t.get(x)->0)
        && s.get(x)->0.created_seq < s.next_seq by {
        assert(s.live_at(x.index as int));
        assert(t.live(x));
    }
    assert forall|d: u64, k: int| 0 <= k < b.under(d).len() implies t.live(
        id_from(#[trigger] b.under(d)[k]),
    ) && stream_digest(t.get(id_from(b.under(d)[k]))->0) == d by {
        if d == e0 && k == a.under(d).len() {
            assert(b.under(d)[k] == handle_of(id));
        } else {
            assert(b.under(d)[k] == a.under(d)[k]);
            let x = id_from(a.under(d)[k]);
            assert(s.live(x));
            assert(t.live(x));
            assert(same_entry(s.get(x)->0, t.get(x)->0));
        }
    }
    assert forall|i: int| #[trigger] t.live_at(i) implies b.under(stream_digest(t.at(i))).contains(
        handle_of(t.at(i).id),
    ) by {
        if i == id.index {
            assert(t.get(id) == Some(t.at(i)));
            let list = b.under(e0);
            assert(list[list.len() - 1] == handle_of(id));
        } else {
            assert(s.live_at(i));
            let x = s.at(i).id;
            assert(s.live(x));
            assert(t.get(x) == Some(t.at(i)));
            assert(same_entry(s.get(x)->0, t.get(x)->0));
            let d = stream_digest(s.at(i));
            let k = choose|k: int| 0 <= k < a.under(d).len() && a.under(d)[k] == handle_of(x);
            assert(b.under(d)[k] == handle_of(x));
        }
    }
    assert forall|d: u64, j: int, k: int| 0 <= j < k < b.under(d).len() implies t.get(
        id_from(#[trigger] b.under(d)[j]),
    )->0.created_seq < t.get(id_from(#[trigger] b.under(d)[k]))->0.created_seq by {
        assert(b.under(d)[j] == a.under(d)[j]);
        let x = id_from(a.under(d)[j]);
        assert(s.live(x));
        assert(same_entry(s.get(x)->0, t.get(x)->0));
        if d == e0 && k == a.under(d).len() {
            assert(b.under(d)[k] == handle_of(id));
        } else {
            assert(b.under(d)[k] == a.under(d)[k]);
            let y = id_from(a.under(d)[k]);
            assert(s.live(y));
            assert(same_entry(s.get(y)->0, t.get(y)->0));
            assert(s.get(x)->0.created_seq < s.get(y)->0.created_seq);
        }
    }
}

/// The index stays right if an evicted leaf is taken out.
pub proof fn indexed_after_evict(s: State, id: StreamId, reason: CloseReason, a: Index, b: Index)
    requires
        tree::hierarchy(s),
        s.live(id),
        s.get(id)->0.children.len() == 0,
        indexed(s, a),
        forall|e: u64|
            e != stream_digest(s.get(id)->0) ==> #[trigger] b.under(e) == a.under(e),
        match position_of(a.under(stream_digest(s.get(id)->0)), handle_of(id), 0) {
            Some(i) => b.under(stream_digest(s.get(id)->0)) == a.under(
                stream_digest(s.get(id)->0),
            ).remove(i),
            None => b.under(stream_digest(s.get(id)->0)) == a.under(stream_digest(s.get(id)->0)),
        },
    ensures
        indexed(state::evict(s, id, reason), b),
{
    let t = state::evict(s, id, reason);
    let e0 = stream_digest(s.get(id)->0);
    tree::handles_are_unique(s, id);
    tree::evicting_removes_one(s, id, reason);
    let old_list = a.under(e0);
    position_is_there(old_list, handle_of(id), 0);
    assert(s.live_at(id.index as int));
    assert(old_list.contains(handle_of(id)));
    let m = position_of(old_list, handle_of(id), 0)->0;
    assert(old_list[m] == handle_of(id));
    assert forall|x: StreamId| s.live(x) && x != id implies same_entry(
        s.get(x)->0,
        #[trigger] t.get(x)->0,
    ) by {
        assert(t.live(x));
    }
    // Where each of the remaining handles was before.
    assert forall|k: int| 0 <= k < b.under(e0).len() implies #[trigger] b.under(e0)[k] == old_list[
    if k < m {
        k
    } else {
        k + 1
    }] && id_from(b.under(e0)[k]) != id by {
        let k0 = if k < m {
            k
        } else {
            k + 1
        };
        assert(b.under(e0)[k] == old_list[k0]);
        if id_from(old_list[k0]) == id {
            assert(old_list[k0] == old_list[m]);
            if k0 < m {
                assert(s.get(id_from(a.under(e0)[k0]))->0.created_seq < s.get(
                    id_from(a.under(e0)[m]),
                )->0.created_seq);
            } else {
                assert(s.get(id_from(a.under(e0)[m]))->0.created_seq < s.get(
                    id_from(a.under(e0)[k0]),
                )->0.created_seq);
            }
        }
    }
    assert forall|d: u64, k: int| 0 <= k < b.under(d).len() implies t.live(
        id_from(#[trigger] b.under(d)[k]),
    ) && stream_digest(t.get(id_from(b.under(d)[k]))->0) == d by {
        let x = id_from(b.under(d)[k]);
        if d == e0 {
            let k0 = if k < m {
                k
            } else {
                k + 1
            };
            assert(b.under(e0)[k] == a.under(e0)[k0]);
            assert(s.live(id_from(a.under(e0)[k0])));
        } else {
            assert(b.under(d)[k] == a.under(d)[k]);
            assert(s.live(id_from(a.under(d)[k])));
            assert(x != id);
        }
        assert(t.live(x));
        assert(same_entry(s.get(x)->0, t.get(x)->0));
    }
    assert forall|i: int| #[trigger] t.live_at(i) implies b.under(stream_digest(t.at(i))).contains(
        handle_of(t.at(i).id),
    ) by {
        assert(s.live_at(i) && i != id.index);
        let x = s.at(i).id;
        assert(s.live(x) && x != id);
        assert(t.live(x));
        assert(t.get(x) == Some(t.at(i)));
        assert(same_entry(s.get(x)->0, t.get(x)->0));
        let d = stream_digest(s.at(i));
        let k = choose|k: int| 0 <= k < a.under(d).len() && a.under(d)[k] == handle_of(x);
        if d == e0 {
            let k1 = if k < m {
                k
            } else {
                k - 1
            };
            assert(k != m);
            assert(b.under(d)[k1] == handle_of(x));
        } else {
            assert(b.under(d)[k] == handle_of(x));
        }
    }
    assert forall|d: u64, j: int, k: int| 0 <= j < k < b.under(d).len() implies t.get(
        id_from(#[trigger] b.under(d)[j]),
    )->0.created_seq < t.get(id_from(#[trigger] b.under(d)[k]))->0.created_seq by {
        let x = id_from(b.under(d)[j]);
        let y = id_from(b.under(d)[k]);
        if d == e0 {
            let j0 = if j < m {
                j
            } else {
                j + 1
            };
            let k0 = if k < m {
                k
            } else {
                k + 1
            };
            assert(b.under(d)[j] == a.under(d)[j0] && b.under(d)[k] == a.under(d)[k0]);
            assert(s.get(id_from(a.under(d)[j0]))->0.created_seq < s.get(
                id_from(a.under(d)[k0]),
            )->0.created_seq);
        } else {
            assert(b.under(d)[j] == a.under(d)[j] && b.under(d)[k] == a.under(d)[k]);
            assert(s.get(id_from(a.under(d)[j]))->0.created_seq < s.get(
                id_from(a.under(d)[k]),
            )->0.created_seq);
        }
        assert(t.live(x) && t.live(y));
        assert(s.live(x) && x != id && s.live(y) && y != id);
        assert(same_entry(s.get(x)->0, t.get(x)->0));
        assert(same_entry(s.get(y)->0, t.get(y)->0));
    }
}

pub open spec fn is_conversation(
    st: StreamView,
    parent: Option<StreamId>,
    protocol: Seq<char>,
    key: Seq<u8>,
) -> bool {
    st.parent == parent && st.protocol == protocol && st.key == key
}

/// The first stream of a conversation in its bucket is the one to look up.
pub proof fn first_match_is_the_oldest(
    s: State,
    ix: Index,
    parent: Option<StreamId>,
    protocol: Seq<char>,
    key: Seq<u8>,
    k: int,
)
    requires
        tree::numbered(s),
        indexed(s, ix),
        0 <= k <= ix.under(digest(parent, protocol, key)).len(),
        forall|j: int|
            0 <= j < k ==> !is_conversation(
                s.get(id_from(#[trigger] ix.under(digest(parent, protocol, key))[j]))->0,
                parent,
                protocol,
                key,
            ),
        k < ix.under(digest(parent, protocol, key)).len() ==> is_conversation(
            s.get(id_from(ix.under(digest(parent, protocol, key))[k]))->0,
            parent,
            protocol,
            key,
        ),
    ensures
        state::lookup(s, parent, protocol, key) == if k < ix.under(
            digest(parent, protocol, key),
        ).len() {
            Some(id_from(ix.under(digest(parent, protocol, key))[k]))
        } else {
            None
        },
{
    let d = digest(parent, protocol, key);
    let list = ix.under(d);
    // Whatever matches stands in the bucket, not ahead of `k`.
    assert forall|i: int| #[trigger] state::matches(s, i, parent, protocol, key) implies exists|
        j: int,
    |
        k <= j < list.len() && #[trigger] list[j] == handle_of(s.at(i).id) by {
        assert(s.live_at(i));
        assert(stream_digest(s.at(i)) == d);
        assert(ix.under(stream_digest(s.at(i))).contains(handle_of(s.at(i).id)));
        let j = choose|j: int| 0 <= j < list.len() && list[j] == handle_of(s.at(i).id);
        let x = id_from(ix.under(d)[j]);
        assert(x == s.at(i).id);
        assert(s.live(x));
        assert(s.get(x) == Some(s.at(i)));
        if j < k {
            assert(!is_conversation(s.get(id_from(ix.under(d)[j]))->0, parent, protocol, key));
        }
    }
    if k < list.len() {
        let x = id_from(ix.under(d)[k]);
        assert(s.live(x));
        tree::handles_are_unique(s, x);
        let i = x.index as int;
        assert(state::matches(s, i, parent, protocol, key));
        assert forall|j: int| #[trigger] state::matches(s, j, parent, protocol, key) implies s.at(
            i,
        ).created_seq <= s.at(j).created_seq by {
            let m = choose|m: int| k <= m < list.len() && #[trigger] list[m] == handle_of(s.at(j).id);
            assert(s.live_at(j));
            assert(id_from(ix.under(d)[m]) == s.at(j).id);
            if m > k {
                assert(s.get(id_from(ix.under(d)[k]))->0.created_seq < s.get(
                    id_from(ix.under(d)[m]),
                )->0.created_seq);
            }
        }
        assert(state::oldest(s, i, parent, protocol, key));
        let c = choose|c: int| state::oldest(s, c, parent, protocol, key);
        assert(state::oldest(s, c, parent, protocol, key));
        assert(s.live_at(c) && s.live_at(i));
        assert(s.at(c).created_seq <= s.at(i).created_seq) by {
            assert(state::matches(s, i, parent, protocol, key));
        }
        assert(s.at(i).created_seq <= s.at(c).created_seq) by {
            assert(state::matches(s, c, parent, protocol, key));
        }
        assert(c == i);
    } else {
        assert forall|i: int| !state::oldest(s, i, parent, protocol, key) by {
            if state::oldest(s, i, parent, protocol, key) {
                assert(state::matches(s, i, parent, protocol, key));
            }
        }
    }
}

} // verus!

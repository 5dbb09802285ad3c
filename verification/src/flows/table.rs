//! A hash table whose keys are compared by content: entries are found by a
//! digest of the key, then told apart by the key itself.
use std::collections::HashMap;

use vstd::prelude::*;

verus! {

/// What can be a key of a [`Table`].
pub trait TableKey: View + Sized {
    spec fn spec_digest(content: Self::V) -> u64;

    /// A number that equal keys share.
    fn digest(&self) -> (d: u64)
        ensures
            d == Self::spec_digest(self@),
    ;

    /// Whether two keys have the same content.
    fn same(&self, other: &Self) -> (r: bool)
        ensures
            r == (self@ == other@),
    ;
}

pub struct Table<K: TableKey, T> {
    buckets: HashMap<u64, Vec<(K, T)>>,
}

/// Whether the bucket of `k` holds it at `i`.
spec fn held_at<K: TableKey, T>(b: Map<u64, Vec<(K, T)>>, k: K::V, i: int) -> bool {
    let d = K::spec_digest(k);
    b.contains_key(d) && 0 <= i < b[d]@.len() && b[d]@[i].0@ == k
}

spec fn held<K: TableKey, T>(b: Map<u64, Vec<(K, T)>>, k: K::V) -> bool {
    exists|i: int| held_at(b, k, i)
}

spec fn content<K: TableKey, T>(b: Map<u64, Vec<(K, T)>>) -> Map<K::V, T> {
    Map::new(
        |k: K::V| held(b, k),
        |k: K::V| b[K::spec_digest(k)]@[choose|i: int| held_at(b, k, i)].1,
    )
}

impl<K: TableKey, T> View for Table<K, T> {
    type V = Map<K::V, T>;

    closed spec fn view(&self) -> Map<K::V, T> {
        content(self.buckets@)
    }
}

/// No key occurs twice, and every key is in its digest's bucket.
spec fn tidy<K: TableKey, T>(b: Map<u64, Vec<(K, T)>>) -> bool {
    &&& forall|d: u64, i: int|
        #![trigger b[d]@[i]]
        b.contains_key(d) && 0 <= i < b[d]@.len() ==> K::spec_digest(b[d]@[i].0@) == d
    &&& forall|d: u64, i: int, j: int|
        #![trigger b[d]@[i], b[d]@[j]]
        b.contains_key(d) && 0 <= i < j < b[d]@.len() ==> b[d]@[i].0@ != b[d]@[j].0@
}

proof fn lemma_held<K: TableKey, T>(b: Map<u64, Vec<(K, T)>>, k: K::V, i: int)
    requires
        tidy(b),
        held_at(b, k, i),
    ensures
        content(b).contains_key(k),
        content(b)[k] == b[K::spec_digest(k)]@[i].1,
{
    let d = K::spec_digest(k);
    let j = choose|j: int| held_at(b, k, j);
    assert(held_at(b, k, j));
    if i < j {
        assert(b[d]@[i].0@ != b[d]@[j].0@);
    } else if j < i {
        assert(b[d]@[j].0@ != b[d]@[i].0@);
    }
}

/// The content of a table changes at `k` only, if all other buckets stay and
/// the bucket of `k` keeps its other entries.
proof fn lemma_changed<K: TableKey, T>(
    b: Map<u64, Vec<(K, T)>>,
    c: Map<u64, Vec<(K, T)>>,
    k: K::V,
    j: K::V,
)
    requires
        tidy(b),
        tidy(c),
        j != k,
        forall|d: u64|
            d != K::spec_digest(k) ==> (#[trigger] b.contains_key(d) <==> c.contains_key(d))
                && b[d] == c[d],
        forall|i: int|
            #![trigger b[K::spec_digest(k)]@[i]]
            b.contains_key(K::spec_digest(k)) && 0 <= i < b[K::spec_digest(k)]@.len()
                && b[K::spec_digest(k)]@[i].0@ != k ==> exists|m: int|
                held_at(c, b[K::spec_digest(k)]@[i].0@, m) && c[K::spec_digest(k)]@[m].1
                    == b[K::spec_digest(k)]@[i].1,
        forall|i: int|
            #![trigger c[K::spec_digest(k)]@[i]]
            c.contains_key(K::spec_digest(k)) && 0 <= i < c[K::spec_digest(k)]@.len()
                && c[K::spec_digest(k)]@[i].0@ != k ==> exists|m: int|
                held_at(b, c[K::spec_digest(k)]@[i].0@, m),
    ensures
        content(b).contains_key(j) <==> content(c).contains_key(j),
        content(b).contains_key(j) ==> content(b)[j] == content(c)[j],
{
    let d = K::spec_digest(j);
    let e = K::spec_digest(k);
    if content(b).contains_key(j) {
        let i = choose|i: int| held_at(b, j, i);
        assert(held_at(b, j, i));
        lemma_held(b, j, i);
        if d == e {
            assert(b[e]@[i].0@ == j);
            let m = choose|m: int|
                held_at(c, b[e]@[i].0@, m) && c[e]@[m].1 == b[e]@[i].1;
            lemma_held(c, j, m);
        } else {
            assert(b.contains_key(d));
            assert(held_at(c, j, i));
            lemma_held(c, j, i);
        }
    }
    if content(c).contains_key(j) {
        let i = choose|i: int| held_at(c, j, i);
        assert(held_at(c, j, i));
        if d == e {
            assert(c[e]@[i].0@ == j);
            let m = choose|m: int| held_at(b, c[e]@[i].0@, m);
            lemma_held(b, j, m);
        } else {
            assert(b.contains_key(d) <==> c.contains_key(d));
            assert(held_at(b, j, i));
            lemma_held(b, j, i);
        }
    }
}

/// Whether two tables agree on every key but `k`.
spec fn agree_but<K: TableKey, T>(
    b: Map<u64, Vec<(K, T)>>,
    c: Map<u64, Vec<(K, T)>>,
    k: K::V,
) -> bool {
    forall|j: K::V|
        j != k ==> (#[trigger] content(b).contains_key(j) <==> content(c).contains_key(j)) && (
        content(b).contains_key(j) ==> content(b)[j] == content(c)[j])
}

proof fn lemma_without<K: TableKey, T>(
    b: Map<u64, Vec<(K, T)>>,
    c: Map<u64, Vec<(K, T)>>,
    k: K::V,
)
    requires
        agree_but(b, c, k),
        !content(c).contains_key(k),
    ensures
        content(c) == content(b).remove(k),
{
    let m = content(b).remove(k);
    assert forall|j: K::V| #[trigger] content(c).contains_key(j) <==> m.contains_key(j) by {
        if j != k {
            assert(content(b).contains_key(j) <==> content(c).contains_key(j));
        }
    }
    assert forall|j: K::V| #[trigger] content(c).contains_key(j) implies content(c)[j] == m[j] by {
        assert(content(b).contains_key(j));
    }
    assert(content(c) =~= m);
}

proof fn lemma_with<K: TableKey, T>(
    b: Map<u64, Vec<(K, T)>>,
    c: Map<u64, Vec<(K, T)>>,
    k: K::V,
    value: T,
)
    requires
        agree_but(b, c, k),
        content(c).contains_key(k),
        content(c)[k] == value,
    ensures
        content(c) == content(b).insert(k, value),
{
    let m = content(b).insert(k, value);
    assert forall|j: K::V| #[trigger] content(c).contains_key(j) <==> m.contains_key(j) by {
        if j != k {
            assert(content(b).contains_key(j) <==> content(c).contains_key(j));
        }
    }
    assert forall|j: K::V| #[trigger] content(c).contains_key(j) implies content(c)[j] == m[j] by {
        if j != k {
            assert(content(b).contains_key(j));
        }
    }
    assert(content(c) =~= m);
}

impl<K: TableKey, T> Table<K, T> {
    pub closed spec fn wf(&self) -> bool {
        tidy(self.buckets@)
    }

    pub fn new() -> (r: Table<K, T>)
        ensures
            r.wf(),
            r@ == Map::<K::V, T>::empty(),
    {
        let r: Table<K, T> = Table { buckets: HashMap::new() };
        assert(r@ =~= Map::<K::V, T>::empty());
        r
    }

    /// Where a key stands in its bucket, if it is there.
    fn place(bucket: &Vec<(K, T)>, key: &K) -> (r: Option<usize>)
        ensures
            match r {
                Some(i) => i < bucket@.len() && bucket@[i as int].0@ == key@,
                None => forall|i: int| 0 <= i < bucket@.len() ==> (#[trigger] bucket@[i]).0@ != key@,
            },
    {
        let n: usize = bucket.len();
        let mut i: usize = 0;
        while i < n
            invariant
                n == bucket@.len(),
                i <= n,
                forall|j: int| 0 <= j < i ==> (#[trigger] bucket@[j]).0@ != key@,
            decreases n - i,
        {
            if bucket[i].0.same(key) {
                return Some(i);
            }
            i = i + 1;
        }
        None
    }

    pub fn get(&self, key: &K) -> (r: Option<&T>)
        requires
            self.wf(),
        ensures
            match r {
                Some(v) => self@.contains_key(key@) && *v == self@[key@],
                None => !self@.contains_key(key@),
            },
    {
        broadcast use vstd::std_specs::hash::group_hash_axioms;

        let d: u64 = key.digest();
        match self.buckets.get(&d) {
            Some(bucket) => match Table::place(bucket, key) {
                Some(i) => {
                    proof {
                        assert(held_at(self.buckets@, key@, i as int));
                        lemma_held(self.buckets@, key@, i as int);
                    }
                    Some(&bucket[i].1)
                },
                None => None,
            },
            None => None,
        }
    }

    /// Takes an entry out.
    pub fn remove(&mut self, key: &K) -> (r: Option<T>)
        requires
            old(self).wf(),
        ensures
            final(self).wf(),
            final(self)@ == old(self)@.remove(key@),
            match r {
                Some(v) => old(self)@.contains_key(key@) && v == old(self)@[key@],
                None => !old(self)@.contains_key(key@),
            },
    {
        broadcast use vstd::std_specs::hash::group_hash_axioms;

        let d: u64 = key.digest();
        let ghost b = self.buckets@;
        let ghost before = self@;
        match self.buckets.remove(&d) {
            Some(mut bucket) => match Table::place(&bucket, key) {
                Some(i) => {
                    let ghost whole = bucket@;
                    proof {
                        assert(b[d]@ == whole);
                        assert(held_at(b, key@, i as int));
                        lemma_held(b, key@, i as int);
                    }
                    let (_k, v) = bucket.remove(i);
                    assert(bucket@ =~= whole.remove(i as int));
                    let ghost left = bucket@;
                    if bucket.len() > 0 {
                        let _previous = self.buckets.insert(d, bucket);
                    }
                    let ghost c = self.buckets@;
                    proof {
                        assert(c.contains_key(d) ==> c[d]@ == left);
                        assert(c.contains_key(d) <==> left.len() > 0);
                        assert forall|j: int| 0 <= j < left.len() implies left[j]
                            == whole[if j < i {
                            j
                        } else {
                            j + 1
                        }] by {}
                        assert(tidy(c)) by {
                            assert forall|e: u64, x: int|
                                #![trigger c[e]@[x]]
                                c.contains_key(e) && 0 <= x < c[e]@.len() implies K::spec_digest(
                                c[e]@[x].0@,
                            ) == e by {
                                if e == d {
                                    let y = if x < i {
                                        x
                                    } else {
                                        x + 1
                                    };
                                    assert(left[x] == b[d]@[y]);
                                } else {
                                    assert(c[e]@[x] == b[e]@[x]);
                                }
                            }
                            assert forall|e: u64, x: int, y: int|
                                #![trigger c[e]@[x], c[e]@[y]]
                                c.contains_key(e) && 0 <= x < y < c[e]@.len() implies c[e]@[x].0@
                                != c[e]@[y].0@ by {
                                if e == d {
                                    let x0 = if x < i {
                                        x
                                    } else {
                                        x + 1
                                    };
                                    let y0 = if y < i {
                                        y
                                    } else {
                                        y + 1
                                    };
                                    assert(b[d]@[x0].0@ != b[d]@[y0].0@);
                                } else {
                                    assert(b[e]@[x].0@ != b[e]@[y].0@);
                                }
                            }
                        }
                        assert(!content(c).contains_key(key@)) by {
                            if content(c).contains_key(key@) {
                                let m = choose|m: int| held_at(c, key@, m);
                                assert(held_at(c, key@, m));
                                let m0 = if m < i {
                                    m
                                } else {
                                    m + 1
                                };
                                assert(b[d]@[m0].0@ == key@);
                                if m0 < i {
                                    assert(b[d]@[m0].0@ != b[d]@[i as int].0@);
                                } else {
                                    assert(b[d]@[i as int].0@ != b[d]@[m0].0@);
                                }
                            }
                        }
                        assert forall|j: K::V| j != key@ implies (#[trigger] content(
                            b,
                        ).contains_key(j) <==> content(c).contains_key(j)) && (content(
                            b,
                        ).contains_key(j) ==> content(b)[j] == content(c)[j]) by {
                            assert forall|x: int|
                                #![trigger b[d]@[x]]
                                b.contains_key(d) && 0 <= x < b[d]@.len() && b[d]@[x].0@
                                    != key@ implies exists|m: int|
                                held_at(c, b[d]@[x].0@, m) && c[d]@[m].1 == b[d]@[x].1 by {
                                let m = if x < i {
                                    x
                                } else {
                                    x - 1
                                };
                                assert(c[d]@[m] == b[d]@[x]);
                                assert(held_at(c, b[d]@[x].0@, m));
                            }
                            assert forall|x: int|
                                #![trigger c[d]@[x]]
                                c.contains_key(d) && 0 <= x < c[d]@.len() && c[d]@[x].0@
                                    != key@ implies exists|m: int| held_at(b, c[d]@[x].0@, m) by {
                                let m = if x < i {
                                    x
                                } else {
                                    x + 1
                                };
                                assert(c[d]@[x] == b[d]@[m]);
                                assert(held_at(b, c[d]@[x].0@, m));
                            }
                            lemma_changed(b, c, key@, j);
                        }
                        lemma_without(b, c, key@);
                    }
                    Some(v)
                },
                None => {
                    let _previous = self.buckets.insert(d, bucket);
                    proof {
                        assert(self.buckets@ =~= b);
                        assert(before.remove(key@) =~= before);
                    }
                    None
                },
            },
            None => {
                proof {
                    assert(self.buckets@ =~= b);
                    assert(before.remove(key@) =~= before);
                }
                None
            },
        }
    }

    /// Adds an entry under a key that is not there.
    pub fn insert(&mut self, key: K, value: T)
        requires
            old(self).wf(),
            !old(self)@.contains_key(key@),
        ensures
            final(self).wf(),
            final(self)@ == old(self)@.insert(key@, value),
    {
        broadcast use vstd::std_specs::hash::group_hash_axioms;

        let d: u64 = key.digest();
        let ghost b = self.buckets@;
        let ghost k = key@;
        let mut bucket: Vec<(K, T)> = match self.buckets.remove(&d) {
            Some(bucket) => bucket,
            None => Vec::new(),
        };
        let ghost held_before = bucket@;
        proof {
            assert forall|i: int| 0 <= i < held_before.len() implies (
            #[trigger] held_before[i]).0@ != k by {
                if held_before[i].0@ == k {
                    assert(held_at(b, k, i));
                }
            }
        }
        bucket.push((key, value));
        let _previous = self.buckets.insert(d, bucket);
        let ghost c = self.buckets@;
        proof {
            let n = held_before.len() as int;
            assert(c =~= b.insert(d, bucket));
            assert(tidy(c)) by {
                assert forall|e: u64, x: int|
                    #![trigger c[e]@[x]]
                    c.contains_key(e) && 0 <= x < c[e]@.len() implies K::spec_digest(c[e]@[x].0@)
                    == e by {
                    if e == d {
                        if x < n {
                            assert(c[e]@[x] == b[d]@[x]);
                        }
                    } else {
                        assert(c[e]@[x] == b[e]@[x]);
                    }
                }
                assert forall|e: u64, x: int, y: int|
                    #![trigger c[e]@[x], c[e]@[y]]
                    c.contains_key(e) && 0 <= x < y < c[e]@.len() implies c[e]@[x].0@
                    != c[e]@[y].0@ by {
                    if e == d {
                        if y < n {
                            assert(b[d]@[x].0@ != b[d]@[y].0@);
                        } else {
                            assert(held_before[x].0@ != k);
                        }
                    } else {
                        assert(b[e]@[x].0@ != b[e]@[y].0@);
                    }
                }
            }
            assert(held_at(c, k, n));
            lemma_held(c, k, n);
            assert forall|j: K::V| j != k implies (#[trigger] content(b).contains_key(j)
                <==> content(c).contains_key(j)) && (content(b).contains_key(j) ==> content(b)[j]
                == content(c)[j]) by {
                assert forall|x: int|
                    #![trigger b[d]@[x]]
                    b.contains_key(d) && 0 <= x < b[d]@.len() && b[d]@[x].0@ != k implies exists|
                    m: int,
                |
                    held_at(c, b[d]@[x].0@, m) && c[d]@[m].1 == b[d]@[x].1 by {
                    assert(c[d]@[x] == b[d]@[x]);
                    assert(held_at(c, b[d]@[x].0@, x));
                }
                assert forall|x: int|
                    #![trigger c[d]@[x]]
                    c.contains_key(d) && 0 <= x < c[d]@.len() && c[d]@[x].0@ != k implies exists|
                    m: int,
                |
                    held_at(b, c[d]@[x].0@, m) by {
                    assert(c[d]@[x] == held_before[x]);
                    assert(held_at(b, c[d]@[x].0@, x));
                }
                lemma_changed(b, c, k, j);
            }
            lemma_with(b, c, k, value);
        }
    }
}

} // verus!

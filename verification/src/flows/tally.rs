//! Per-protocol counts, sorted by protocol name.
use vstd::prelude::*;

use crate::flows::key;
use crate::text::str_eq;
use crate::value::ProtocolName;

verus! {

/// One protocol's counts.
#[derive(Clone, Copy, PartialEq, Eq, Debug)]
pub struct ProtocolCounts {
    pub protocol: ProtocolName,
    /// Flows ever created.
    pub ever: u64,
    /// Streams that are live.
    pub live: u64,
    /// Bytes that the live streams counted.
    pub bytes: u64,
}

/// The counts without the name.
pub ghost struct Counts {
    pub ever: u64,
    pub live: u64,
    pub bytes: u64,
}

impl View for ProtocolCounts {
    type V = Counts;

    open spec fn view(&self) -> Counts {
        Counts { ever: self.ever, live: self.live, bytes: self.bytes }
    }
}

/// Whether one name comes before another.
pub open spec fn name_before(a: Seq<char>, b: Seq<char>) -> bool {
    a != b && key::lex_le(vstd::utf8::encode_utf8(a), vstd::utf8::encode_utf8(b))
}

/// Whether some rows are sorted by name, none of them twice.
pub open spec fn sorted(rows: Seq<ProtocolCounts>) -> bool {
    forall|i: int, j: int|
        0 <= i < j < rows.len() ==> name_before(
            (#[trigger] rows[i]).protocol@,
            (#[trigger] rows[j]).protocol@,
        )
}

/// The rows by name.
pub open spec fn by_name(rows: Seq<ProtocolCounts>) -> Map<Seq<char>, Counts> {
    Map::new(
        |p: Seq<char>| exists|i: int| 0 <= i < rows.len() && (#[trigger] rows[i]).protocol@ == p,
        |p: Seq<char>|
            rows[choose|i: int| 0 <= i < rows.len() && (#[trigger] rows[i]).protocol@ == p]@,
    )
}

/// A name's row is the one that [`by_name`] gives.
pub proof fn by_name_at(rows: Seq<ProtocolCounts>, i: int)
    requires
        sorted(rows),
        0 <= i < rows.len(),
    ensures
        by_name(rows).contains_key(rows[i].protocol@),
        by_name(rows)[rows[i].protocol@] == rows[i]@,
{
    let p = rows[i].protocol@;
    let j = choose|j: int| 0 <= j < rows.len() && (#[trigger] rows[j]).protocol@ == p;
    assert(0 <= j < rows.len() && rows[j].protocol@ == p);
    if i < j {
        assert(name_before(rows[i].protocol@, rows[j].protocol@));
    } else if j < i {
        assert(name_before(rows[j].protocol@, rows[i].protocol@));
    }
}

proof fn lemma_updated(rows: Seq<ProtocolCounts>, i: int, r: ProtocolCounts)
    requires
        sorted(rows),
        0 <= i < rows.len(),
        rows[i].protocol@ == r.protocol@,
    ensures
        sorted(rows.update(i, r)),
        by_name(rows.update(i, r)) == by_name(rows).insert(r.protocol@, r@),
{
    let t = rows.update(i, r);
    assert(sorted(t)) by {
        assert forall|a: int, b: int| 0 <= a < b < t.len() implies name_before(
            (#[trigger] t[a]).protocol@,
            (#[trigger] t[b]).protocol@,
        ) by {
            assert(name_before(rows[a].protocol@, rows[b].protocol@));
        }
    }
    by_name_at(rows, i);
    by_name_at(t, i);
    assert forall|p: Seq<char>| #[trigger] by_name(t).contains_key(p) <==> by_name(
        rows,
    ).contains_key(p) by {
        if by_name(t).contains_key(p) {
            let a = choose|a: int| 0 <= a < t.len() && (#[trigger] t[a]).protocol@ == p;
            assert(rows[a].protocol@ == p);
            by_name_at(rows, a);
        }
        if by_name(rows).contains_key(p) {
            let a = choose|a: int| 0 <= a < rows.len() && (#[trigger] rows[a]).protocol@ == p;
            assert(t[a].protocol@ == p);
            by_name_at(t, a);
        }
    }
    assert forall|p: Seq<char>| by_name(rows).contains_key(p) && p != r.protocol@ implies #[trigger]
    by_name(t)[p] == by_name(rows)[p] by {
        let a = choose|a: int| 0 <= a < rows.len() && (#[trigger] rows[a]).protocol@ == p;
        assert(a != i);
        assert(t[a] == rows[a]);
        by_name_at(rows, a);
        by_name_at(t, a);
    }
    assert(by_name(t) =~= by_name(rows).insert(r.protocol@, r@));
}

proof fn lemma_inserted(rows: Seq<ProtocolCounts>, i: int, r: ProtocolCounts)
    requires
        sorted(rows),
        0 <= i <= rows.len(),
        forall|j: int|
            0 <= j < i ==> name_before((#[trigger] rows[j]).protocol@, r.protocol@),
        forall|j: int|
            i <= j < rows.len() ==> name_before(r.protocol@, (#[trigger] rows[j]).protocol@),
    ensures
        sorted(rows.insert(i, r)),
        by_name(rows.insert(i, r)) == by_name(rows).insert(r.protocol@, r@),
        !by_name(rows).contains_key(r.protocol@),
{
    let t = rows.insert(i, r);
    assert forall|a: int| 0 <= a < t.len() implies #[trigger] t[a] == if a < i {
        rows[a]
    } else if a == i {
        r
    } else {
        rows[a - 1]
    } by {}
    assert(sorted(t)) by {
        assert forall|a: int, b: int| 0 <= a < b < t.len() implies name_before(
            (#[trigger] t[a]).protocol@,
            (#[trigger] t[b]).protocol@,
        ) by {
            let a0 = if a < i {
                a
            } else {
                a - 1
            };
            let b0 = if b < i {
                b
            } else {
                b - 1
            };
            if a != i && b != i {
                assert(name_before(rows[a0].protocol@, rows[b0].protocol@));
            }
        }
    }
    by_name_at(t, i);
    assert forall|p: Seq<char>| #[trigger] by_name(t).contains_key(p) <==> by_name(rows).insert(
        r.protocol@,
        r@,
    ).contains_key(p) by {
        if by_name(t).contains_key(p) && p != r.protocol@ {
            let a = choose|a: int| 0 <= a < t.len() && (#[trigger] t[a]).protocol@ == p;
            let a0 = if a < i {
                a
            } else {
                a - 1
            };
            assert(rows[a0].protocol@ == p);
            by_name_at(rows, a0);
        }
        if by_name(rows).contains_key(p) {
            let a = choose|a: int| 0 <= a < rows.len() && (#[trigger] rows[a]).protocol@ == p;
            let a1 = if a < i {
                a
            } else {
                a + 1
            };
            assert(t[a1] == rows[a]);
            by_name_at(t, a1);
        }
    }
    assert forall|p: Seq<char>| by_name(rows).contains_key(p) && p != r.protocol@ implies #[trigger]
    by_name(t)[p] == by_name(rows)[p] by {
        let a = choose|a: int| 0 <= a < rows.len() && (#[trigger] rows[a]).protocol@ == p;
        let a1 = if a < i {
            a
        } else {
            a + 1
        };
        assert(t[a1] == rows[a]);
        by_name_at(rows, a);
        by_name_at(t, a1);
    }
    assert(!by_name(rows).contains_key(r.protocol@)) by {
        if by_name(rows).contains_key(r.protocol@) {
            let a = choose|a: int|
                0 <= a < rows.len() && (#[trigger] rows[a]).protocol@ == r.protocol@;
            assert(rows[a].protocol@ == r.protocol@);
        }
    }
    assert(by_name(t) =~= by_name(rows).insert(r.protocol@, r@));
}

pub struct Tallies {
    rows: Vec<ProtocolCounts>,
}

impl View for Tallies {
    type V = Map<Seq<char>, Counts>;

    closed spec fn view(&self) -> Map<Seq<char>, Counts> {
        by_name(self.rows@)
    }
}

/// A protocol's counts; nothing of a protocol that is not listed.
pub open spec fn counts_of(m: Map<Seq<char>, Counts>, p: Seq<char>) -> Counts {
    if m.contains_key(p) {
        m[p]
    } else {
        Counts { ever: 0, live: 0, bytes: 0 }
    }
}

impl Tallies {
    pub closed spec fn wf(&self) -> bool {
        sorted(self.rows@)
    }

    pub fn new() -> (r: Tallies)
        ensures
            r.wf(),
            r@ == Map::<Seq<char>, Counts>::empty(),
    {
        let r = Tallies { rows: Vec::new() };
        assert(r@ =~= Map::empty());
        r
    }

    /// The first row whose name is not before a given one.
    fn position(&self, protocol: &str) -> (r: usize)
        requires
            self.wf(),
        ensures
            r <= self.rows@.len(),
            forall|j: int|
                0 <= j < r ==> name_before((#[trigger] self.rows@[j]).protocol@, protocol@),
            r < self.rows@.len() ==> self.rows@[r as int].protocol@ == protocol@ || name_before(
                protocol@,
                self.rows@[r as int].protocol@,
            ),
    {
        let n: usize = self.rows.len();
        let mut i: usize = 0;
        while i < n
            invariant
                n == self.rows@.len(),
                i <= n,
                forall|j: int|
                    0 <= j < i ==> name_before((#[trigger] self.rows@[j]).protocol@, protocol@),
            decreases n - i,
        {
            let name = self.rows[i].protocol;
            if str_eq(name, protocol) {
                return i;
            }
            if !key::at_most(name.as_bytes(), protocol.as_bytes()) {
                proof {
                    key::lex_le_is_a_total_order(
                        vstd::utf8::encode_utf8(name@),
                        vstd::utf8::encode_utf8(protocol@),
                    );
                }
                return i;
            }
            i = i + 1;
        }
        n
    }

    proof fn lemma_after(&self, i: int, protocol: Seq<char>)
        requires
            self.wf(),
            0 <= i < self.rows@.len(),
            name_before(protocol, self.rows@[i].protocol@),
        ensures
            forall|j: int|
                i <= j < self.rows@.len() ==> name_before(
                    protocol,
                    (#[trigger] self.rows@[j]).protocol@,
                ),
    {
        assert forall|j: int| i <= j < self.rows@.len() implies name_before(
            protocol,
            (#[trigger] self.rows@[j]).protocol@,
        ) by {
            if j > i {
                let a = vstd::utf8::encode_utf8(protocol);
                let b = vstd::utf8::encode_utf8(self.rows@[i].protocol@);
                let c = vstd::utf8::encode_utf8(self.rows@[j].protocol@);
                assert(name_before(self.rows@[i].protocol@, self.rows@[j].protocol@));
                key::lex_le_is_transitive(a, b, c);
                if protocol == self.rows@[j].protocol@ {
                    key::lex_le_is_a_total_order(a, b);
                    vstd::utf8::encode_utf8_decode_utf8(protocol);
                    vstd::utf8::encode_utf8_decode_utf8(self.rows@[i].protocol@);
                }
            }
        }
    }

    /// A protocol's counts.
    pub fn get(&self, protocol: ProtocolName) -> (r: ProtocolCounts)
        requires
            self.wf(),
        ensures
            r.protocol == protocol,
            r@ == counts_of(self@, protocol@),
    {
        let i: usize = self.position(protocol);
        if i < self.rows.len() && str_eq(self.rows[i].protocol, protocol) {
            proof {
                by_name_at(self.rows@, i as int);
            }
            let row = self.rows[i];
            return ProtocolCounts { protocol, ever: row.ever, live: row.live, bytes: row.bytes };
        }
        proof {
            let r = ProtocolCounts { protocol, ever: 0, live: 0, bytes: 0 };
            if i < self.rows@.len() {
                self.lemma_after(i as int, protocol@);
            }
            lemma_inserted(self.rows@, i as int, r);
        }
        ProtocolCounts { protocol, ever: 0, live: 0, bytes: 0 }
    }

    /// Puts a protocol's counts in place of those that were there.
    pub fn set(&mut self, row: ProtocolCounts)
        requires
            old(self).wf(),
        ensures
            final(self).wf(),
            final(self)@ == old(self)@.insert(row.protocol@, row@),
    {
        let i: usize = self.position(row.protocol);
        let ghost rows = self.rows@;
        if i < self.rows.len() && str_eq(self.rows[i].protocol, row.protocol) {
            proof {
                lemma_updated(rows, i as int, row);
            }
            self.rows.set(i, row);
        } else {
            proof {
                if i < rows.len() {
                    self.lemma_after(i as int, row.protocol@);
                }
                lemma_inserted(rows, i as int, row);
            }
            self.rows.insert(i, row);
        }
    }

    /// Every protocol's counts, sorted by name.
    pub fn rows(&self) -> (r: Vec<ProtocolCounts>)
        requires
            self.wf(),
        ensures
            sorted(r@),
            by_name(r@) == self@,
    {
        let n: usize = self.rows.len();
        let mut out: Vec<ProtocolCounts> = Vec::new();
        let mut i: usize = 0;
        while i < n
            invariant
                n == self.rows@.len(),
                i <= n,
                out@ == self.rows@.take(i as int),
            decreases n - i,
        {
            out.push(self.rows[i]);
            i = i + 1;
            assert(out@ =~= self.rows@.take(i as int));
        }
        assert(self.rows@.take(n as int) =~= self.rows@);
        out
    }
}

} // verus!

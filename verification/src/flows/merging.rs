//! The merged view: every node is in exactly one row, no two rows are of one key,
//! and the rows carry what the nodes carry.
use vstd::prelude::*;

use crate::flows::state::{self, Merged};
use crate::flows::stream::{StreamId, StreamView};

verus! {

/// The sum of `f` over the first `n` places.
pub open spec fn sum(f: spec_fn(int) -> int, n: int) -> int
    decreases n,
{
    if n <= 0 {
        0
    } else {
        sum(f, n - 1) + f(n - 1)
    }
}

/// What the first `n` streams carry in direction `d`, in packets.
pub open spec fn packets_of_streams(list: Seq<StreamView>, n: int, d: int) -> int {
    sum(|i: int| list[i].stats[d].packets as int, n)
}

/// What the first `n` streams carry in direction `d`, in bytes.
pub open spec fn bytes_of_streams(list: Seq<StreamView>, n: int, d: int) -> int {
    sum(|i: int| list[i].stats[d].bytes as int, n)
}

/// What the rows carry in direction `d`, in packets.
pub open spec fn packets_of_rows(rows: Seq<Merged>, d: int) -> int {
    sum(|i: int| rows[i].stats[d].packets as int, rows.len() as int)
}

/// What the rows carry in direction `d`, in bytes.
pub open spec fn bytes_of_rows(rows: Seq<Merged>, d: int) -> int {
    sum(|i: int| rows[i].stats[d].bytes as int, rows.len() as int)
}

/// Whether all that the first `n` streams carry can be told in one counter.
pub open spec fn countable(list: Seq<StreamView>, n: int) -> bool {
    forall|d: int|
        0 <= d < 2 ==> #[trigger] packets_of_streams(list, n, d) <= u64::MAX && bytes_of_streams(
            list,
            n,
            d,
        ) <= u64::MAX
}

proof fn lemma_same_sum(f: spec_fn(int) -> int, g: spec_fn(int) -> int, n: int)
    requires
        forall|i: int| 0 <= i < n ==> #[trigger] f(i) == g(i),
    ensures
        sum(f, n) == sum(g, n),
    decreases n,
{
    if n > 0 {
        lemma_same_sum(f, g, n - 1);
        assert(f(n - 1) == g(n - 1));
    }
}

proof fn lemma_sum_with(f: spec_fn(int) -> int, g: spec_fn(int) -> int, k: int, more: int, n: int)
    requires
        0 <= k < n,
        forall|i: int| 0 <= i < n && i != k ==> #[trigger] f(i) == g(i),
        g(k) == f(k) + more,
    ensures
        sum(g, n) == sum(f, n) + more,
    decreases n,
{
    if k == n - 1 {
        lemma_same_sum(f, g, n - 1);
    } else {
        lemma_sum_with(f, g, k, more, n - 1);
        assert(f(n - 1) == g(n - 1));
    }
}

proof fn lemma_part_of_sum(f: spec_fn(int) -> int, k: int, n: int)
    requires
        0 <= k < n,
        forall|i: int| 0 <= i < n ==> 0 <= #[trigger] f(i),
    ensures
        0 <= sum(f, n - 1),
        f(k) <= sum(f, n),
    decreases n,
{
    if n > 1 {
        lemma_part_of_sum(f, 0, n - 1);
    }
    assert(0 <= f(n - 1));
    if k < n - 1 {
        lemma_part_of_sum(f, k, n - 1);
    } else {
        assert(sum(f, n) == sum(f, n - 1) + f(k));
    }
}

proof fn lemma_row_of(rows: Seq<Merged>, key: Seq<u8>, i: int)
    requires
        0 <= i,
    ensures
        match state::row_of(rows, key, i) {
            Some(r) => i <= r < rows.len() && rows[r].key == key,
            None => forall|r: int| i <= r < rows.len() ==> (#[trigger] rows[r]).key != key,
        },
    decreases rows.len() - i,
{
    if i < rows.len() && rows[i].key != key {
        lemma_row_of(rows, key, i + 1);
    }
}

/// Whether no two rows are of one key.
pub open spec fn one_row_each(rows: Seq<Merged>) -> bool {
    forall|i: int, j: int|
        0 <= i < j < rows.len() ==> (#[trigger] rows[i]).key != (#[trigger] rows[j]).key
}

/// Whether `row` stands for `st`, among others.
pub open spec fn stands_for(row: Merged, st: StreamView) -> bool {
    &&& row.key == st.key
    &&& row.nodes.contains(st.id)
    &&& row.first_seen <= st.first_seen
    &&& row.last_seen >= st.last_seen
}

/// Whether some row stands for `st`.
pub open spec fn is_shown(rows: Seq<Merged>, st: StreamView) -> bool {
    exists|r: int| 0 <= r < rows.len() && stands_for(#[trigger] rows[r], st)
}

/// Whether `id` is that of one of the first `n` streams, of key `key`.
pub open spec fn is_one_of(list: Seq<StreamView>, n: int, id: StreamId, key: Seq<u8>) -> bool {
    exists|i: int| 0 <= i < n && (#[trigger] list[i]).id == id && list[i].key == key
}

proof fn lemma_counts(list: Seq<StreamView>, n: int, d: int)
    requires
        0 < n <= list.len(),
        0 <= d < 2,
        countable(list, n),
        packets_of_rows(state::merged(list, n - 1), d) == packets_of_streams(list, n - 1, d),
        bytes_of_rows(state::merged(list, n - 1), d) == bytes_of_streams(list, n - 1, d),
    ensures
        packets_of_rows(state::merged(list, n), d) == packets_of_streams(list, n, d),
        bytes_of_rows(state::merged(list, n), d) == bytes_of_streams(list, n, d),
{
    let rows = state::merged(list, n - 1);
    let next = state::merged(list, n);
    let st = list[n - 1];
    let fp = |i: int| rows[i].stats[d].packets as int;
    let fb = |i: int| rows[i].stats[d].bytes as int;
    let gp = |i: int| next[i].stats[d].packets as int;
    let gb = |i: int| next[i].stats[d].bytes as int;
    let len = rows.len() as int;
    assert(packets_of_streams(list, n, d) <= u64::MAX);
    lemma_row_of(rows, st.key, 0);
    match state::row_of(rows, st.key, 0) {
        Some(r) => {
            lemma_part_of_sum(fp, r, len);
            lemma_part_of_sum(fb, r, len);
            assert(fp(r) + st.stats[d].packets <= u64::MAX);
            assert(fb(r) + st.stats[d].bytes <= u64::MAX);
            assert(next[r] == state::joined(rows[r], st));
            assert(next[r].stats[d] == state::stats_sum(rows[r].stats[d], st.stats[d]));
            lemma_sum_with(fp, gp, r, st.stats[d].packets as int, len);
            lemma_sum_with(fb, gb, r, st.stats[d].bytes as int, len);
        },
        None => {
            lemma_same_sum(fp, gp, len);
            lemma_same_sum(fb, gb, len);
            assert(next[len] == state::alone(st));
        },
    }
}

proof fn lemma_countable_before(list: Seq<StreamView>, n: int)
    requires
        0 < n <= list.len(),
        countable(list, n),
    ensures
        countable(list, n - 1),
{
    assert forall|d: int| 0 <= d < 2 implies #[trigger] packets_of_streams(list, n - 1, d)
        <= u64::MAX && bytes_of_streams(list, n - 1, d) <= u64::MAX by {
        assert(packets_of_streams(list, n, d) <= u64::MAX);
    }
}

/// Rows carry, in each direction, exactly what the streams behind them carry.
pub proof fn rows_add_up(list: Seq<StreamView>, n: int, d: int)
    requires
        0 <= n <= list.len(),
        0 <= d < 2,
        countable(list, n),
    ensures
        packets_of_rows(state::merged(list, n), d) == packets_of_streams(list, n, d),
        bytes_of_rows(state::merged(list, n), d) == bytes_of_streams(list, n, d),
    decreases n,
{
    if n > 0 {
        lemma_countable_before(list, n);
        rows_add_up(list, n - 1, d);
        lemma_counts(list, n, d);
    }
}

/// Every stream is shown, in the one row of its key, and a row shows nothing else.
pub proof fn every_stream_has_its_row(list: Seq<StreamView>, n: int)
    requires
        0 <= n <= list.len(),
    ensures
        one_row_each(state::merged(list, n)),
        forall|i: int| 0 <= i < n ==> is_shown(state::merged(list, n), #[trigger] list[i]),
        forall|r: int, k: int|
            0 <= r < state::merged(list, n).len() && 0 <= k < state::merged(list, n)[r].nodes.len()
                ==> is_one_of(
                list,
                n,
                #[trigger] state::merged(list, n)[r].nodes[k],
                state::merged(list, n)[r].key,
            ),
    decreases n,
{
    let next = state::merged(list, n);
    if n > 0 {
        every_stream_has_its_row(list, n - 1);
        let rows = state::merged(list, n - 1);
        let st = list[n - 1];
        lemma_row_of(rows, st.key, 0);
        let at = match state::row_of(rows, st.key, 0) {
            Some(r) => r,
            None => rows.len() as int,
        };
        assert(next[at].nodes.last() == st.id);
        assert(next[at].nodes.contains(st.id));
        assert(stands_for(next[at], st));
        assert forall|i: int| 0 <= i < n implies is_shown(next, #[trigger] list[i]) by {
            if i < n - 1 {
                assert(is_shown(rows, list[i]));
                let r = choose|r: int| 0 <= r < rows.len() && stands_for(#[trigger] rows[r], list[i]);
                let k = choose|k: int| 0 <= k < rows[r].nodes.len() && rows[r].nodes[k] == list[i].id;
                assert(next[r].nodes[k] == list[i].id);
                assert(stands_for(next[r], list[i]));
            }
        }
        assert forall|r: int, k: int|
            0 <= r < next.len() && 0 <= k < next[r].nodes.len() implies is_one_of(
            list,
            n,
            #[trigger] next[r].nodes[k],
            next[r].key,
        ) by {
            if r == at && k == next[r].nodes.len() - 1 {
                assert(list[n - 1].id == next[r].nodes[k]);
            } else {
                assert(next[r].nodes[k] == rows[r].nodes[k]);
                assert(is_one_of(list, n - 1, rows[r].nodes[k], rows[r].key));
            }
        }
    }
}

/// Those of the first `n` streams that have a key, in their order.
pub open spec fn of_key(list: Seq<StreamView>, n: int, key: Seq<u8>) -> Seq<StreamView>
    decreases n,
{
    if n <= 0 {
        Seq::empty()
    } else if list[n - 1].key == key {
        of_key(list, n - 1, key).push(list[n - 1])
    } else {
        of_key(list, n - 1, key)
    }
}

/// Whether a row tells of exactly these streams: it leads back to each of them, in
/// their order; it is labelled like the first; it began with the earliest and ended
/// with the latest; and in each direction it carries what they carry together.
pub open spec fn tells_of(row: Merged, streams: Seq<StreamView>) -> bool {
    &&& streams.len() > 0
    &&& row.nodes == Seq::new(streams.len(), |i: int| streams[i].id)
    &&& row.protocol == streams[0].protocol
    &&& row.key_fields == streams[0].key_fields
    &&& forall|i: int|
        0 <= i < streams.len() ==> (#[trigger] streams[i]).key == row.key && row.first_seen
            <= streams[i].first_seen && streams[i].last_seen <= row.last_seen
    &&& exists|i: int| 0 <= i < streams.len() && (#[trigger] streams[i]).first_seen
        == row.first_seen
    &&& exists|i: int| 0 <= i < streams.len() && (#[trigger] streams[i]).last_seen == row.last_seen
    &&& row.stats.len() == 2
    &&& forall|d: int|
        #![trigger row.stats[d]]
        0 <= d < 2 ==> row.stats[d].packets == packets_of_streams(
            streams,
            streams.len() as int,
            d,
        ) && row.stats[d].bytes == bytes_of_streams(streams, streams.len() as int, d)
}

proof fn lemma_of_key(list: Seq<StreamView>, n: int, key: Seq<u8>)
    requires
        0 <= n <= list.len(),
    ensures
        forall|i: int| 0 <= i < of_key(list, n, key).len() ==> (#[trigger] of_key(list, n, key)[i]).key
            == key,
        of_key(list, n, key).len() == 0 ==> forall|i: int|
            0 <= i < n ==> (#[trigger] list[i]).key != key,
    decreases n,
{
    if n > 0 {
        lemma_of_key(list, n - 1, key);
    }
}

proof fn lemma_part_carried(list: Seq<StreamView>, n: int, key: Seq<u8>, d: int)
    requires
        0 <= n <= list.len(),
        0 <= d < 2,
    ensures
        ({
            let mine = of_key(list, n, key);
            &&& 0 <= packets_of_streams(mine, mine.len() as int, d) <= packets_of_streams(list, n, d)
            &&& 0 <= bytes_of_streams(mine, mine.len() as int, d) <= bytes_of_streams(list, n, d)
        }),
    decreases n,
{
    if n > 0 {
        lemma_part_carried(list, n - 1, key, d);
        let before = of_key(list, n - 1, key);
        if list[n - 1].key == key {
            lemma_pushed(before, list[n - 1], d);
        }
    }
}

/// What one stream more carries is added.
proof fn lemma_pushed(mine: Seq<StreamView>, st: StreamView, d: int)
    ensures
        packets_of_streams(mine.push(st), mine.len() as int + 1, d) == packets_of_streams(
            mine,
            mine.len() as int,
            d,
        ) + st.stats[d].packets,
        bytes_of_streams(mine.push(st), mine.len() as int + 1, d) == bytes_of_streams(
            mine,
            mine.len() as int,
            d,
        ) + st.stats[d].bytes,
{
    let next = mine.push(st);
    let n = mine.len() as int;
    lemma_same_sum(
        |i: int| mine[i].stats[d].packets as int,
        |i: int| next[i].stats[d].packets as int,
        n,
    );
    lemma_same_sum(
        |i: int| mine[i].stats[d].bytes as int,
        |i: int| next[i].stats[d].bytes as int,
        n,
    );
}

/// A row joined by one stream more tells of it too.
proof fn lemma_joined(row: Merged, mine: Seq<StreamView>, st: StreamView)
    requires
        tells_of(row, mine),
        st.key == row.key,
        st.stats.len() == 2,
        forall|d: int|
            #![trigger st.stats[d]]
            0 <= d < 2 ==> row.stats[d].packets + st.stats[d].packets <= u64::MAX
                && row.stats[d].bytes + st.stats[d].bytes <= u64::MAX,
    ensures
        tells_of(state::joined(row, st), mine.push(st)),
{
    let next = mine.push(st);
    let r = state::joined(row, st);
    let n = mine.len() as int;
    assert(r.nodes =~= Seq::new(next.len(), |i: int| next[i].id));
    assert(next[0] == mine[0]);
    assert(next[n] == st);
    assert forall|i: int| 0 <= i < next.len() implies (#[trigger] next[i]).key == r.key
        && r.first_seen <= next[i].first_seen && next[i].last_seen <= r.last_seen by {
        if i < n {
            assert(next[i] == mine[i]);
        }
    }
    let a = choose|i: int| 0 <= i < mine.len() && (#[trigger] mine[i]).first_seen == row.first_seen;
    let b = choose|i: int| 0 <= i < mine.len() && (#[trigger] mine[i]).last_seen == row.last_seen;
    assert(next[a] == mine[a] && next[b] == mine[b]);
    lemma_pushed(mine, st, 0);
    lemma_pushed(mine, st, 1);
    assert(st.stats[0].packets >= 0 && st.stats[1].packets >= 0);
    assert(row.stats[0].packets >= 0 && row.stats[1].packets >= 0);
}

/// A row of one stream tells of it.
proof fn lemma_alone(st: StreamView)
    requires
        st.stats.len() == 2,
    ensures
        tells_of(state::alone(st), seq![st]),
{
    let one = seq![st];
    let none = Seq::<StreamView>::empty();
    assert(one =~= none.push(st));
    lemma_pushed(none, st, 0);
    lemma_pushed(none, st, 1);
    assert(state::alone(st).nodes =~= Seq::new(one.len(), |i: int| one[i].id));
    assert(one[0] == st);
}

/// Every row of the merged view tells of exactly the streams of its key: it is
/// labelled with the protocol and the endpoints of the first, leads back to each of
/// them in the order of their creation, and carries what they carry.
pub proof fn rows_tell_of_their_streams(list: Seq<StreamView>, n: int, r: int)
    requires
        0 <= n <= list.len(),
        countable(list, n),
        forall|i: int| 0 <= i < n ==> (#[trigger] list[i]).stats.len() == 2,
        0 <= r < state::merged(list, n).len(),
    ensures
        tells_of(state::merged(list, n)[r], of_key(list, n, state::merged(list, n)[r].key)),
    decreases n,
{
    if n > 0 {
        let rows = state::merged(list, n - 1);
        let next = state::merged(list, n);
        let st = list[n - 1];
        lemma_countable_before(list, n);
        lemma_row_of(rows, st.key, 0);
        every_stream_has_its_row(list, n - 1);
        if r < rows.len() {
            rows_tell_of_their_streams(list, n - 1, r);
        }
        match state::row_of(rows, st.key, 0) {
            Some(k) => {
                if r == k {
                    let mine = of_key(list, n - 1, st.key);
                    lemma_pushed(mine, st, 0);
                    lemma_pushed(mine, st, 1);
                    lemma_part_carried(list, n, st.key, 0);
                    lemma_part_carried(list, n, st.key, 1);
                    assert(packets_of_streams(list, n, 0) <= u64::MAX);
                    assert(packets_of_streams(list, n, 1) <= u64::MAX);
                    assert(rows[r].stats[0].packets >= 0 && rows[r].stats[1].packets >= 0);
                    lemma_joined(rows[r], mine, st);
                } else {
                    assert(next[r] == rows[r]);
                    if r < k {
                        assert(rows[r].key != rows[k].key);
                    } else {
                        assert(rows[k].key != rows[r].key);
                    }
                }
            },
            None => {
                if r == rows.len() {
                    lemma_of_key(list, n - 1, st.key);
                    assert(of_key(list, n - 1, st.key).len() == 0) by {
                        if of_key(list, n - 1, st.key).len() > 0 {
                            lemma_some_of_key(list, n - 1, st.key);
                            let i = choose|i: int| 0 <= i < n - 1 && (#[trigger] list[i]).key
                                == st.key;
                            assert(is_shown(rows, list[i]));
                        }
                    }
                    lemma_alone(st);
                    assert(of_key(list, n, st.key) =~= seq![st]);
                } else {
                    assert(next[r] == rows[r]);
                }
            },
        }
    }
}

proof fn lemma_some_of_key(list: Seq<StreamView>, n: int, key: Seq<u8>)
    requires
        0 <= n <= list.len(),
        of_key(list, n, key).len() > 0,
    ensures
        exists|i: int| 0 <= i < n && (#[trigger] list[i]).key == key,
    decreases n,
{
    if n > 0 && list[n - 1].key != key {
        lemma_some_of_key(list, n - 1, key);
    }
}

/// In the merged view of a state, a row has the protocol and the key fields of the
/// stream that its first back-reference leads to.
pub proof fn rows_are_labelled_like_their_first_stream(
    s: state::State,
    protocol: Seq<char>,
    list: Seq<StreamView>,
    r: int,
)
    requires
        state::by_age(s, Some(protocol), list),
        countable(list, list.len() as int),
        forall|i: int| 0 <= i < list.len() ==> (#[trigger] list[i]).stats.len() == 2,
        0 <= r < state::merged(list, list.len() as int).len(),
    ensures
        ({
            let row = state::merged(list, list.len() as int)[r];
            let first = s.get(row.nodes[0]);
            &&& row.nodes.len() > 0
            &&& first is Some
            &&& row.key == first->0.key
            &&& row.key_fields == first->0.key_fields
            &&& row.protocol == first->0.protocol
            &&& row.protocol == protocol
        }),
{
    let n = list.len() as int;
    let row = state::merged(list, n)[r];
    rows_tell_of_their_streams(list, n, r);
    lemma_members(list, n, row.key, 0);
}

proof fn lemma_members(list: Seq<StreamView>, n: int, key: Seq<u8>, k: int)
    requires
        0 <= n <= list.len(),
        0 <= k < of_key(list, n, key).len(),
    ensures
        exists|i: int| 0 <= i < n && #[trigger] list[i] == of_key(list, n, key)[k],
    decreases n,
{
    if n > 0 {
        if list[n - 1].key == key && k == of_key(list, n, key).len() - 1 {
            assert(list[n - 1] == of_key(list, n, key)[k]);
        } else {
            lemma_members(list, n - 1, key, k);
            let i = choose|i: int| 0 <= i < n - 1 && #[trigger] list[i] == of_key(list, n - 1, key)[k];
            assert(list[i] == of_key(list, n, key)[k]);
        }
    }
}

/// Rows stand in the order in which their first streams were created.
pub proof fn rows_come_by_age(list: Seq<StreamView>, n: int, q: int, r: int)
    requires
        0 <= n <= list.len(),
        0 <= q < r < state::merged(list, n).len(),
    ensures
        exists|i: int, j: int|
            0 <= i < j < n && #[trigger] list[i].id == state::merged(list, n)[q].nodes[0]
                && #[trigger] list[j].id == state::merged(list, n)[r].nodes[0] && list[i].key
                == state::merged(list, n)[q].key && list[j].key == state::merged(list, n)[r].key,
    decreases n,
{
    if n > 0 {
        let rows = state::merged(list, n - 1);
        let next = state::merged(list, n);
        let st = list[n - 1];
        lemma_row_of(rows, st.key, 0);
        lemma_rows_lead_back(list, n - 1);
        if r < rows.len() {
            rows_come_by_age(list, n - 1, q, r);
            let (i, j) = choose|i: int, j: int|
                0 <= i < j < n - 1 && #[trigger] list[i].id == rows[q].nodes[0]
                    && #[trigger] list[j].id == rows[r].nodes[0] && list[i].key == rows[q].key
                    && list[j].key == rows[r].key;
            assert(next[q].nodes[0] == rows[q].nodes[0]);
            assert(next[r].nodes[0] == rows[r].nodes[0]);
            assert(list[i].id == next[q].nodes[0] && list[j].id == next[r].nodes[0]);
        } else {
            every_stream_has_its_row(list, n - 1);
            let first = rows[q].nodes[0];
            assert(is_one_of(list, n - 1, rows[q].nodes[0], rows[q].key));
            let i = choose|i: int|
                0 <= i < n - 1 && (#[trigger] list[i]).id == first && list[i].key == rows[q].key;
            assert(list[i].id == next[q].nodes[0] && list[n - 1].id == next[r].nodes[0]);
        }
    }
}

proof fn lemma_rows_lead_back(list: Seq<StreamView>, n: int)
    requires
        0 <= n <= list.len(),
    ensures
        forall|r: int|
            0 <= r < state::merged(list, n).len() ==> (#[trigger] state::merged(
                list,
                n,
            )[r]).nodes.len() > 0,
    decreases n,
{
    if n > 0 {
        lemma_rows_lead_back(list, n - 1);
        lemma_row_of(state::merged(list, n - 1), list[n - 1].key, 0);
    }
}

} // verus!

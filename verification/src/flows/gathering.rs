//! What the register of unknown payloads holds after any number of occurrences.
use vstd::prelude::*;

use crate::flows::key;
use crate::flows::rollup::ACCUMULATE_SET_CAP;
use crate::flows::unknown::{
    self, Endpoint, Group, Occurrence, Register, Shape, UnknownRegistryConfig,
};
use crate::layer::RouteView;
use crate::value::ProtocolName;

verus! {

/// The register after the first `n` occurrences.
pub open spec fn gathered(os: Seq<Occurrence>, n: int, config: UnknownRegistryConfig) -> Register
    decreases n,
{
    if n <= 0 {
        unknown::empty_register()
    } else {
        unknown::ingested(gathered(os, n - 1, config), os[n - 1], config)
    }
}

/// Whether each of the first `n` occurrences can be counted when it comes.
pub open spec fn countable(os: Seq<Occurrence>, n: int, config: UnknownRegistryConfig) -> bool {
    forall|m: int|
        0 <= m < n ==> unknown::has_room(gathered(os, m, config), (#[trigger] os[m]).bytes)
}

/// The shapes of the first `n` occurrences.
pub open spec fn shapes(os: Seq<Occurrence>, n: int) -> Set<Shape>
    decreases n,
{
    if n <= 0 {
        Set::empty()
    } else {
        shapes(os, n - 1).insert(unknown::shape_of(os[n - 1].diagnostics.context))
    }
}

/// Those of the first `n` occurrences that have a shape, in the order they came.
pub open spec fn history(os: Seq<Occurrence>, n: int, k: Shape) -> Seq<Occurrence>
    decreases n,
{
    if n <= 0 {
        Seq::empty()
    } else if unknown::shape_of(os[n - 1].diagnostics.context) == k {
        history(os, n - 1, k).push(os[n - 1])
    } else {
        history(os, n - 1, k)
    }
}

/// The bytes of some occurrences together.
pub open spec fn bytes_of(h: Seq<Occurrence>) -> int
    decreases h.len(),
{
    if h.len() == 0 {
        0
    } else {
        bytes_of(h.drop_last()) + h.last().bytes
    }
}

/// The distinct streams of some occurrences, in the order they came.
pub open spec fn streams_of(h: Seq<Occurrence>) -> Seq<Endpoint>
    decreases h.len(),
{
    if h.len() == 0 {
        Seq::empty()
    } else {
        let seen = streams_of(h.drop_last());
        match h.last().endpoint {
            Some(e) => if seen.contains(e) {
                seen
            } else {
                seen.push(e)
            },
            None => seen,
        }
    }
}

/// The first streams, as many as a group keeps.
pub open spec fn first_streams(h: Seq<Occurrence>) -> Seq<Endpoint> {
    if streams_of(h).len() <= ACCUMULATE_SET_CAP {
        streams_of(h)
    } else {
        streams_of(h).take(ACCUMULATE_SET_CAP as int)
    }
}

/// The number of samples that a group keeps of `n`: as many as the limit says, and
/// never none.
pub open spec fn kept(n: int, samples_per_group: usize) -> int {
    let limit = if samples_per_group == 0 {
        1int
    } else {
        samples_per_group as int
    };
    if n < limit {
        n
    } else {
        limit
    }
}

/// The latest samples, oldest first.
pub open spec fn last_samples(h: Seq<Occurrence>, samples_per_group: usize) -> Seq<Seq<u8>> {
    let m = kept(h.len() as int, samples_per_group);
    Seq::new(m as nat, |i: int| h[h.len() - m + i].diagnostics.sample)
}

/// Whether the ranking of occurrence `i` is the best of all and, of equally good
/// ones, the latest.
pub open spec fn is_best(h: Seq<Occurrence>, i: int) -> bool {
    &&& 0 <= i < h.len()
    &&& h[i].diagnostics.near_misses.len() > 0
    &&& forall|j: int|
        0 <= j < i ==> unknown::as_good(
            h[i].diagnostics.near_misses,
            (#[trigger] h[j]).diagnostics.near_misses,
        )
    &&& forall|j: int|
        i < j < h.len() ==> !unknown::as_good(
            (#[trigger] h[j]).diagnostics.near_misses,
            h[i].diagnostics.near_misses,
        )
}

/// Whether `best` is the best ranking of some occurrences, or empty where none of
/// them has any.
pub open spec fn is_best_ranking(h: Seq<Occurrence>, best: Seq<(ProtocolName, u8)>) -> bool {
    if best.len() == 0 {
        forall|i: int| 0 <= i < h.len() ==> (#[trigger] h[i]).diagnostics.near_misses.len() == 0
    } else {
        exists|i: int| #[trigger] is_best(h, i) && h[i].diagnostics.near_misses == best
    }
}

/// Whether a group tells of exactly these occurrences: their number and bytes, the
/// smallest and the largest, the first and the last time, the first distinct
/// streams and whether there were more, the best ranking, and the latest samples.
pub open spec fn tells_of(g: Group, h: Seq<Occurrence>, samples_per_group: usize) -> bool {
    &&& g.count == h.len()
    &&& g.bytes_total == bytes_of(h)
    &&& forall|i: int|
        0 <= i < h.len() ==> {
            let o = #[trigger] h[i];
            g.bytes_min <= o.bytes <= g.bytes_max && g.first_seen <= o.ts <= g.last_seen
        }
    &&& exists|i: int| 0 <= i < h.len() && (#[trigger] h[i]).bytes == g.bytes_min
    &&& exists|i: int| 0 <= i < h.len() && (#[trigger] h[i]).bytes == g.bytes_max
    &&& exists|i: int| 0 <= i < h.len() && (#[trigger] h[i]).ts == g.first_seen
    &&& exists|i: int| 0 <= i < h.len() && (#[trigger] h[i]).ts == g.last_seen
    &&& g.endpoints == first_streams(h)
    &&& g.endpoints_overflow == (streams_of(h).len() > ACCUMULATE_SET_CAP)
    &&& is_best_ranking(h, g.near_misses)
    &&& g.samples == last_samples(h, samples_per_group)
}

/// What is stated of an extreme over occurrences survives one more.
proof fn lemma_extremes(g: Group, h: Seq<Occurrence>, o: Occurrence, limit: usize)
    requires
        h.len() > 0 ==> tells_of(g, h, limit),
        h.len() == 0 ==> g == unknown::new_group(g.key, o.ts, g.seq),
    ensures
        ({
            let t = unknown::recorded(g, o, limit);
            let u = h.push(o);
            &&& forall|i: int|
                0 <= i < u.len() ==> {
                    let o = #[trigger] u[i];
                    t.bytes_min <= o.bytes <= t.bytes_max && t.first_seen <= o.ts <= t.last_seen
                }
            &&& exists|i: int| 0 <= i < u.len() && (#[trigger] u[i]).bytes == t.bytes_min
            &&& exists|i: int| 0 <= i < u.len() && (#[trigger] u[i]).bytes == t.bytes_max
            &&& exists|i: int| 0 <= i < u.len() && (#[trigger] u[i]).ts == t.first_seen
            &&& exists|i: int| 0 <= i < u.len() && (#[trigger] u[i]).ts == t.last_seen
        }),
{
    let t = unknown::recorded(g, o, limit);
    let u = h.push(o);
    let n = h.len() as int;
    assert(u[n] == o);
    assert forall|i: int| 0 <= i < u.len() implies {
        let o = #[trigger] u[i];
        t.bytes_min <= o.bytes <= t.bytes_max && t.first_seen <= o.ts <= t.last_seen
    } by {
        if i < n {
            assert(u[i] == h[i]);
        }
    }
    if h.len() > 0 {
        let a = choose|i: int| 0 <= i < h.len() && (#[trigger] h[i]).bytes == g.bytes_min;
        let b = choose|i: int| 0 <= i < h.len() && (#[trigger] h[i]).bytes == g.bytes_max;
        let c = choose|i: int| 0 <= i < h.len() && (#[trigger] h[i]).ts == g.first_seen;
        let d = choose|i: int| 0 <= i < h.len() && (#[trigger] h[i]).ts == g.last_seen;
        assert(u[a] == h[a] && u[b] == h[b] && u[c] == h[c] && u[d] == h[d]);
    }
    assert(u[n].bytes == t.bytes_min || h.len() > 0);
}

/// The streams of a group, with one more occurrence.
proof fn lemma_streams(g: Group, h: Seq<Occurrence>, o: Occurrence, limit: usize)
    requires
        g.endpoints == first_streams(h),
        g.endpoints_overflow == (streams_of(h).len() > ACCUMULATE_SET_CAP),
    ensures
        unknown::recorded(g, o, limit).endpoints == first_streams(h.push(o)),
        unknown::recorded(g, o, limit).endpoints_overflow == (streams_of(h.push(o)).len()
            > ACCUMULATE_SET_CAP),
{
    let seen = streams_of(h);
    assert(h.push(o).drop_last() =~= h);
    let cap = ACCUMULATE_SET_CAP as int;
    if o.endpoint is Some {
        let e = o.endpoint->0;
        if seen.len() <= cap {
            if !seen.contains(e) {
                assert(seen.len() == cap ==> seen.push(e).take(cap) =~= seen);
            }
        } else {
            if seen.take(cap).contains(e) {
                let i = choose|i: int| 0 <= i < cap && seen.take(cap)[i] == e;
                assert(seen[i] == e);
            }
            if !seen.contains(e) {
                assert(seen.push(e).take(cap) =~= seen.take(cap));
            }
        }
    }
}

/// The samples of a group, with one more occurrence.
proof fn lemma_samples(g: Group, h: Seq<Occurrence>, o: Occurrence, limit: usize)
    requires
        g.samples == last_samples(h, limit),
    ensures
        unknown::recorded(g, o, limit).samples == last_samples(h.push(o), limit),
{
    let t = unknown::recorded(g, o, limit).samples;
    let u = last_samples(h.push(o), limit);
    assert(t =~= u);
}

/// The ranking of a group, with one more occurrence.
proof fn lemma_ranking(g: Group, h: Seq<Occurrence>, o: Occurrence, limit: usize)
    requires
        is_best_ranking(h, g.near_misses),
    ensures
        is_best_ranking(h.push(o), unknown::recorded(g, o, limit).near_misses),
{
    let u = h.push(o);
    let n = h.len() as int;
    let old_ranking = g.near_misses;
    let new_ranking = o.diagnostics.near_misses;
    assert(u[n] == o);
    if unknown::as_good(new_ranking, old_ranking) {
        assert(new_ranking.len() > 0);
        assert forall|j: int| 0 <= j < n implies unknown::as_good(
            new_ranking,
            (#[trigger] u[j]).diagnostics.near_misses,
        ) by {
            assert(u[j] == h[j]);
            if old_ranking.len() > 0 {
                let i = choose|i: int|
                    #[trigger] is_best(h, i) && h[i].diagnostics.near_misses == old_ranking;
                if j < i {
                    assert(unknown::as_good(old_ranking, h[j].diagnostics.near_misses));
                } else if j > i {
                    assert(!unknown::as_good(h[j].diagnostics.near_misses, old_ranking));
                }
            }
        }
        assert(is_best(u, n));
    } else if old_ranking.len() > 0 {
        let i = choose|i: int|
            #[trigger] is_best(h, i) && h[i].diagnostics.near_misses == old_ranking;
        assert(u[i] == h[i]);
        assert forall|j: int| 0 <= j < i implies unknown::as_good(
            u[i].diagnostics.near_misses,
            (#[trigger] u[j]).diagnostics.near_misses,
        ) by {
            assert(u[j] == h[j]);
        }
        assert forall|j: int| i < j < u.len() implies !unknown::as_good(
            (#[trigger] u[j]).diagnostics.near_misses,
            u[i].diagnostics.near_misses,
        ) by {
            if j < n {
                assert(u[j] == h[j]);
            }
        }
        assert(is_best(u, i));
    } else {
        assert forall|i: int| 0 <= i < u.len() implies (
        #[trigger] u[i]).diagnostics.near_misses.len() == 0 by {
            if i < n {
                assert(u[i] == h[i]);
            }
        }
    }
}

/// A group that tells of some occurrences tells of one more once it has recorded it.
pub proof fn recording_tells_of_one_more(g: Group, h: Seq<Occurrence>, o: Occurrence, limit: usize)
    requires
        h.len() > 0 ==> tells_of(g, h, limit),
        h.len() == 0 ==> g == unknown::new_group(g.key, o.ts, g.seq),
        g.count < u64::MAX,
        g.bytes_total + o.bytes <= u64::MAX,
    ensures
        tells_of(unknown::recorded(g, o, limit), h.push(o), limit),
{
    if h.len() == 0 {
        assert(last_samples(h, limit) =~= Seq::empty());
        assert(streams_of(h) =~= Seq::empty());
        assert(bytes_of(h) == 0);
    }
    assert(h.push(o).drop_last() =~= h);
    lemma_extremes(g, h, o, limit);
    lemma_streams(g, h, o, limit);
    lemma_samples(g, h, o, limit);
    lemma_ranking(g, h, o, limit);
}

proof fn lemma_shapes(os: Seq<Occurrence>, m: int, n: int)
    requires
        0 <= m <= n,
    ensures
        shapes(os, n).finite(),
        shapes(os, m).subset_of(shapes(os, n)),
        shapes(os, m).finite(),
        shapes(os, m).len() <= shapes(os, n).len(),
    decreases n,
{
    if n > 0 {
        lemma_shapes(
            os,
            if m < n {
                m
            } else {
                n - 1
            },
            n - 1,
        );
    }
    vstd::set_lib::lemma_len_subset(shapes(os, m), shapes(os, n));
}

proof fn lemma_history(os: Seq<Occurrence>, n: int, k: Shape)
    requires
        0 <= n,
    ensures
        shapes(os, n).contains(k) <==> history(os, n, k).len() > 0,
    decreases n,
{
    if n > 0 {
        lemma_history(os, n - 1, k);
    }
}

/// As long as there are no more shapes than the register may keep, it has one group
/// for each shape that occurred and no other, and a shape's group tells of exactly
/// the occurrences of that shape, whatever else occurred.
pub proof fn groups_tell_of_their_shape(
    os: Seq<Occurrence>,
    n: int,
    config: UnknownRegistryConfig,
)
    requires
        0 <= n <= os.len(),
        countable(os, n, config),
        shapes(os, n).len() <= config.max_groups,
    ensures
        unknown::sound(gathered(os, n, config)),
        gathered(os, n, config).next_seq == n,
        gathered(os, n, config).groups.dom() == shapes(os, n),
        forall|k: Shape| #[trigger]
            gathered(os, n, config).groups.contains_key(k) ==> tells_of(
                gathered(os, n, config).groups[k],
                history(os, n, k),
                config.samples_per_group,
            ),
    decreases n,
{
    if n <= 0 {
        assert(gathered(os, n, config).groups.dom() =~= shapes(os, n));
    } else {
        let m = n - 1;
        lemma_shapes(os, m, n);
        assert(countable(os, m, config));
        groups_tell_of_their_shape(os, m, config);
        let r = gathered(os, m, config);
        let o = os[m];
        let key = unknown::shape_of(o.diagnostics.context);
        let limit = config.samples_per_group;
        let before = unknown::group_before(r, key, o.ts);
        let group = unknown::recorded(before, o, limit);
        let wide = r.groups.insert(key, group);
        assert(unknown::has_room(r, os[m].bytes));
        unknown::ingesting_keeps_the_bound(r, o, config);
        assert(wide.dom() =~= shapes(os, n));
        assert(unknown::trimmed(wide, config.max_groups) == wide);
        assert(gathered(os, n, config).groups == wide);
        lemma_history(os, m, key);
        assert(tells_of(group, history(os, n, key), limit)) by {
            if r.groups.contains_key(key) {
                assert(shapes(os, m).contains(key));
                assert(r.groups[key].bytes_total + o.bytes <= u64::MAX);
            } else {
                assert(!shapes(os, m).contains(key));
            }
            recording_tells_of_one_more(before, history(os, m, key), o, limit);
        }
        assert forall|k: Shape| #[trigger] wide.contains_key(k) implies tells_of(
            wide[k],
            history(os, n, k),
            limit,
        ) by {
            if k != key {
                assert(r.groups.contains_key(k));
            }
        }
    }
}

/// Rankings are judged by their first scores: any is better than none, and of two the
/// later one is kept where it scores no less.
pub proof fn rankings_are_judged_by_their_first(
    a: Seq<(ProtocolName, u8)>,
    b: Seq<(ProtocolName, u8)>,
)
    ensures
        unknown::as_good(a, b) <==> a.len() > 0 && (b.len() == 0 || a[0].1 >= b[0].1),
{
}

/// Whether routes of one kind stand ahead of those of the other: link types, then
/// EtherTypes, IP protocols, TCP ports, UDP ports and the spaces with a name.
pub open spec fn kind_ahead(a: RouteView, b: RouteView) -> bool {
    match a {
        RouteView::LinkType(_) => !(b is LinkType),
        RouteView::EtherType(_) => b is IpProtocol || b is TcpPort || b is UdpPort || b is Custom,
        RouteView::IpProtocol(_) => b is TcpPort || b is UdpPort || b is Custom,
        RouteView::TcpPort(_) => b is UdpPort || b is Custom,
        RouteView::UdpPort(_) => b is Custom,
        RouteView::Custom { .. } => false,
    }
}

/// Shapes behind one protocol are ordered by their routes: none comes first, then the
/// kinds in their order, and routes of one kind by number.
pub proof fn routes_are_ordered(p: Seq<char>, a: RouteView, b: RouteView)
    ensures
        ({
            let none = Shape { predecessor: p, route: None };
            let x = Shape { predecessor: p, route: Some(a) };
            let y = Shape { predecessor: p, route: Some(b) };
            &&& unknown::shape_le(none, x) && !unknown::shape_le(x, none)
            &&& kind_ahead(a, b) ==> unknown::shape_le(x, y) && !unknown::shape_le(y, x)
            &&& match (a, b) {
                (RouteView::LinkType(m), RouteView::LinkType(n)) => unknown::shape_le(x, y)
                    == (m <= n),
                (RouteView::EtherType(m), RouteView::EtherType(n)) => unknown::shape_le(x, y)
                    == (m <= n),
                (RouteView::IpProtocol(m), RouteView::IpProtocol(n)) => unknown::shape_le(x, y)
                    == (m <= n),
                (RouteView::TcpPort(m), RouteView::TcpPort(n)) => unknown::shape_le(x, y) == (m
                    <= n),
                (RouteView::UdpPort(m), RouteView::UdpPort(n)) => unknown::shape_le(x, y) == (m
                    <= n),
                (
                    RouteView::Custom { space: s, id: m },
                    RouteView::Custom { space: t, id: n },
                ) => s == t ==> unknown::shape_le(x, y) == (m <= n),
                _ => true,
            }
        }),
{
}

/// Shapes behind different protocols are ordered by these, whatever their routes.
pub proof fn predecessors_come_first(a: Shape, b: Shape, c: Shape, d: Shape)
    requires
        a.predecessor != b.predecessor,
        c.predecessor == a.predecessor,
        d.predecessor == b.predecessor,
    ensures
        unknown::shape_le(a, b) == unknown::shape_le(c, d),
        unknown::shape_le(a, b) <==> key::lex_le(
            vstd::utf8::encode_utf8(a.predecessor),
            vstd::utf8::encode_utf8(b.predecessor),
        ),
{
}

/// A register that has too many groups keeps as many as it may: those that were met
/// last and, of groups met at one time, those that began last. One that has not keeps
/// all.
pub proof fn the_least_recent_groups_go(r: Register, max: usize)
    requires
        unknown::sound(r),
    ensures
        ({
            let t = unknown::trimmed(r.groups, max);
            &&& t.dom().len() == if r.groups.dom().len() <= max {
                r.groups.dom().len()
            } else {
                max as nat
            }
            &&& forall|j: Shape, k: Shape|
                #![trigger r.groups.contains_key(j), t.contains_key(k)]
                r.groups.contains_key(j) && !t.contains_key(j) && t.contains_key(k) ==> {
                    let (gone, left) = (r.groups[j], r.groups[k]);
                    &&& gone.last_seen <= left.last_seen
                    &&& gone.last_seen == left.last_seen ==> gone.seq < left.seq
                }
        }),
    decreases r.groups.dom().len(),
{
    let m = r.groups;
    unknown::trimming_drops_the_coldest(r, max);
    if m.dom().len() > max && m.contains_key(unknown::coldest(m)) {
        let c = unknown::coldest(m);
        let rest = Register { groups: m.remove(c), next_seq: r.next_seq };
        assert(rest.groups.dom() =~= m.dom().remove(c));
        assert(unknown::sound(rest)) by {
            assert forall|a: Shape, b: Shape|
                #![trigger rest.groups.contains_key(a), rest.groups.contains_key(b)]
                rest.groups.contains_key(a) && rest.groups.contains_key(b) && a
                    != b implies rest.groups[a].seq != rest.groups[b].seq by {
                assert(m.contains_key(a) && m.contains_key(b));
            }
        }
        the_least_recent_groups_go(rest, max);
    }
}

} // verus!

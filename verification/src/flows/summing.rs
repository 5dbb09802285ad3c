//! The rows of a summary add up to its totals.
use vstd::prelude::*;

use crate::engine::Registration;
use crate::flows::accounts;
use crate::flows::bounds;
use crate::flows::capture;
use crate::flows::state::{self, AggregatorConfig, Slot, State};
use crate::flows::store::query::{self, AggregateSummary};
use crate::flows::stream::StreamId;
use crate::flows::tally::{self, ProtocolCounts};
use crate::packet::{Packet, StopClass};

verus! {

/// The live streams of all rows.
pub open spec fn live_sum(rows: Seq<ProtocolCounts>) -> int
    decreases rows.len(),
{
    if rows.len() == 0 {
        0
    } else {
        live_sum(rows.drop_last()) + rows.last().live
    }
}

/// The flows ever created of all rows.
pub open spec fn ever_sum(rows: Seq<ProtocolCounts>) -> int
    decreases rows.len(),
{
    if rows.len() == 0 {
        0
    } else {
        ever_sum(rows.drop_last()) + rows.last().ever
    }
}

/// The packets of all kinds of end.
pub open spec fn class_sum(classes: Seq<(StopClass, u64)>) -> int
    decreases classes.len(),
{
    if classes.len() == 0 {
        0
    } else {
        class_sum(classes.drop_last()) + classes.last().1
    }
}

/// The live streams in some slots of the protocols of some rows.
spec fn found(slots: Seq<Slot>, rows: Seq<ProtocolCounts>) -> int
    decreases rows.len(),
{
    if rows.len() == 0 {
        0
    } else {
        found(slots, rows.drop_last()) + state::live_of(slots, rows.last().protocol@)
    }
}

/// The rows of the protocol of the stream in a slot.
spec fn hits(slot: Slot, rows: Seq<ProtocolCounts>) -> int
    decreases rows.len(),
{
    if rows.len() == 0 {
        0
    } else {
        hits(slot, rows.drop_last()) + if state::is_of(slot, rows.last().protocol@) {
            1int
        } else {
            0
        }
    }
}

proof fn lemma_found(slots: Seq<Slot>, rows: Seq<ProtocolCounts>)
    requires
        slots.len() > 0,
    ensures
        found(slots, rows) == found(slots.drop_last(), rows) + hits(slots.last(), rows),
    decreases rows.len(),
{
    if rows.len() > 0 {
        lemma_found(slots, rows.drop_last());
    }
}

proof fn lemma_nothing_found(rows: Seq<ProtocolCounts>)
    ensures
        found(Seq::empty(), rows) == 0,
    decreases rows.len(),
{
    if rows.len() > 0 {
        lemma_nothing_found(rows.drop_last());
    }
}

/// A stream is of the protocol of one row at most.
proof fn lemma_hits(slot: Slot, rows: Seq<ProtocolCounts>)
    requires
        tally::sorted(rows),
    ensures
        hits(slot, rows) == if exists|i: int|
            0 <= i < rows.len() && state::is_of(slot, (#[trigger] rows[i]).protocol@) {
            1int
        } else {
            0
        },
    decreases rows.len(),
{
    if rows.len() > 0 {
        let init = rows.drop_last();
        let n = init.len() as int;
        assert(tally::sorted(init)) by {
            assert forall|i: int, j: int| 0 <= i < j < init.len() implies tally::name_before(
                (#[trigger] init[i]).protocol@,
                (#[trigger] init[j]).protocol@,
            ) by {
                assert(init[i] == rows[i] && init[j] == rows[j]);
            }
        }
        lemma_hits(slot, init);
        if exists|i: int| 0 <= i < n && state::is_of(slot, (#[trigger] init[i]).protocol@) {
            let i = choose|i: int|
                0 <= i < n && state::is_of(slot, (#[trigger] init[i]).protocol@);
            assert(init[i] == rows[i]);
            assert(tally::name_before(rows[i].protocol@, rows[n].protocol@));
        } else if exists|i: int|
            0 <= i < rows.len() && state::is_of(slot, (#[trigger] rows[i]).protocol@) {
            let i = choose|i: int|
                0 <= i < rows.len() && state::is_of(slot, (#[trigger] rows[i]).protocol@);
            if i < n {
                assert(init[i] == rows[i]);
            }
        }
    }
}

/// Rows of all protocols that streams have find every stream.
proof fn lemma_all_found(slots: Seq<Slot>, rows: Seq<ProtocolCounts>)
    requires
        tally::sorted(rows),
        forall|i: int|
            0 <= i < slots.len() && (#[trigger] slots[i]).stream is Some ==> exists|k: int|
                0 <= k < rows.len() && state::is_of(slots[i], (#[trigger] rows[k]).protocol@),
    ensures
        found(slots, rows) == state::live_count(slots),
    decreases slots.len(),
{
    if slots.len() > 0 {
        let init = slots.drop_last();
        assert forall|i: int| 0 <= i < init.len() && (#[trigger] init[i]).stream is Some implies exists|
            k: int,
        |
            0 <= k < rows.len() && state::is_of(init[i], (#[trigger] rows[k]).protocol@) by {
            assert(init[i] == slots[i]);
        }
        lemma_all_found(init, rows);
        lemma_found(slots, rows);
        lemma_hits(slots.last(), rows);
        assert(slots.last() == slots[slots.len() - 1]);
    } else {
        assert(slots =~= Seq::empty());
        lemma_nothing_found(rows);
    }
}

proof fn lemma_live_sum(slots: Seq<Slot>, rows: Seq<ProtocolCounts>)
    requires
        forall|i: int|
            0 <= i < rows.len() ==> (#[trigger] rows[i]).live == state::live_of(
                slots,
                rows[i].protocol@,
            ),
    ensures
        live_sum(rows) == found(slots, rows),
    decreases rows.len(),
{
    if rows.len() > 0 {
        let init = rows.drop_last();
        assert forall|i: int| 0 <= i < init.len() implies (#[trigger] init[i]).live
            == state::live_of(slots, init[i].protocol@) by {
            assert(init[i] == rows[i]);
        }
        lemma_live_sum(slots, init);
        assert(rows.last() == rows[rows.len() - 1]);
    }
}

proof fn lemma_ever_sum(ever: Map<Seq<char>, u64>, rows: Seq<ProtocolCounts>)
    requires
        ever.dom().finite(),
        tally::sorted(rows),
        forall|i: int|
            0 <= i < rows.len() ==> ever.contains_key((#[trigger] rows[i]).protocol@)
                && rows[i].ever == ever[rows[i].protocol@],
        forall|p: Seq<char>| #[trigger]
            ever.contains_key(p) ==> exists|i: int|
                0 <= i < rows.len() && (#[trigger] rows[i]).protocol@ == p,
    ensures
        ever_sum(rows) == accounts::ever_total(ever),
    decreases rows.len(),
{
    if rows.len() > 0 {
        let init = rows.drop_last();
        let n = init.len() as int;
        let p = rows[n].protocol@;
        let rest = ever.remove(p);
        accounts::lemma_total_without(ever, p);
        assert(rest.dom() =~= ever.dom().remove(p));
        assert forall|i: int, j: int| 0 <= i < j < init.len() implies tally::name_before(
            (#[trigger] init[i]).protocol@,
            (#[trigger] init[j]).protocol@,
        ) by {
            assert(init[i] == rows[i] && init[j] == rows[j]);
        }
        assert forall|i: int| 0 <= i < init.len() implies rest.contains_key(
            (#[trigger] init[i]).protocol@,
        ) && init[i].ever == rest[init[i].protocol@] by {
            assert(init[i] == rows[i]);
            assert(tally::name_before(rows[i].protocol@, rows[n].protocol@));
        }
        assert forall|q: Seq<char>| #[trigger] rest.contains_key(q) implies exists|i: int|
            0 <= i < init.len() && (#[trigger] init[i]).protocol@ == q by {
            assert(ever.contains_key(q));
            let i = choose|i: int| 0 <= i < rows.len() && (#[trigger] rows[i]).protocol@ == q;
            assert(init[i] == rows[i]);
        }
        lemma_ever_sum(rest, init);
    } else {
        if ever.dom().len() > 0 {
            let p = ever.dom().choose();
            assert(ever.contains_key(p));
        }
    }
}

/// In a summary the rows' live streams add up to the live streams, their flows to
/// the flows ever created, and the packets of all kinds of end to the packets.
pub proof fn summaries_add_up(s: State, r: AggregateSummary)
    requires
        accounts::adds_up(s),
        accounts::classes_add_up(s),
        accounts::listed(s),
        query::summarizes(s, r),
    ensures
        live_sum(r.per_protocol@) == r.streams_live,
        ever_sum(r.per_protocol@) == r.streams_created,
        class_sum(r.stop_classes@) == r.packets,
{
    let rows = r.per_protocol@;
    assert forall|i: int| 0 <= i < s.slots.len() && (#[trigger] s.slots[i]).stream is Some implies exists|
        k: int,
    |
        0 <= k < rows.len() && state::is_of(s.slots[i], (#[trigger] rows[k]).protocol@) by {
        assert(s.live_at(i));
        let p = s.at(i).protocol;
        assert(s.ever.contains_key(p));
        let k = choose|k: int| 0 <= k < rows.len() && (#[trigger] rows[k]).protocol@ == p;
        assert(state::is_of(s.slots[i], rows[k].protocol@));
    }
    lemma_all_found(s.slots, rows);
    lemma_live_sum(s.slots, rows);
    lemma_ever_sum(s.ever, rows);
    let c = r.stop_classes@;
    assert(c[0].1 == s.stop_classes[0]);
    assert(c[1].1 == s.stop_classes[1]);
    assert(c[2].1 == s.stop_classes[2]);
    assert(c[3].1 == s.stop_classes[3]);
    reveal_with_fuel(class_sum, 5);
}

/// After any capture, and after its end, the summary's rows add up to its totals.
pub proof fn every_summary_adds_up(
    protocols: Seq<Registration>,
    config: AggregatorConfig,
    packets: Seq<Packet>,
    n: nat,
    order: Seq<StreamId>,
    k: nat,
    r: AggregateSummary,
)
    requires
        bounds::timed(config),
        n <= packets.len(),
        capture::fits(state::initial(protocols, config), packets, n as int),
        query::summarizes(
            state::closed_all(
                capture::after(state::initial(protocols, config), packets, n as int),
                order,
                k as int,
            ),
            r,
        ),
    ensures
        live_sum(r.per_protocol@) == r.streams_live,
        ever_sum(r.per_protocol@) == r.streams_created,
        class_sum(r.stop_classes@) == r.packets,
{
    let s = capture::after(state::initial(protocols, config), packets, n as int);
    accounts::every_capture_adds_up(protocols, config, packets, n);
    accounts::the_end_counts_nothing(s, order, k);
    accounts::the_end_stays_listed(s, order, k);
    summaries_add_up(state::closed_all(s, order, k as int), r);
}

} // verus!

//! A capture: what holds after any sequence of packets.
use vstd::prelude::*;

use crate::engine::Registration;
use crate::flows::bounds;
use crate::flows::freshness;
use crate::flows::members;
use crate::flows::placing;
use crate::flows::state::{self, AggregatorConfig, State};
use crate::flows::steps;
use crate::flows::stream::StreamId;
use crate::flows::tree;
use crate::packet::Packet;

verus! {

/// The state after the first `n` packets.
pub open spec fn after(s: State, packets: Seq<Packet>, n: int) -> State
    decreases n,
{
    if n <= 0 {
        s
    } else {
        state::ingested(after(s, packets, n - 1), packets[n - 1])
    }
}

/// Whether each of the first `n` packets can be taken in when it comes.
pub open spec fn fits(s: State, packets: Seq<Packet>, n: int) -> bool {
    forall|k: int|
        0 <= k < n ==> state::has_room(after(s, packets, k), #[trigger] packets[k])
}

/// Whether the first `n` packets come in the order of their times.
pub open spec fn in_order(s: State, packets: Seq<Packet>, n: int) -> bool {
    forall|k: int|
        0 <= k < n ==> freshness::in_order(after(s, packets, k), #[trigger] packets[k])
}

/// What holds of every state.
pub open spec fn well_kept(s: State) -> bool {
    &&& tree::hierarchy(s)
    &&& bounds::within(s, s.load)
    &&& placing::placed(s)
    &&& placing::sorts_endpoints(s.protocols) ==> placing::one_stream_per_key(s)
    &&& members::counted(s)
    &&& freshness::fresh(s, false)
}

/// A new aggregator has nothing out of order.
pub proof fn the_start_is_well_kept(protocols: Seq<Registration>, config: AggregatorConfig)
    requires
        bounds::timed(config),
    ensures
        well_kept(state::initial(protocols, config)),
        freshness::fresh(state::initial(protocols, config), true),
{
    let s = state::initial(protocols, config);
    placing::nothing_is_misplaced(s);
    freshness::nothing_is_overlooked(s, false);
    freshness::nothing_is_overlooked(s, true);
    assert forall|p: Seq<char>|
        #![trigger state::bytes_of(s.slots, p)]
        #![trigger state::packets_of(s.slots, p)]
        state::bytes_of(s.slots, p) <= 0 && state::packets_of(s.slots, p) <= 0 by {}
}

/// A packet keeps everything in order.
pub proof fn a_packet_keeps_everything(s: State, pkt: Packet)
    requires
        well_kept(s),
        state::has_room(s, pkt),
    ensures
        well_kept(state::ingested(s, pkt)),
{
    steps::ingesting_keeps(s, pkt);
    placing::no_phantom_streams(s, pkt);
    members::nodes_count_their_members(s, pkt);
    freshness::ingesting_stays_fresh(s, pkt, false);
}

/// After any capture every stream's parent is there and lists it, every child
/// knows its parent, and the chain of parents ends; every conversation has one
/// stream and every condensed node counts its group's distinct flows; every leaf
/// is a candidate for the cap. Where keys are made of sorted endpoints, no two
/// streams share parent, protocol and key. Where the packets come in order, every
/// leaf has an alarm no later than it is due.
pub proof fn every_capture_is_well_kept(
    protocols: Seq<Registration>,
    config: AggregatorConfig,
    packets: Seq<Packet>,
    n: nat,
)
    requires
        bounds::timed(config),
        n <= packets.len(),
        fits(state::initial(protocols, config), packets, n as int),
    ensures
        well_kept(after(state::initial(protocols, config), packets, n as int)),
        in_order(state::initial(protocols, config), packets, n as int) ==> freshness::fresh(
            after(state::initial(protocols, config), packets, n as int),
            true,
        ),
    decreases n,
{
    let s = state::initial(protocols, config);
    if n == 0 {
        the_start_is_well_kept(protocols, config);
    } else {
        let m = (n - 1) as nat;
        assert(fits(s, packets, m as int));
        every_capture_is_well_kept(protocols, config, packets, m);
        let t = after(s, packets, m as int);
        assert(state::has_room(after(s, packets, n - 1), packets[n - 1]));
        a_packet_keeps_everything(t, packets[n - 1]);
        if in_order(s, packets, n as int) {
            assert(in_order(s, packets, m as int));
            assert(freshness::in_order(after(s, packets, n - 1), packets[n - 1]));
            freshness::ingesting_stays_fresh(t, packets[n - 1], true);
        }
    }
}

/// After any capture with keys made of sorted endpoints, a stream is known by its
/// parent, protocol and key alone: two handles lead to streams that agree in all
/// three only if they are the same handle, and looking the three up gives it. Equal
/// keys under different parents are different streams.
pub proof fn every_conversation_has_one_stream(
    protocols: Seq<Registration>,
    config: AggregatorConfig,
    packets: Seq<Packet>,
    n: nat,
    x: StreamId,
    y: StreamId,
)
    requires
        bounds::timed(config),
        n <= packets.len(),
        fits(state::initial(protocols, config), packets, n as int),
        placing::sorts_endpoints(protocols),
        after(state::initial(protocols, config), packets, n as int).live(x),
        after(state::initial(protocols, config), packets, n as int).live(y),
    ensures
        ({
            let t = after(state::initial(protocols, config), packets, n as int);
            let a = t.get(x)->0;
            let b = t.get(y)->0;
            &&& x == y <==> a.parent == b.parent && a.protocol == b.protocol && a.key == b.key
            &&& state::lookup(t, a.parent, a.protocol, a.key) == Some(x)
        }),
{
    let s = state::initial(protocols, config);
    let t = after(s, packets, n as int);
    every_capture_is_well_kept(protocols, config, packets, n);
    protocols_stay(protocols, config, packets, n);
    assert(t.live_at(x.index as int) && t.live_at(y.index as int));
    if placing::same_identity(t.get(x)->0, t.get(y)->0) {
        assert(x.index == y.index);
    }
    let a = t.get(x)->0;
    steps::lookup_is_live(t, a.parent, a.protocol, a.key);
    if state::lookup(t, a.parent, a.protocol, a.key) is None {
        placing::no_match(t, a.parent, a.protocol, a.key);
        assert(state::matches(t, x.index as int, a.parent, a.protocol, a.key));
    } else {
        let z = state::lookup(t, a.parent, a.protocol, a.key)->0;
        assert(t.live_at(z.index as int));
        assert(placing::same_identity(t.at(x.index as int), t.at(z.index as int)));
    }
}

/// Packets register no protocol.
pub proof fn protocols_stay(
    protocols: Seq<Registration>,
    config: AggregatorConfig,
    packets: Seq<Packet>,
    n: nat,
)
    requires
        bounds::timed(config),
        n <= packets.len(),
        fits(state::initial(protocols, config), packets, n as int),
    ensures
        after(state::initial(protocols, config), packets, n as int).protocols == protocols,
        after(state::initial(protocols, config), packets, n as int).config == config,
    decreases n,
{
    let s = state::initial(protocols, config);
    if n > 0 {
        let m = (n - 1) as nat;
        assert(fits(s, packets, m as int));
        protocols_stay(protocols, config, packets, m);
        every_capture_is_well_kept(protocols, config, packets, m);
        assert(state::has_room(after(s, packets, n - 1), packets[n - 1]));
        steps::ingesting_keeps(after(s, packets, m as int), packets[n - 1]);
    }
}

} // verus!

use std::sync::Arc;

use pktflow::bytes::ParseError;
use pktflow::engine::Engine;
use pktflow::flows::index::Index;
use pktflow::flows::key::flow_key;
use pktflow::flows::state::{AggregatorConfig, EvictionPolicy};
use pktflow::flows::store::Aggregator;
use pktflow::flows::stream::{CloseReason, DirStats, Stream, StreamId, dir_index};
use pktflow::identity::{Canonicalize, CondenseSpec, KeyField, PacketDirection, StreamIdentity};
use pktflow::layer::{
    Confidence, LayerPlugin, LayerRecord, LinkType, PacketMeta, ParseCtx, ParsedLayer, RouteId,
};
use pktflow::packet::{DissectedPacket, StopReason};
use pktflow::value::{FieldMap, ProtocolName, Value};

const MS: i128 = 1_000_000;
const SEC: i128 = 1_000_000_000;

/// Identity-bearing test plugin; ingest never calls parse.
struct Keyed {
    name: ProtocolName,
    identity: Option<StreamIdentity>,
    condense: Option<CondenseSpec>,
}

impl LayerPlugin for Keyed {
    fn name(&self) -> ProtocolName {
        self.name
    }

    fn parse(&self, _bytes: &[u8], _ctx: &ParseCtx) -> Result<ParsedLayer, ParseError> {
        Err(ParseError::Malformed("ingest-only test plugin"))
    }

    fn claims(&self) -> &'static [RouteId] {
        &[]
    }

    fn stream_identity(&self) -> Option<StreamIdentity> {
        self.identity
    }

    fn condense(&self) -> Option<CondenseSpec> {
        self.condense
    }

    fn has_probe(&self) -> bool {
        false
    }

    fn probe(&self, _bytes: &[u8], _ctx: &ParseCtx) -> Option<Confidence> {
        None
    }

    fn expected_predecessors(&self) -> &'static [ProtocolName] {
        &[]
    }
}

const PAIR_KEY: &[KeyField] = &[KeyField {
    a: "src",
    b: Some("dst"),
}];

fn pair_identity() -> StreamIdentity {
    StreamIdentity {
        key: PAIR_KEY,
        canonicalize: Canonicalize::EndpointSort,
        lifecycle: None,
        rollups: &[],
    }
}

fn keyed(name: ProtocolName) -> Keyed {
    Keyed {
        name,
        identity: Some(pair_identity()),
        condense: None,
    }
}

fn plain(name: ProtocolName) -> Keyed {
    Keyed {
        name,
        identity: None,
        condense: None,
    }
}

/// A keyed plugin whose whole pair is ephemeral (like TCP/UDP's
/// port pair under an IP parent).
fn condensing(name: ProtocolName) -> Keyed {
    const COND: CondenseSpec = CondenseSpec {
        ephemeral: KeyField {
            a: "src",
            b: Some("dst"),
        },
    };
    Keyed {
        name,
        identity: Some(pair_identity()),
        condense: Some(COND),
    }
}

fn engine() -> Arc<Engine> {
    Arc::new(
        Engine::builder()
            .plugin(keyed("eth"))
            .plugin(plain("vlan"))
            .plugin(keyed("ip"))
            .plugin(keyed("badkey"))
            .plugin(condensing("cond"))
            .build()
            .expect("valid registry"),
    )
}

fn layer(protocol: ProtocolName, src: u64, dst: u64) -> LayerRecord {
    let mut fields = FieldMap::new();
    fields.insert("src", Value::U64(src));
    fields.insert("dst", Value::U64(dst));
    LayerRecord {
        protocol,
        offset: 0,
        header_len: 0,
        fields,
    }
}

fn packet(
    layers: Vec<LayerRecord>,
    origlen: usize,
    opaque_len: usize,
    ms: u64,
) -> DissectedPacket {
    DissectedPacket {
        meta: PacketMeta {
            timestamp: i128::from(ms) * MS,
            caplen: origlen,
            origlen,
            link_type: LinkType(1),
        },
        layers,
        stop: StopReason::Complete,
        opaque_len,
        unknown: None,
    }
}

fn aggregator() -> Aggregator {
    Aggregator::new(&engine(), AggregatorConfig::default())
}

#[test]
fn two_packet_bidirectional_fixture_yields_one_stream() {
    let mut agg = aggregator();
    // 1 < 2 in the encoding, so src=1 is endpoint A: A→B first.
    agg.ingest(&packet(vec![layer("eth", 1, 2)], 60, 0, 0));
    agg.ingest(&packet(vec![layer("eth", 2, 1)], 60, 0, 1));

    assert_eq!(agg.len(), 1);
    let stream = agg.streams().into_iter().next().expect("one stream");
    assert_eq!(stream.protocol, "eth");
    assert_eq!(stream.initiator, PacketDirection::AtoB);
    assert_eq!(
        stream.stats[dir_index(PacketDirection::AtoB)],
        DirStats {
            packets: 1,
            bytes: 60
        }
    );
    assert_eq!(
        stream.stats[dir_index(PacketDirection::BtoA)],
        DirStats {
            packets: 1,
            bytes: 60
        }
    );
    assert_eq!(agg.totals().packets, 2);
    assert_eq!(agg.totals().bytes, 120);
}

#[test]
fn identity_less_vlan_bridges_the_parent_chain() {
    let mut agg = aggregator();
    agg.ingest(&packet(
        vec![layer("eth", 1, 2), layer("vlan", 0, 0), layer("ip", 10, 20)],
        100,
        0,
        0,
    ));

    assert_eq!(agg.len(), 2, "vlan forms no stream");
    let eth = agg
        .streams()
        .into_iter()
        .find(|s| s.protocol == "eth")
        .expect("eth stream");
    let ip = agg
        .streams()
        .into_iter()
        .find(|s| s.protocol == "ip")
        .expect("ip stream");
    assert_eq!(eth.parent, None);
    assert_eq!(ip.parent, Some(eth.id), "ip parented to eth across vlan");
    assert_eq!(eth.children, vec![ip.id]);
    let root_ids: Vec<_> = agg.roots().into_iter().map(|r| r.id).collect();
    assert_eq!(root_ids, [eth.id]);
}

#[test]
fn key_error_skips_layer_but_parents_still_update() {
    let mut agg = aggregator();
    // badkey's fields lack "dst" → MissingField; ip must still parent
    // to eth, and eth still counts the packet.
    let mut broken = layer("badkey", 5, 0);
    broken.fields = {
        let mut m = FieldMap::new();
        m.insert("src", Value::U64(5)); // no dst
        m
    };
    agg.ingest(&packet(
        vec![layer("eth", 1, 2), broken, layer("ip", 10, 20)],
        80,
        0,
        0,
    ));

    assert_eq!(agg.totals().key_errors, 1, "diagnostic counter bumped");
    assert_eq!(agg.len(), 2, "broken layer forms no stream");
    let eth = agg.streams().into_iter().find(|s| s.protocol == "eth").expect("eth");
    let ip = agg.streams().into_iter().find(|s| s.protocol == "ip").expect("ip");
    assert_eq!(eth.stats[0].packets + eth.stats[1].packets, 1);
    assert_eq!(ip.parent, Some(eth.id), "chain intact past the bad layer");
}

#[test]
fn opaque_bytes_land_on_the_innermost_stream_only() {
    let mut agg = aggregator();
    agg.ingest(&packet(
        vec![layer("eth", 1, 2), layer("ip", 10, 20)],
        90,
        17,
        0,
    ));
    let eth = agg.streams().into_iter().find(|s| s.protocol == "eth").expect("eth");
    let ip = agg.streams().into_iter().find(|s| s.protocol == "ip").expect("ip");
    assert_eq!(eth.opaque_bytes, 0);
    assert_eq!(ip.opaque_bytes, 17);
}

#[test]
fn d10_scoping_same_key_under_different_parents_is_two_nodes() {
    let mut agg = aggregator();
    // Same ip pair under two different eth conversations.
    agg.ingest(&packet(
        vec![layer("eth", 1, 2), layer("ip", 10, 20)],
        60,
        0,
        0,
    ));
    agg.ingest(&packet(
        vec![layer("eth", 3, 4), layer("ip", 10, 20)],
        60,
        0,
        1,
    ));

    let ip_nodes: Vec<_> = agg.streams().into_iter().filter(|s| s.protocol == "ip").collect();
    assert_eq!(ip_nodes.len(), 2, "one ip node per parent");
    assert_ne!(ip_nodes[0].parent, ip_nodes[1].parent);
}

#[test]
fn stale_stream_id_generation_fails_lookup() {
    let agg = aggregator();
    let bogus = StreamId {
        index: 0,
        generation: 7,
    };
    assert!(agg.get(bogus).is_none());
}

fn condensing_aggregator(threshold: usize) -> Aggregator {
    Aggregator::new(
        &engine(),
        AggregatorConfig {
            condense_threshold: threshold,
            ..AggregatorConfig::default()
        },
    )
}

// beyond K live same-anchor flows, further ones fold
// into one condensed node — counts, stats direction, and totals
// reconciliation.
#[test]
fn fan_out_condenses_beyond_threshold() {
    let mut agg = condensing_aggregator(4);
    // Ten flows fanning out to anchor 1000: src 1..=10, dst 1000.
    for i in 1..=10u64 {
        agg.ingest(&packet(vec![layer("cond", i, 1000)], 60, 0, i));
    }
    assert_eq!(agg.len(), 5, "4 expanded + 1 condensed node");
    let node = agg
        .streams()
        .into_iter()
        .find(|s| s.condensed.is_some())
        .expect("condensed node");
    let info = node.condensed.as_deref().expect("info");
    assert_eq!(info.member_flows, 6, "flows 5..=10 folded");
    assert!(!info.overflow);
    assert_eq!(info.ephemeral_field, "dst", "anchored on the dst side");
    assert_eq!(node.key_fields.get("dst"), Some(&Value::U64(1000)));
    // Members send toward the anchor: B→A with A = anchor.
    assert_eq!(node.stats[dir_index(PacketDirection::BtoA)].packets, 6);
    assert_eq!(node.stats[dir_index(PacketDirection::AtoB)].packets, 0);

    // A second packet of a folded flow updates stats, not members.
    agg.ingest(&packet(vec![layer("cond", 7, 1000)], 60, 0, 11));
    let node = agg
        .streams()
        .into_iter()
        .find(|s| s.condensed.is_some())
        .expect("condensed node");
    assert_eq!(node.condensed.as_deref().expect("info").member_flows, 6);
    assert_eq!(node.stats[dir_index(PacketDirection::BtoA)].packets, 7);
    // And the anchor answering flows A→B into the same node.
    agg.ingest(&packet(vec![layer("cond", 1000, 7)], 60, 0, 12));
    let node = agg
        .streams()
        .into_iter()
        .find(|s| s.condensed.is_some())
        .expect("condensed node");
    assert_eq!(node.stats[dir_index(PacketDirection::AtoB)].packets, 1);

    // Nothing silently absorbed.
    let summary = agg.summary();
    assert_eq!(summary.streams_created, 10, "member flows all count");
    assert_eq!(summary.flows_condensed, 6);
    assert_eq!(summary.streams_live, 5);
}

// threshold 0 disables condensation — per-flow output exactly.
#[test]
fn condensation_disabled_is_per_flow() {
    let mut agg = condensing_aggregator(0);
    for i in 1..=10u64 {
        agg.ingest(&packet(vec![layer("cond", i, 1000)], 60, 0, i));
    }
    assert_eq!(agg.len(), 10);
    assert!(agg.streams().into_iter().all(|s| s.condensed.is_none()));
    assert_eq!(agg.summary().flows_condensed, 0);
}

// inner layers over folded flows nest under the condensed
// node — tunnels survive condensation.
#[test]
fn condensed_node_hosts_inner_children() {
    let mut agg = condensing_aggregator(2);
    for i in 1..=5u64 {
        agg.ingest(&packet(
            vec![layer("cond", i, 1000), layer("ip", 50, 60)],
            60,
            0,
            i,
        ));
    }
    let node_id = agg
        .streams()
        .into_iter()
        .find(|s| s.condensed.is_some())
        .expect("condensed node")
        .id;
    let inner: Vec<&Stream> = agg.children(node_id).into_iter().collect();
    assert_eq!(inner.len(), 1, "one inner ip conversation");
    assert_eq!(inner[0].protocol, "ip");
    assert_eq!(
        inner[0].stats[0].packets + inner[0].stats[1].packets,
        3,
        "flows 3..=5's inner packets"
    );
}

// same input ⇒ same expanded set, same condensed tallies.
#[test]
fn condensation_is_deterministic() {
    let run = || {
        let mut agg = condensing_aggregator(3);
        let mut rng: u64 = 0x452821e638d01377;
        for i in 0..200u64 {
            rng = rng
                .wrapping_mul(6364136223846793005)
                .wrapping_add(1442695040888963407);
            let src = 1 + (rng >> 33) % 40;
            agg.ingest(&packet(vec![layer("cond", src, 1000)], 60, 0, i));
        }
        agg.snapshot()
    };
    assert_eq!(format!("{:?}", run()), format!("{:?}", run()));
}

// evicting a condensed node removes its group — recurrence of
// the shape starts a fresh count.
#[test]
fn condensed_node_eviction_resets_the_group() {
    let engine = engine();
    let mut agg = Aggregator::new(
        &engine,
        AggregatorConfig {
            condense_threshold: 2,
            eviction: EvictionPolicy::Live {
                idle_timeout: 50 * MS as u128,
                close_linger: 50 * MS as u128,
                max_streams: 100,
            },
            ..AggregatorConfig::default()
        },
    );
    for i in 1..=4u64 {
        agg.ingest(&packet(vec![layer("cond", i, 1000)], 60, 0, i));
    }
    assert_eq!(agg.len(), 3, "2 expanded + node with 2 members");

    // Everything idles out…
    agg.ingest(&packet(vec![layer("cond", 999, 998)], 60, 0, 10_000));
    assert_eq!(agg.len(), 1, "only the fresh flow survives");

    // …and the shape starts over: expanded again, no stale fold.
    agg.ingest(&packet(vec![layer("cond", 50, 1000)], 60, 0, 10_001));
    let newest = agg
        .streams()
        .into_iter()
        .max_by_key(|s| s.created_seq)
        .expect("a stream");
    assert!(
        newest.condensed.is_none(),
        "fresh count after the group evicted"
    );
}

// a stale LRU-heap entry (stream touched after arming) must
// not get its stream evicted ahead of a genuinely colder one.
#[test]
fn lru_heap_repushes_stale_entries_instead_of_evicting() {
    let engine = engine();
    let mut agg = Aggregator::new(
        &engine,
        AggregatorConfig {
            eviction: EvictionPolicy::Live {
                idle_timeout: 3600 * SEC as u128,
                close_linger: 3600 * SEC as u128,
                max_streams: 2,
            },
            ..AggregatorConfig::default()
        },
    );
    agg.ingest(&packet(vec![layer("eth", 1, 2)], 60, 0, 0)); // A @0
    agg.ingest(&packet(vec![layer("eth", 3, 4)], 60, 0, 1)); // B @1
    agg.ingest(&packet(vec![layer("eth", 1, 2)], 60, 0, 2)); // A touched @2
    agg.ingest(&packet(vec![layer("eth", 5, 6)], 60, 0, 3)); // C @3 → over cap

    let live: Vec<u64> = {
        let mut seqs: Vec<u64> = agg.streams().into_iter().map(|s| s.created_seq).collect();
        seqs.sort_unstable();
        seqs
    };
    assert_eq!(live, [0, 2], "B (coldest, seq 1) evicted — not A");
}

// a parent whose LRU entry was discarded while it had children
// is re-armed by its last child's eviction, staying LRU-evictable.
#[test]
fn lru_heap_rearms_parents_that_become_leaves() {
    let engine = engine();
    let mut agg = Aggregator::new(
        &engine,
        AggregatorConfig {
            eviction: EvictionPolicy::Live {
                idle_timeout: 3600 * SEC as u128,
                close_linger: 3600 * SEC as u128,
                max_streams: 1,
            },
            ..AggregatorConfig::default()
        },
    );
    // Parent+child @0: over cap → the ip leaf goes, eth survives as
    // a fresh leaf (its own heap entry was popped and discarded as a
    // non-leaf during that same enforcement pass).
    agg.ingest(&packet(
        vec![layer("eth", 1, 2), layer("ip", 10, 20)],
        60,
        0,
        0,
    ));
    assert_eq!(agg.len(), 1);
    assert_eq!(agg.streams().into_iter().next().map(|s| s.protocol), Some("eth"));

    // A younger root @5 → the re-armed eth parent is the LRU leaf.
    agg.ingest(&packet(vec![layer("eth", 3, 4)], 60, 0, 5));
    assert_eq!(agg.len(), 1);
    let survivor = agg.streams().into_iter().next().expect("one stream");
    assert_eq!(
        (survivor.protocol, survivor.last_seen),
        ("eth", 5 * MS),
        "the old parent was evicted via its re-armed entry"
    );
}

// randomized oracle for the lazy LRU heap — every LruEvicted
// stream must have been the (last_seen, created_seq) minimum among
// live leaves at its eviction, exactly the reference scan's pick.
#[test]
fn lru_heap_always_evicts_the_reference_scans_pick() {
    let engine = engine();
    let mut agg = Aggregator::new(
        &engine,
        AggregatorConfig {
            eviction: EvictionPolicy::Live {
                idle_timeout: 3600 * SEC as u128, // LRU cap only
                close_linger: 3600 * SEC as u128,
                max_streams: 5,
            },
            sink: true,
            ..AggregatorConfig::default()
        },
    );

    let mut rng: u64 = 0x082e_fa98_ec4e_6c89;
    let mut checked = 0;
    for i in 0..400u64 {
        rng = rng
            .wrapping_mul(6364136223846793005)
            .wrapping_add(1442695040888963407);
        // 12 distinct single-layer keys over a cap of 5: constant
        // churn, strictly increasing packet time. One ingest touches
        // one stream, so post-ingest live state is eviction-time
        // state.
        let pair = (rng >> 33) % 12;
        agg.ingest(&packet(
            vec![layer("eth", 100 + pair, 200 + pair)],
            60,
            0,
            i,
        ));
        assert!(agg.len() <= 5, "cap holds at packet {i}");

        let evicted: Vec<(i128, u64)> = agg
            .take_evicted()
            .iter()
            .map(|e| {
                assert_eq!(e.reason, CloseReason::LruEvicted);
                (e.stream.last_seen, e.stream.created_seq)
            })
            .collect();
        for e in evicted {
            checked += 1;
            for s in agg.streams() {
                assert!(
                    e < (s.last_seen, s.created_seq),
                    "packet {i}: evicted {e:?} was not the LRU minimum"
                );
            }
        }
    }
    assert!(checked > 100, "churn actually exercised the cap");
}

// consecutive snapshots share untouched records
// pointer-for-pointer; only touched records get a fresh copy.
#[test]
fn snapshots_share_untouched_records() {
    let mut agg = aggregator();
    agg.ingest(&packet(vec![layer("eth", 1, 2)], 60, 0, 0));
    agg.ingest(&packet(vec![layer("eth", 3, 4)], 60, 0, 1));
    let before = agg.snapshot();

    // Touch only the (1,2) stream; (3,4) stays untouched.
    agg.ingest(&packet(vec![layer("eth", 2, 1)], 60, 0, 2));
    let after = agg.snapshot();

    assert_eq!(before.streams.len(), 2);
    assert_eq!(after.streams.len(), 2);
    let touched = 0; // created_seq order: (1,2) first
    let untouched = 1;
    assert!(
        Arc::ptr_eq(&before.streams[untouched], &after.streams[untouched]),
        "untouched record is shared, not recloned"
    );
    assert!(
        !Arc::ptr_eq(&before.streams[touched], &after.streams[touched]),
        "touched record was copied for the old snapshot's benefit"
    );
    // The old snapshot kept the pre-touch value; the new one moved on.
    assert_eq!(before.streams[touched].stats[0].packets, 1);
    assert_eq!(
        after.streams[touched].stats[0].packets + after.streams[touched].stats[1].packets,
        2
    );
}

// a snapshot is value-equal to a from-scratch deep copy of the
// live set, across a randomized ingest sequence.
#[test]
fn snapshot_matches_reference_deep_copy() {
    let mut agg = aggregator();
    let mut rng: u64 = 0x243f_6a88_85a3_08d3; // seeded LCG
    for i in 0..500u64 {
        rng = rng
            .wrapping_mul(6364136223846793005)
            .wrapping_add(1442695040888963407);
        let a = 1 + (rng >> 33) % 8;
        let b = 1 + (rng >> 13) % 8;
        agg.ingest(&packet(
            vec![layer("eth", a, b), layer("ip", 10 + a, 20 + b)],
            60 + (i % 9) as usize,
            0,
            i,
        ));
        if i % 97 == 0 {
            let snap = agg.snapshot();
            let mut reference: Vec<Stream> = agg.streams().into_iter().cloned().collect();
            reference.sort_by_key(|s| s.created_seq);
            let materialized: Vec<Stream> =
                snap.streams.iter().map(|s| (**s).clone()).collect();
            assert_eq!(materialized, reference, "packet {i}");
        }
    }
}

// per-protocol live/byte counters are maintained
// incrementally; they must always equal a recomputation from the
// live set — including across evictions.
#[test]
fn summary_counters_match_recomputation_across_eviction() {
    let engine = engine();
    let mut agg = Aggregator::new(
        &engine,
        AggregatorConfig {
            eviction: EvictionPolicy::Live {
                idle_timeout: 40 * MS as u128,
                close_linger: 10 * MS as u128,
                max_streams: 6,
            },
            ..AggregatorConfig::default()
        },
    );
    let mut rng: u64 = 0x1319_8a2e_0370_7344;
    for i in 0..300u64 {
        rng = rng
            .wrapping_mul(6364136223846793005)
            .wrapping_add(1442695040888963407);
        let a = 1 + (rng >> 33) % 10;
        let b = 1 + (rng >> 13) % 10;
        agg.ingest(&packet(
            vec![layer("eth", a, b), layer("ip", 10 + a, 20 + b)],
            40 + (i % 31) as usize,
            0,
            i * 7,
        ));

        let summary = agg.summary();
        for counts in &summary.per_protocol {
            let live = agg
                .streams()
                .into_iter()
                .filter(|s| s.protocol == counts.protocol)
                .count() as u64;
            let bytes: u64 = agg
                .streams()
                .into_iter()
                .filter(|s| s.protocol == counts.protocol)
                .map(|s| s.stats[0].bytes + s.stats[1].bytes)
                .sum();
            assert_eq!(counts.live, live, "{} live at packet {i}", counts.protocol);
            assert_eq!(
                counts.bytes, bytes,
                "{} bytes at packet {i}",
                counts.protocol
            );
        }
    }
}

// The index holds handles by digest: two different keys under one digest
// still lead to their own streams (the full key decides), never to each
// other's.
#[test]
fn index_hash_collisions_probe_by_full_key() {
    let mut agg = aggregator();
    agg.ingest(&packet(vec![layer("eth", 1, 2)], 60, 0, 0));
    agg.ingest(&packet(vec![layer("eth", 3, 4)], 60, 0, 1));

    // Both handles under one digest, as a collision would have it.
    let mut index = Index::new();
    let ids: Vec<StreamId> = agg.roots().iter().map(|s| s.id).collect();
    assert_eq!(ids.len(), 2);
    for id in &ids {
        index.insert(7, (id.index, id.generation));
    }
    let probe = |agg: &Aggregator, index: &Index, src: u64, dst: u64| -> Option<StreamId> {
        let (key, _) = flow_key(&pair_identity(), &layer("eth", src, dst).fields).expect("a key");
        index
            .get(7)
            .iter()
            .map(|&(index, generation)| StreamId { index, generation })
            .find(|&id| agg.get(id).is_some_and(|s| s.key == key))
    };
    assert_eq!(index.get(7).len(), 2);
    assert_eq!(probe(&agg, &index, 2, 1), Some(ids[0]));
    assert_eq!(probe(&agg, &index, 4, 3), Some(ids[1]));
    assert_eq!(probe(&agg, &index, 5, 6), None);
    assert!(index.get(8).is_empty());

    // Recurrence of each key must update its own stream, not the
    // bucket-mate, and create nothing new.
    agg.ingest(&packet(vec![layer("eth", 2, 1)], 60, 0, 2));
    agg.ingest(&packet(vec![layer("eth", 4, 3)], 60, 0, 3));
    assert_eq!(agg.len(), 2, "no phantom stream from a collision");
    for s in agg.streams() {
        assert_eq!(
            s.stats[0].packets + s.stats[1].packets,
            2,
            "each key hit its own stream"
        );
    }

    // Taking one of the two out leaves the other.
    index.remove(7, (ids[0].index, ids[0].generation));
    assert_eq!(probe(&agg, &index, 2, 1), None);
    assert_eq!(probe(&agg, &index, 4, 3), Some(ids[1]));
}

// eviction releases the store's handle — once the last
// snapshot holding an evicted stream drops, the record is freed.
#[test]
fn eviction_releases_the_stores_arc() {
    let engine = engine();
    let mut agg = Aggregator::new(
        &engine,
        AggregatorConfig {
            eviction: EvictionPolicy::Live {
                idle_timeout: 10 * MS as u128,
                close_linger: 10 * MS as u128,
                max_streams: 4,
            },
            ..AggregatorConfig::default()
        },
    );
    agg.ingest(&packet(vec![layer("eth", 1, 2)], 60, 0, 0));
    let snap = agg.snapshot();
    let weak = Arc::downgrade(&snap.streams[0]);

    agg.finish(); // live mode: evicts everything
    assert!(agg.is_empty());
    assert!(weak.upgrade().is_some(), "snapshot still holds the record");
    drop(snap);
    assert!(
        weak.upgrade().is_none(),
        "no lingering store-side Arc after eviction"
    );
}

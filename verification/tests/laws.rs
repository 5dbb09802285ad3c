use std::sync::Arc;

use pktflow::bytes::ParseError;
use pktflow::engine::{BuildError, Engine};
use pktflow::flows::key::flow_key;
use pktflow::flows::rollup::{ACCUMULATE_SET_CAP, Rollup, RollupSet};
use pktflow::flows::state::{AggregatorConfig, EvictionPolicy};
use pktflow::flows::store::Aggregator;
use pktflow::flows::stream::{CloseReason, dir_index};
use pktflow::flows::unknown::{EndpointKey, UnknownKey, UnknownRegistry, UnknownRegistryConfig};
use pktflow::identity::{
    Canonicalize, CondenseSpec, FlowKey, KeyError, KeyField, Lifecycle, LifecycleSpec,
    PacketDirection, RollupKind, RollupSpec, StateName, StreamIdentity,
};
use pktflow::layer::{
    Confidence, LayerPlugin, LayerRecord, LinkType, PacketMeta, ParseCtx, ParsedLayer, RouteId,
};
use pktflow::packet::{DissectedPacket, StopClass, StopReason, UnknownContext, UnknownDiagnostics};
use pktflow::small::NearMisses;
use pktflow::value::{FieldMap, ProtocolName, Value};

const SEC: i128 = 1_000_000_000;

struct Closing;

impl Lifecycle for Closing {
    fn advance(&self, fields: &FieldMap, state: StateName, _dir: PacketDirection) -> StateName {
        match fields.get("flag") {
            Some(Value::U64(1)) => "closed",
            Some(Value::U64(2)) => "open",
            _ => state,
        }
    }
}

const CLOSING: Closing = Closing;

const PAIR: &[KeyField] = &[KeyField {
    a: "src",
    b: Some("dst"),
}];

#[derive(Clone, Copy)]
struct Proto {
    name: ProtocolName,
    claims: &'static [RouteId],
    session: bool,
    condensing: bool,
}

fn proto(name: ProtocolName) -> Proto {
    Proto {
        name,
        claims: &[],
        session: false,
        condensing: false,
    }
}

impl LayerPlugin for Proto {
    fn name(&self) -> ProtocolName {
        self.name
    }

    fn parse(&self, _bytes: &[u8], _ctx: &ParseCtx) -> Result<ParsedLayer, ParseError> {
        Err(ParseError::Malformed("never parsed"))
    }

    fn claims(&self) -> &'static [RouteId] {
        self.claims
    }

    fn stream_identity(&self) -> Option<StreamIdentity> {
        Some(StreamIdentity {
            key: PAIR,
            canonicalize: Canonicalize::EndpointSort,
            lifecycle: if self.session {
                Some(LifecycleSpec {
                    initial: "open",
                    machine: &CLOSING,
                    closed_states: &["closed"],
                })
            } else {
                None
            },
            rollups: &[],
        })
    }

    fn condense(&self) -> Option<CondenseSpec> {
        if self.condensing {
            Some(CondenseSpec { ephemeral: PAIR[0] })
        } else {
            None
        }
    }

    fn has_probe(&self) -> bool {
        false
    }

    fn probe(&self, _bytes: &[u8], _ctx: &ParseCtx) -> Option<Confidence> {
        None
    }

    fn expected_predecessors(&self) -> &'static [ProtocolName] {
        &[]
    }
}

fn engine() -> Arc<Engine> {
    Arc::new(
        Engine::builder()
            .plugin(proto("eth"))
            .plugin(proto("ip"))
            .plugin(Proto {
                session: true,
                ..proto("session")
            })
            .plugin(Proto {
                condensing: true,
                ..proto("crowd")
            })
            .build()
            .expect("no collision"),
    )
}

fn layer(protocol: ProtocolName, src: u64, dst: u64, flag: u64) -> LayerRecord {
    let mut fields = FieldMap::new();
    fields.insert("src", Value::U64(src));
    fields.insert("dst", Value::U64(dst));
    fields.insert("flag", Value::U64(flag));
    LayerRecord {
        protocol,
        offset: 0,
        header_len: 0,
        fields,
    }
}

fn packet(layers: Vec<LayerRecord>, secs: i128) -> DissectedPacket {
    DissectedPacket {
        meta: PacketMeta {
            timestamp: secs * SEC,
            caplen: 100,
            origlen: 100,
            link_type: LinkType(1),
        },
        layers,
        stop: StopReason::Complete,
        opaque_len: 0,
        unknown: None,
    }
}

fn live(max_streams: usize) -> Aggregator {
    Aggregator::new(
        &engine(),
        AggregatorConfig {
            eviction: EvictionPolicy::Live {
                idle_timeout: 60 * SEC as u128,
                close_linger: 5 * SEC as u128,
                max_streams,
            },
            sink: true,
            ..AggregatorConfig::default()
        },
    )
}

fn values() -> Vec<Value> {
    vec![
        Value::U64(1),
        Value::U64(256),
        Value::I64(1),
        Value::I64(-1),
        Value::Bool(true),
        Value::from(&b""[..]),
        Value::from(&[1u8][..]),
        Value::from(&[1u8, 0][..]),
        Value::from(""),
        Value::from("ab"),
        Value::List(Vec::new()),
        Value::List(vec![Value::U64(1)]),
        Value::List(vec![Value::from("ab"), Value::from("c")]),
        Value::List(vec![Value::from("a"), Value::from("bc")]),
    ]
}

fn pair_of(a: &Value, b: &Value) -> FieldMap {
    let mut m = FieldMap::new();
    m.insert("src", a.clone());
    m.insert("dst", b.clone());
    m
}

fn pair_identity() -> StreamIdentity {
    proto("x").stream_identity().expect("an identity")
}

#[test]
fn replies_share_the_key_and_turn_around() {
    for a in values() {
        for b in values() {
            let (k, d) = flow_key(&pair_identity(), &pair_of(&a, &b)).expect("a key");
            let (l, e) = flow_key(&pair_identity(), &pair_of(&b, &a)).expect("a key");
            assert_eq!(k, l);
            if a.same(&b) {
                assert_eq!((d, e), (PacketDirection::AtoB, PacketDirection::AtoB));
            } else {
                assert_ne!(d, e);
            }
        }
    }
}

#[test]
fn different_endpoints_have_different_keys() {
    let all = values();
    let mut seen: Vec<(usize, usize, Vec<u8>)> = Vec::new();
    for i in 0..all.len() {
        for j in i..all.len() {
            let (k, _) = flow_key(&pair_identity(), &pair_of(&all[i], &all[j])).expect("a key");
            for (x, y, other) in &seen {
                assert_ne!(k.as_bytes(), &other[..], "{i},{j} and {x},{y}");
            }
            seen.push((i, j, k.as_bytes().to_vec()));
        }
    }
}

#[test]
fn a_key_is_tagged_and_length_prefixed() {
    let (k, d) =
        flow_key(&pair_identity(), &pair_of(&Value::from("ab"), &Value::U64(7))).expect("a key");
    assert_eq!(
        k.as_bytes(),
        &[1, 0, 0, 0, 0, 0, 0, 0, 7, 4, 0, 2, b'a', b'b'][..]
    );
    assert_eq!(d, PacketDirection::BtoA);
    assert_eq!(
        flow_key(&pair_identity(), &FieldMap::new()),
        Err(KeyError::MissingField("src"))
    );
}

#[test]
fn streams_nest_as_layers_do() {
    let mut agg = Aggregator::new(&engine(), AggregatorConfig::default());
    let mut noise: u64 = 11;
    for t in 0..300 {
        noise = noise.wrapping_mul(6364136223846793005).wrapping_add(1442695040888963407);
        let (a, b, c) = (noise >> 60, (noise >> 56) & 3, (noise >> 52) & 3);
        let mut layers = vec![layer("eth", a & 1, a >> 1, 0)];
        if noise & 0x100 == 0 {
            layers.push(layer("ip", b, c, 0));
            layers.push(layer("session", c, b, 0));
        }
        agg.ingest(&packet(layers, t));
    }
    for s in agg.streams() {
        match s.parent {
            Some(p) => {
                let parent = agg.get(p).expect("a live parent");
                assert!(parent.children.contains(&s.id));
                assert!(parent.created_seq < s.created_seq);
            }
            None => assert!(agg.roots().iter().any(|r| r.id == s.id)),
        }
        for child in agg.children(s.id) {
            assert_eq!(child.parent, Some(s.id));
        }
        let expected = match s.protocol {
            "eth" => None,
            "ip" => Some("eth"),
            _ => Some("ip"),
        };
        assert_eq!(s.parent.map(|p| agg.get(p).expect("live").protocol), expected);
    }
    // Every packet is counted once per layer, and every conversation once.
    let summary = agg.summary();
    let live: u64 = summary.per_protocol.iter().map(|r| r.live).sum();
    assert_eq!(summary.streams_live, live);
    assert_eq!(summary.streams_created, live);
    let eth: u64 = agg.at_layer("eth").iter().map(|s| s.stats[0].packets + s.stats[1].packets).sum();
    assert_eq!(eth, 300);
}

#[test]
fn the_same_handle_never_leads_to_another_stream() {
    let mut agg = live(1);
    agg.ingest(&packet(vec![layer("eth", 1, 2, 0)], 0));
    let first = agg.roots()[0].id;
    agg.ingest(&packet(vec![layer("eth", 3, 4, 0)], 1));
    agg.ingest(&packet(vec![layer("eth", 1, 2, 0)], 2));
    assert!(agg.get(first).is_none());
    assert!(agg.stream(first).is_none());
    let again = agg.roots()[0];
    assert_eq!(again.key_fields.get("src"), Some(&Value::U64(1)));
    assert_eq!(again.stats[0].packets, 1, "it starts anew");
    assert_eq!(agg.totals().streams_created, 3);
}

#[test]
fn the_cap_takes_the_least_recently_updated_leaf() {
    let mut agg = live(2);
    agg.ingest(&packet(vec![layer("eth", 1, 2, 0)], 0));
    agg.ingest(&packet(vec![layer("eth", 3, 4, 0)], 1));
    agg.ingest(&packet(vec![layer("eth", 1, 2, 0)], 2));
    agg.ingest(&packet(vec![layer("eth", 5, 6, 0)], 3));
    assert_eq!(agg.len(), 2);
    let out = agg.take_evicted();
    assert_eq!(out.len(), 1);
    assert_eq!(out[0].reason, CloseReason::LruEvicted);
    assert_eq!(out[0].stream.key_fields.get("src"), Some(&Value::U64(3)));
    assert_eq!(out[0].stream.closed, Some(CloseReason::LruEvicted));
    assert!(agg.take_evicted().is_empty(), "handed out once");
}

#[test]
fn an_out_of_order_packet_can_outlive_its_time() {
    // A stream is due by the latest packet of its own, however old its time.
    let mut agg = live(10);
    agg.ingest(&packet(vec![layer("eth", 1, 2, 0)], 100));
    agg.ingest(&packet(vec![layer("eth", 3, 4, 0)], 101));
    agg.ingest(&packet(vec![layer("eth", 1, 2, 0)], 10));
    assert_eq!(agg.clock(), 101 * SEC);
    assert_eq!(agg.len(), 2);
    agg.ingest(&packet(vec![layer("eth", 5, 6, 0)], 161));
    let out = agg.take_evicted();
    assert_eq!(out.len(), 2);
    assert!(out.iter().all(|e| e.reason == CloseReason::IdleTimeout));
}

#[test]
fn stragglers_do_not_move_the_close_and_a_new_start_cancels_it() {
    let mut agg = live(10);
    agg.ingest(&packet(vec![layer("session", 1, 2, 0)], 0));
    agg.ingest(&packet(vec![layer("session", 2, 1, 1)], 1));
    agg.ingest(&packet(vec![layer("session", 1, 2, 0)], 4));
    let s = agg.roots()[0];
    assert!(s.close_eligible);
    assert_eq!(s.close_eligible_since, Some(SEC));
    assert_eq!(s.last_seen, 4 * SEC);
    agg.ingest(&packet(vec![layer("session", 1, 2, 2)], 5));
    let s = agg.roots()[0];
    assert_eq!((s.close_eligible, s.close_eligible_since, s.state), (false, None, Some("open")));
    agg.ingest(&packet(vec![layer("session", 1, 2, 1)], 6));
    agg.ingest(&packet(vec![layer("eth", 1, 2, 0)], 11));
    let out = agg.take_evicted();
    assert_eq!(out.len(), 1);
    assert_eq!(out[0].reason, CloseReason::ProtocolClose);
}

#[test]
fn the_end_closes_everything_children_first() {
    for eviction in [
        EvictionPolicy::Never,
        EvictionPolicy::Live {
            idle_timeout: 60 * SEC as u128,
            close_linger: 5 * SEC as u128,
            max_streams: 100,
        },
    ] {
        let offline = matches!(eviction, EvictionPolicy::Never);
        let mut agg = Aggregator::new(
            &engine(),
            AggregatorConfig {
                eviction,
                sink: true,
                ..AggregatorConfig::default()
            },
        );
        agg.ingest(&packet(vec![layer("eth", 1, 2, 0), layer("ip", 1, 2, 0)], 0));
        agg.ingest(&packet(
            vec![layer("eth", 1, 2, 0), layer("ip", 3, 4, 0), layer("session", 1, 2, 0)],
            1,
        ));
        agg.finish();
        let out = agg.take_evicted();
        let order: Vec<&str> = out.iter().map(|e| e.stream.protocol).collect();
        assert_eq!(order, ["session", "ip", "ip", "eth"]);
        assert!(out.iter().all(|e| e.reason == CloseReason::CaptureEnd));
        assert_eq!(agg.len(), if offline { 4 } else { 0 });
        assert_eq!(agg.is_empty(), !offline);
    }
}

#[test]
fn a_fan_out_is_condensed_at_the_threshold() {
    let mut agg = Aggregator::new(
        &engine(),
        AggregatorConfig {
            condense_threshold: 3,
            ..AggregatorConfig::default()
        },
    );
    for i in 0..50 {
        agg.ingest(&packet(vec![layer("crowd", 100 + i % 20, 1, 0)], i128::from(i)));
        let own = agg.streams().iter().filter(|s| s.condensed.is_none()).count();
        assert!(own <= 3, "{own} streams of their own");
    }
    let streams = agg.streams();
    let node = streams.iter().find(|s| s.condensed.is_some()).expect("a node");
    let info = node.condensed.as_deref().expect("its tally");
    assert_eq!((info.member_flows, info.overflow), (17, false));
    assert_eq!(agg.totals().streams_created, 20);
    assert_eq!(agg.totals().flows_condensed, 17);
}

#[test]
fn merged_rows_carry_what_the_nodes_carry() {
    let mut agg = Aggregator::new(&engine(), AggregatorConfig::default());
    for i in 0..40 {
        agg.ingest(&packet(vec![layer("eth", i % 3, 9, 0), layer("ip", i % 4, 7, 0)], i128::from(i)));
    }
    let rows = agg.at_layer_merged("ip");
    let nodes = agg.at_layer("ip");
    assert_eq!((rows.len(), nodes.len()), (4, 12));
    for d in [PacketDirection::AtoB, PacketDirection::BtoA] {
        let i = dir_index(d);
        let of_rows: u64 = rows.iter().map(|r| r.stats[i].packets).sum();
        let of_nodes: u64 = nodes.iter().map(|s| s.stats[i].packets).sum();
        assert_eq!(of_rows, of_nodes);
    }
    for s in nodes {
        let holders: Vec<_> = rows.iter().filter(|r| r.nodes.contains(&s.id)).collect();
        assert_eq!(holders.len(), 1);
        assert_eq!(holders[0].key, s.key);
        assert!(holders[0].first_seen <= s.first_seen && s.last_seen <= holders[0].last_seen);
    }
}

fn slot(kind: RollupKind, cap: usize) -> RollupSet {
    RollupSet::new(&[RollupSpec { field: "f", kind }], cap, None)
}

fn seen(set: &mut RollupSet, n: u64, ts: i128) {
    let mut m = FieldMap::new();
    m.insert("f", Value::U64(n));
    set.apply(&m, 0, ts, PacketDirection::AtoB);
}

#[test]
fn retained_metadata_is_what_came_first_or_last() {
    let mut series = slot(RollupKind::Series { cap: 0 }, 3);
    let mut sample = slot(RollupKind::Sample, 3);
    let mut set = slot(RollupKind::Accumulate, 3);
    for n in 0..200u64 {
        seen(&mut series, n, i128::from(n));
        seen(&mut sample, n, 0);
        seen(&mut set, n / 2, 0);
    }
    match series.get("f") {
        Some(Rollup::Series { ring, cap, truncated }) => {
            let kept: Vec<(Value, i128)> = ring.iter().map(|p| (p.value.clone(), p.ts(0))).collect();
            assert_eq!(
                kept,
                [(Value::U64(197), 197), (Value::U64(198), 198), (Value::U64(199), 199)]
            );
            assert_eq!((*cap, *truncated), (3, true));
        }
        other => panic!("{other:?}"),
    }
    match sample.get("f") {
        Some(Rollup::Sample { first, last }) => {
            assert_eq!((first, last), (&Some(Value::U64(0)), &Some(Value::U64(199))));
        }
        other => panic!("{other:?}"),
    }
    match set.get("f") {
        Some(Rollup::Accumulate { values, count, overflow }) => {
            assert_eq!(values.len(), ACCUMULATE_SET_CAP);
            assert_eq!(values[63], Value::U64(63));
            assert_eq!((*count, *overflow), (200, true));
        }
        other => panic!("{other:?}"),
    }
}

#[test]
fn snapshots_stay_as_they_were() {
    let mut agg = Aggregator::new(&engine(), AggregatorConfig::default());
    agg.ingest(&packet(vec![layer("eth", 1, 2, 0)], 0));
    let before = agg.snapshot();
    agg.ingest(&packet(vec![layer("eth", 1, 2, 0)], 1));
    assert_eq!(before.streams[0].stats[0].packets, 1);
    assert_eq!(agg.roots()[0].stats[0].packets, 2);
    assert_eq!(before.clock, 0);
    assert_eq!(agg.snapshot().clock, SEC);
}

#[test]
fn colliding_protocols_are_declined() {
    let twice = Engine::builder().plugin(proto("a")).plugin(proto("a")).build();
    assert!(matches!(twice, Err(BuildError::DuplicateName("a"))));
    let claimed = Engine::builder()
        .plugin(Proto {
            claims: &[RouteId::UdpPort(1), RouteId::UdpPort(2)],
            ..proto("a")
        })
        .plugin(Proto {
            claims: &[RouteId::TcpPort(2), RouteId::UdpPort(2)],
            ..proto("b")
        })
        .build();
    assert!(matches!(
        claimed,
        Err(BuildError::DuplicateClaim(RouteId::UdpPort(2)))
    ));
}

#[test]
fn stops_are_classed() {
    let of = |stop: StopReason| stop.class();
    assert_eq!(of(StopReason::Complete), StopClass::Clean);
    assert_eq!(
        of(StopReason::UnclaimedRoute(RouteId::UdpPort(9))),
        StopClass::UnknownPayload
    );
    assert_eq!(of(StopReason::NoHeuristicWinner), StopClass::UnknownPayload);
    assert_eq!(
        of(StopReason::PluginError(ParseError::Malformed("x"))),
        StopClass::Malformed
    );
    assert_eq!(of(StopReason::LayerLimit), StopClass::Suspicious);
}

#[test]
fn the_best_ranking_and_the_latest_samples_are_kept() {
    let config = UnknownRegistryConfig {
        max_groups: 2,
        samples_per_group: 2,
    };
    let mut reg = UnknownRegistry::new();
    let context = UnknownContext::NoHeuristicWinner { predecessor: "udp" };
    for (score, byte) in [(40u8, 1u8), (70, 2), (60, 3), (70, 4)] {
        let mut near_misses = NearMisses::new();
        near_misses.push(if byte == 4 { "later" } else { "earlier" }, Confidence::new(score));
        let diag = UnknownDiagnostics {
            context,
            near_misses,
            sample: vec![byte],
        };
        reg.ingest(&diag, u32::from(byte), i128::from(byte), None, config);
    }
    let group = reg.group(&UnknownKey::from(&context)).expect("a group");
    assert_eq!((group.count, group.bytes_total, group.bytes_min, group.bytes_max), (4, 10, 1, 4));
    assert_eq!(group.near_misses.as_slice(), &[("later", 70u8)][..]);
    let kept: Vec<Vec<u8>> = group.samples.iter().cloned().collect();
    assert_eq!(kept, [vec![3u8], vec![4]]);
}

#[test]
fn a_packet_without_room_is_told_beforehand() {
    let mut agg = Aggregator::new(&engine(), AggregatorConfig::default());
    let mut huge = packet(vec![layer("eth", 1, 2, 0)], 0);
    assert!(agg.has_room(&huge));
    agg.ingest(&huge);
    huge.meta.origlen = usize::MAX;
    assert!(!agg.has_room(&huge));
    huge.meta.origlen = 100;
    huge.meta.timestamp = i128::MAX;
    assert!(!agg.has_room(&huge));
}

#[test]
fn a_handle_out_of_date_stays_so_however_often_its_slot_is_reused() {
    let mut agg = live(1);
    agg.ingest(&packet(vec![layer("eth", 1, 2, 0)], 0));
    let first = agg.roots()[0].id;
    let mut given = vec![first];
    for n in 1..200u64 {
        agg.ingest(&packet(vec![layer("eth", 1, 2 + n, 0)], n as i128));
        assert_eq!(agg.len(), 1);
        let now = agg.roots()[0].id;
        for old in &given {
            assert!(agg.get(*old).is_none());
        }
        assert_eq!(agg.get(now).expect("live").id, now);
        given.push(now);
    }
    assert!(given.iter().filter(|id| id.index == first.index).count() > 50);
}

#[test]
fn flows_and_condensed_nodes_never_share_a_key() {
    let mut agg = Aggregator::new(
        &engine(),
        AggregatorConfig {
            condense_threshold: 2,
            ..AggregatorConfig::default()
        },
    );
    for n in 0..40u64 {
        for parent in 0..3u64 {
            let p = packet(
                vec![
                    layer("eth", parent, 100, 0),
                    layer("crowd", n % 20, 5 + n % 2, 0),
                ],
                n as i128,
            );
            agg.ingest(&p);
        }
    }
    let all = agg.streams();
    assert!(all.iter().any(|s| s.condensed.is_some()));
    assert!(all.iter().any(|s| s.protocol == "crowd" && s.condensed.is_none()));
    for a in &all {
        for b in &all {
            let same = a.parent == b.parent && a.protocol == b.protocol && a.key == b.key;
            assert_eq!(same, a.id == b.id);
        }
    }
    let under = |parent: usize| {
        agg.children(agg.roots()[parent].id)
            .iter()
            .map(|s| s.key.as_bytes().to_vec())
            .collect::<Vec<_>>()
    };
    assert_eq!(under(0), under(1));
    assert_eq!(under(0), under(2));
}

#[test]
fn the_rows_of_a_summary_add_up() {
    let mut agg = live(7);
    let stops = [
        StopReason::Complete,
        StopReason::UnclaimedRoute(RouteId::UdpPort(9)),
        StopReason::Complete,
    ];
    for n in 0..120u64 {
        let mut p = packet(
            vec![
                layer("eth", n % 5, 9, 0),
                layer("session", n % 11, 3, n % 3),
                layer("crowd", n, 1, 0),
            ],
            n as i128,
        );
        p.stop = stops[(n % 3) as usize];
        agg.ingest(&p);
        let s = agg.summary();
        assert_eq!(s.per_protocol.iter().map(|r| r.live).sum::<u64>(), s.streams_live);
        assert_eq!(s.streams_live, agg.len() as u64);
        assert_eq!(s.per_protocol.iter().map(|r| r.ever).sum::<u64>(), s.streams_created);
        assert_eq!(s.stop_classes.iter().map(|c| c.1).sum::<u64>(), s.packets);
        assert_eq!(s.packets, n + 1);
    }
    agg.finish();
    let s = agg.summary();
    assert_eq!(s.streams_live, 0);
    assert_eq!(s.per_protocol.iter().map(|r| r.live).sum::<u64>(), 0);
    assert_eq!(s.per_protocol.iter().map(|r| r.ever).sum::<u64>(), s.streams_created);
    assert_eq!(s.stop_classes.iter().map(|c| c.1).sum::<u64>(), 120);
}

#[test]
fn a_group_tells_of_all_its_occurrences() {
    let config = UnknownRegistryConfig {
        max_groups: 2,
        samples_per_group: 3,
    };
    let of = |n: u64, predecessor: ProtocolName| UnknownDiagnostics {
        context: UnknownContext::NoHeuristicWinner { predecessor },
        near_misses: NearMisses::new(),
        sample: vec![n as u8],
    };
    let endpoint = |n: u64| EndpointKey {
        protocol: "udp",
        key: FlowKey::from_bytes(&[(n % 70) as u8]),
    };
    let mut reg = UnknownRegistry::new();
    for n in 0..64u64 {
        reg.ingest(&of(n, "udp"), 10 + n as u32, 500 - n as i128, Some(endpoint(n)), config);
        reg.ingest(&of(n, "tcp"), 1, n as i128, None, config);
    }
    let key = UnknownKey {
        predecessor: "udp",
        route: None,
    };
    assert!(!reg.group(&key).expect("kept").endpoints_overflow);
    for n in 64..100u64 {
        reg.ingest(&of(n, "udp"), 10 + n as u32, 500 - n as i128, Some(endpoint(n)), config);
    }
    let g = reg.group(&key).expect("kept");
    assert_eq!(g.count, 100);
    assert_eq!(g.bytes_total, 1000 + 4950);
    assert_eq!((g.bytes_min, g.bytes_max), (10, 109));
    assert_eq!((g.first_seen, g.last_seen), (401, 500));
    assert_eq!(g.samples, [vec![97u8], vec![98], vec![99]]);
    assert_eq!(g.endpoints.len(), ACCUMULATE_SET_CAP);
    for (n, e) in g.endpoints.iter().enumerate() {
        assert_eq!(*e, endpoint(n as u64));
    }
    assert!(g.endpoints_overflow);
    let other = reg
        .group(&UnknownKey {
            predecessor: "tcp",
            route: None,
        })
        .expect("kept");
    assert_eq!((other.count, other.bytes_total), (64, 64));
    assert_eq!((other.first_seen, other.last_seen), (0, 63));
    assert!(other.endpoints.is_empty() && !other.endpoints_overflow);
}

use std::sync::Arc;

use pktflow::bytes::ParseError;
use pktflow::engine::Engine;
use pktflow::flows::state::{AggregatorConfig, DEFAULT_CONDENSE_THRESHOLD, EvictionPolicy};
use pktflow::flows::store::Aggregator;
use pktflow::flows::stream::CloseReason;
use pktflow::flows::unknown::UnknownRegistryConfig;
use pktflow::identity::{
    Canonicalize, CondenseSpec, KeyField, Lifecycle, LifecycleSpec, PacketDirection,
    StateName, StreamIdentity,
};
use pktflow::layer::{
    Confidence, LayerPlugin, LayerRecord, LinkType, PacketMeta, ParseCtx, ParsedLayer, RouteId,
};
use pktflow::packet::{DissectedPacket, StopReason};
use pktflow::value::{FieldMap, ProtocolName, Value};

const SEC: i128 = 1_000_000_000;

const PAIR_KEY: &[KeyField] = &[KeyField {
    a: "src",
    b: Some("dst"),
}];

struct Machine;

impl Lifecycle for Machine {
    fn advance(&self, fields: &FieldMap, state: StateName, _dir: PacketDirection) -> StateName {
        match fields.get("flag") {
            Some(Value::U64(9)) => "closed",
            _ => state,
        }
    }
}

const SESSION_IDENTITY: StreamIdentity = StreamIdentity {
    key: PAIR_KEY,
    canonicalize: Canonicalize::EndpointSort,
    lifecycle: Some(LifecycleSpec {
        initial: "open",
        machine: &Machine,
        closed_states: &["closed"],
    }),
    rollups: &[],
};
const PLAIN_IDENTITY: StreamIdentity = StreamIdentity {
    key: PAIR_KEY,
    canonicalize: Canonicalize::EndpointSort,
    lifecycle: None,
    rollups: &[],
};

struct Proto {
    name: ProtocolName,
    lifecycle: bool,
}

impl LayerPlugin for Proto {
    fn name(&self) -> ProtocolName {
        self.name
    }

    fn parse(&self, _bytes: &[u8], _ctx: &ParseCtx) -> Result<ParsedLayer, ParseError> {
        Err(ParseError::Malformed("ingest-only"))
    }

    fn claims(&self) -> &'static [RouteId] {
        &[]
    }

    fn stream_identity(&self) -> Option<StreamIdentity> {
        Some(if self.lifecycle {
            SESSION_IDENTITY
        } else {
            PLAIN_IDENTITY
        })
    }

    fn condense(&self) -> Option<CondenseSpec> {
        None
    }

    fn has_probe(&self) -> bool {
        false
    }

    fn probe(&self, _bytes: &[u8], _ctx: &ParseCtx) -> Option<Confidence> {
        None
    }

    fn expected_predecessors(&self) -> &'static [ProtocolName] {
        &[]
    }
}

fn engine() -> Arc<Engine> {
    Arc::new(
        Engine::builder()
            .plugin(Proto {
                name: "eth",
                lifecycle: false,
            })
            .plugin(Proto {
                name: "session",
                lifecycle: true,
            })
            .build()
            .expect("valid registry"),
    )
}

fn live_aggregator(max_streams: usize) -> Aggregator {
    let config = AggregatorConfig {
        eviction: EvictionPolicy::Live {
            idle_timeout: 300 * SEC as u128,
            close_linger: 15 * SEC as u128,
            max_streams,
        },
        sink: true,
        condense_threshold: DEFAULT_CONDENSE_THRESHOLD,
        rollup_series_default_cap: 1024,
        rollup_series_max_cap: None,
        unknown: UnknownRegistryConfig::default(),
    };
    Aggregator::new(&engine(), config)
}

fn layer(protocol: ProtocolName, src: u64, dst: u64, flag: u64) -> LayerRecord {
    let mut fields = FieldMap::new();
    fields.insert("src", Value::U64(src));
    fields.insert("dst", Value::U64(dst));
    fields.insert("flag", Value::U64(flag));
    LayerRecord {
        protocol,
        offset: 0,
        header_len: 0,
        fields,
    }
}

fn packet(layers: Vec<LayerRecord>, secs: u64) -> DissectedPacket {
    DissectedPacket {
        meta: PacketMeta {
            timestamp: i128::from(secs) * SEC,
            caplen: 64,
            origlen: 64,
            link_type: LinkType(1),
        },
        layers,
        stop: StopReason::Complete,
        opaque_len: 0,
        unknown: None,
    }
}

/// What left since the last call.
fn drained(agg: &mut Aggregator) -> Vec<(ProtocolName, CloseReason)> {
    agg.take_evicted()
        .iter()
        .map(|e| (e.stream.protocol, e.reason))
        .collect()
}

#[test]
fn all_four_close_reasons_are_reachable() {
    // ProtocolClose: lifecycle closes at t=0; clock advances past the 15s
    // linger via an unrelated stream's packet.
    let mut agg = live_aggregator(1_000_000);
    agg.ingest(&packet(vec![layer("session", 1, 2, 9)], 0));
    agg.ingest(&packet(vec![layer("eth", 8, 9, 0)], 16));
    assert_eq!(drained(&mut agg), vec![("session", CloseReason::ProtocolClose)]);

    // IdleTimeout: silent for 301s.
    let mut agg = live_aggregator(1_000_000);
    agg.ingest(&packet(vec![layer("eth", 1, 2, 0)], 0));
    agg.ingest(&packet(vec![layer("eth", 8, 9, 0)], 301));
    assert_eq!(drained(&mut agg), vec![("eth", CloseReason::IdleTimeout)]);

    // LruEvicted: see the cap test below; CaptureEnd: finish().
    let mut agg = live_aggregator(1);
    agg.ingest(&packet(vec![layer("eth", 1, 2, 0)], 0));
    agg.ingest(&packet(vec![layer("eth", 3, 4, 0)], 1));
    assert_eq!(drained(&mut agg), vec![("eth", CloseReason::LruEvicted)]);

    let mut agg = live_aggregator(1_000_000);
    agg.ingest(&packet(vec![layer("eth", 1, 2, 0)], 0));
    agg.finish();
    assert_eq!(drained(&mut agg), vec![("eth", CloseReason::CaptureEnd)]);
}

#[test]
fn leaf_first_parent_survives_until_its_child_goes() {
    let mut agg = live_aggregator(1_000_000);
    // eth ▸ session, both silent from t=0; unrelated packet at t=301
    // sweeps them.
    agg.ingest(&packet(
        vec![layer("eth", 1, 2, 0), layer("session", 10, 20, 0)],
        0,
    ));
    agg.ingest(&packet(vec![layer("eth", 8, 9, 0)], 301));

    // Both fell, child strictly before parent — the parent was skipped
    // while its child lived and re-armed by the child's eviction.
    assert_eq!(
        drained(&mut agg),
        vec![
            ("session", CloseReason::IdleTimeout),
            ("eth", CloseReason::IdleTimeout),
        ]
    );
    assert_eq!(agg.len(), 1, "only the fresh unrelated stream remains");
}

#[test]
fn max_streams_evicts_exactly_k_lru_leaves() {
    let mut agg = live_aggregator(3);
    // Five root leaves, oldest first (cap + k with k = 2).
    for i in 0..5u64 {
        agg.ingest(&packet(vec![layer("eth", i * 2 + 1, i * 2 + 2, 0)], i));
    }

    let evicted = drained(&mut agg);
    assert_eq!(evicted.len(), 2, "exactly k evictions");
    assert!(evicted
        .iter()
        .all(|&(_, reason)| reason == CloseReason::LruEvicted));
    assert_eq!(agg.len(), 3);

    // The survivors are the three most recently updated.
    let survivors: Vec<u64> = {
        let mut firsts: Vec<_> = agg
            .streams()
            .into_iter()
            .map(|s| {
                (s.first_seen / SEC) as u64
            })
            .collect();
        firsts.sort_unstable();
        firsts
    };
    assert_eq!(survivors, [2, 3, 4]);
}

#[test]
fn post_eviction_recurrence_is_a_fresh_stream_and_old_handles_fail() {
    let mut agg = live_aggregator(1_000_000);
    agg.ingest(&packet(vec![layer("eth", 1, 2, 0)], 0));
    let old_id = agg.streams().into_iter().next().expect("stream").id;

    // Idle out, then the same key recurs.
    agg.ingest(&packet(vec![layer("eth", 8, 9, 0)], 301));
    assert!(agg.get(old_id).is_none(), "evicted");

    agg.ingest(&packet(vec![layer("eth", 1, 2, 0)], 302));
    let new_id = agg
        .streams()
        .into_iter()
        .find(|s| s.first_seen == 302 * SEC)
        .expect("recurred stream")
        .id;
    assert_ne!(old_id, new_id, "new generation, no ABA");
    assert!(agg.get(old_id).is_none(), "stale handle still fails");
    assert_eq!(agg.totals().streams_created, 3);
    // Aggregate counters survived the eviction.
    assert_eq!(agg.totals().packets, 3);
}

#[test]
fn offline_finish_retains_closed_streams_for_the_final_report() {
    let config = AggregatorConfig {
        eviction: EvictionPolicy::Never,
        sink: true,
        condense_threshold: DEFAULT_CONDENSE_THRESHOLD,
        rollup_series_default_cap: 1024,
        rollup_series_max_cap: None,
        unknown: UnknownRegistryConfig::default(),
    };
    let mut agg = Aggregator::new(&engine(), config);
    agg.ingest(&packet(
        vec![layer("eth", 1, 2, 0), layer("session", 10, 20, 0)],
        0,
    ));

    agg.finish();

    // Sink saw everything, children before parents.
    assert_eq!(
        drained(&mut agg),
        vec![
            ("session", CloseReason::CaptureEnd),
            ("eth", CloseReason::CaptureEnd),
        ]
    );
    // Store still queryable: streams retained, marked closed.
    assert_eq!(agg.len(), 2);
    assert!(agg
        .streams()
        .into_iter()
        .all(|s| s.closed == Some(CloseReason::CaptureEnd)));
}

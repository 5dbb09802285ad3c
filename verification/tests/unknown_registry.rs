use pktflow::flows::rollup::ACCUMULATE_SET_CAP;
use pktflow::flows::unknown::{EndpointKey, UnknownKey, UnknownRegistry, UnknownRegistryConfig};
use pktflow::identity::FlowKey;
use pktflow::layer::{Confidence, RouteId};
use pktflow::packet::{UnknownContext, UnknownDiagnostics};
use pktflow::small::NearMisses;
use pktflow::value::ProtocolName;

const SEC: i128 = 1_000_000_000;

fn ctx_route(predecessor: ProtocolName, route: RouteId) -> UnknownContext {
    UnknownContext::UnclaimedRoute { predecessor, route }
}

fn ranked(pairs: &[(ProtocolName, u8)]) -> NearMisses {
    let mut list = NearMisses::new();
    for &(name, score) in pairs {
        list.push(name, Confidence::new(score));
    }
    list
}

fn diag(context: UnknownContext, near_misses: &[(ProtocolName, u8)]) -> UnknownDiagnostics {
    UnknownDiagnostics {
        context,
        near_misses: ranked(near_misses),
        sample: vec![0xAB; 4],
    }
}

fn ts(secs: u64) -> i128 {
    i128::from(secs) * SEC
}

#[test]
fn ingest_updates_existing_group_and_creates_new_ones() {
    let mut reg = UnknownRegistry::new();
    let cfg = UnknownRegistryConfig::default();
    let a = ctx_route("udp", RouteId::UdpPort(4433));
    let b = UnknownContext::NoHeuristicWinner { predecessor: "eth" };

    reg.ingest(&diag(a, &[]), 10, ts(0), None, cfg);
    reg.ingest(&diag(b, &[]), 20, ts(1), None, cfg);
    reg.ingest(&diag(a, &[]), 30, ts(2), None, cfg);

    let a_key = UnknownKey::from(&a);
    let group_a = reg.group(&a_key).expect("group a exists");
    assert_eq!(group_a.count, 2);
    assert_eq!(group_a.bytes_total, 40);
    assert_eq!(group_a.bytes_min, 10);
    assert_eq!(group_a.bytes_max, 30);
    assert_eq!(group_a.first_seen, ts(0));
    assert_eq!(group_a.last_seen, ts(2));

    let b_key = UnknownKey::from(&b);
    let group_b = reg.group(&b_key).expect("group b exists");
    assert_eq!(group_b.count, 1);
    assert_eq!(group_b.bytes_total, 20);

    assert_eq!(reg.groups().len(), 2);
}

#[test]
fn max_groups_evicts_exactly_the_coldest() {
    let mut reg = UnknownRegistry::new();
    let cfg = UnknownRegistryConfig {
        max_groups: 3,
        samples_per_group: 5,
    };
    for port in 0..5u16 {
        let ctx = ctx_route("udp", RouteId::UdpPort(port));
        reg.ingest(&diag(ctx, &[]), 1, ts(u64::from(port)), None, cfg);
    }
    // 5 distinct groups inserted, cap 3: the 2 coldest (ports 0, 1) evicted.
    assert_eq!(reg.groups().len(), 3);
    assert!(reg
        .group(&UnknownKey::from(&ctx_route("udp", RouteId::UdpPort(0))))
        .is_none());
    assert!(reg
        .group(&UnknownKey::from(&ctx_route("udp", RouteId::UdpPort(1))))
        .is_none());
    assert!(reg
        .group(&UnknownKey::from(&ctx_route("udp", RouteId::UdpPort(4))))
        .is_some());
}

#[test]
fn samples_per_group_keeps_the_k_most_recent_byte_identical() {
    let mut reg = UnknownRegistry::new();
    let cfg = UnknownRegistryConfig {
        max_groups: 10,
        samples_per_group: 3,
    };
    let ctx = ctx_route("udp", RouteId::UdpPort(53));
    for i in 0..5u8 {
        let mut d = diag(ctx, &[]);
        d.sample = vec![i; 4];
        reg.ingest(&d, 1, ts(u64::from(i)), None, cfg);
    }
    let group = reg.group(&UnknownKey::from(&ctx)).expect("group exists");
    assert_eq!(group.samples.len(), 3);
    let bytes: Vec<u8> = group.samples.iter().map(|s| s[0]).collect();
    assert_eq!(bytes, [2, 3, 4], "oldest two overwritten, ring order kept");
}

#[test]
fn near_misses_keep_the_best_ever_seen_ties_to_most_recent() {
    let mut reg = UnknownRegistry::new();
    let cfg = UnknownRegistryConfig::default();
    let ctx = ctx_route("udp", RouteId::UdpPort(53));

    reg.ingest(&diag(ctx, &[("a", 40)]), 1, ts(0), None, cfg);
    reg.ingest(&diag(ctx, &[("b", 90)]), 1, ts(1), None, cfg);
    // Lower top score than the stored 90: must not overwrite.
    reg.ingest(&diag(ctx, &[("c", 20)]), 1, ts(2), None, cfg);
    let group = reg.group(&UnknownKey::from(&ctx)).expect("group exists");
    assert_eq!(group.near_misses.as_slice(), [("b", 90)]);

    // Tie at 90: most recent wins.
    reg.ingest(&diag(ctx, &[("d", 90)]), 1, ts(3), None, cfg);
    let group = reg.group(&UnknownKey::from(&ctx)).expect("group exists");
    assert_eq!(group.near_misses.as_slice(), [("d", 90)]);
}

#[test]
fn endpoints_dedupe_and_cap_with_overflow_flag() {
    let mut reg = UnknownRegistry::new();
    let cfg = UnknownRegistryConfig::default();
    let ctx = ctx_route("udp", RouteId::UdpPort(53));

    for i in 0..(ACCUMULATE_SET_CAP + 2) {
        let ep = EndpointKey {
            protocol: "ip",
            key: FlowKey::from_bytes(&(i as u32).to_be_bytes()),
        };
        reg.ingest(&diag(ctx, &[]), 1, ts(i as u64), Some(ep), cfg);
    }
    let group = reg.group(&UnknownKey::from(&ctx)).expect("group exists");
    assert_eq!(group.endpoints.len(), ACCUMULATE_SET_CAP);
    assert!(group.endpoints_overflow);

    // A repeated endpoint never grows the set beyond the cap.
    let repeat_key = group.endpoints[0].clone();
    let before = group.endpoints.len();
    reg.ingest(&diag(ctx, &[]), 1, ts(999), Some(repeat_key), cfg);
    let group = reg.group(&UnknownKey::from(&ctx)).expect("group exists");
    assert_eq!(group.endpoints.len(), before);
}

#[test]
fn groups_ordering_is_deterministic_across_identical_runs() {
    let run = || {
        let mut reg = UnknownRegistry::new();
        let cfg = UnknownRegistryConfig::default();
        reg.ingest(
            &diag(ctx_route("udp", RouteId::UdpPort(1)), &[]),
            1,
            ts(0),
            None,
            cfg,
        );
        reg.ingest(
            &diag(ctx_route("udp", RouteId::UdpPort(2)), &[]),
            1,
            ts(1),
            None,
            cfg,
        );
        reg.ingest(
            &diag(ctx_route("udp", RouteId::UdpPort(2)), &[]),
            1,
            ts(2),
            None,
            cfg,
        );
        reg.groups()
            .into_iter()
            .map(|g| g.key.clone())
            .collect::<Vec<_>>()
    };
    assert_eq!(run(), run());
}

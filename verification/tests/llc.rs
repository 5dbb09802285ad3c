use pktflow::layer::{
    Depth, Hint, LayerPlugin, LayerRecord, LinkType, PacketMeta, ParseCtx,
    RouteId,
};
use pktflow::plugins::llc::{CONTROL, DSAP, Llc, OUI, PID, SSAP};
use pktflow::value::{FieldMap, Value};

fn meta(len: usize) -> PacketMeta {
    PacketMeta {
        timestamp: 0,
        caplen: len,
        origlen: len,
        link_type: LinkType(1),
    }
}

fn ctx(depth: Depth, meta: &PacketMeta) -> ParseCtx<'_> {
    ParseCtx::new(&[], depth, meta)
}

/// STP-shaped: dsap=ssap=0x42 (802.1D Bridge Group SAP), U-format
/// control 0x03.
fn stp_shaped() -> Vec<u8> {
    vec![0x42, 0x42, 0x03]
}

/// CDP-shaped SNAP: dsap=ssap=0xAA, control 0x03, OUI 00-00-0C
/// (Cisco), PID 0x2000 (CDP).
fn cdp_shaped() -> Vec<u8> {
    vec![0xAA, 0xAA, 0x03, 0x00, 0x00, 0x0C, 0x20, 0x00]
}

/// RFC 1042 IP-over-SNAP: OUI 0, PID 0x0800 (IPv4) — the branch that
/// reuses the real EtherType space.
fn rfc1042_ip() -> Vec<u8> {
    vec![0xAA, 0xAA, 0x03, 0x00, 0x00, 0x00, 0x08, 0x00]
}

#[test]
fn claims_the_eth_llc_frame_route() {
    assert_eq!(
        Llc.claims(),
        &[RouteId::Custom {
            space: "eth_llc_frame",
            id: 0
        }]
    );
}

#[test]
fn stp_shaped_frame_routes_via_llc_dsap_custom_space() {
    let bytes = stp_shaped();
    let m = meta(bytes.len());
    let parsed = Llc.parse(&bytes, &ctx(Depth::Full, &m)).expect("valid LLC");
    assert_eq!(parsed.header_len, 3);
    assert_eq!(parsed.fields.get(DSAP), Some(&Value::U64(0x42)));
    assert_eq!(parsed.fields.get(SSAP), Some(&Value::U64(0x42)));
    assert_eq!(parsed.fields.get(CONTROL), Some(&Value::U64(0x03)));
    assert_eq!(parsed.fields.get(OUI), None);
    assert_eq!(
        parsed.hint,
        Hint::Route(RouteId::Custom {
            space: "llc_dsap",
            id: 0x42
        })
    );
}

#[test]
fn cdp_shaped_frame_routes_via_snap_pid_custom_space() {
    let bytes = cdp_shaped();
    let m = meta(bytes.len());
    let parsed = Llc
        .parse(&bytes, &ctx(Depth::Full, &m))
        .expect("valid SNAP");
    assert_eq!(parsed.header_len, 8);
    assert_eq!(parsed.fields.get(OUI), Some(&Value::U64(0x00000C)));
    assert_eq!(parsed.fields.get(PID), Some(&Value::U64(0x2000)));
    assert_eq!(
        parsed.hint,
        Hint::Route(RouteId::Custom {
            space: "snap_pid",
            id: (0x00000Cu64 << 16) | 0x2000,
        })
    );
}

#[test]
fn rfc1042_snap_reuses_the_ethertype_space() {
    let bytes = rfc1042_ip();
    let m = meta(bytes.len());
    let parsed = Llc
        .parse(&bytes, &ctx(Depth::Full, &m))
        .expect("valid SNAP");
    assert_eq!(parsed.hint, Hint::Route(RouteId::EtherType(0x0800)));
}

#[test]
fn i_format_control_field_is_two_bytes() {
    // dsap/ssap = 0xE0 (IPX), control = I-format (low bits 0b00):
    // first byte N(S)<<1, second byte N(R)<<1|P.
    let bytes = vec![0xE0, 0xE0, 0b0000_0100, 0b0000_0010];
    let m = meta(bytes.len());
    let parsed = Llc.parse(&bytes, &ctx(Depth::Full, &m)).expect("valid LLC");
    assert_eq!(parsed.header_len, 4);
    assert_eq!(
        parsed.fields.get(CONTROL),
        Some(&Value::U64(0x0402)),
        "two control bytes combined big-endian"
    );
    assert_eq!(
        parsed.hint,
        Hint::Route(RouteId::Custom {
            space: "llc_dsap",
            id: 0xE0
        })
    );
}

#[test]
fn structural_depth_omits_snap_fields() {
    let bytes = cdp_shaped();
    let m = meta(bytes.len());
    let parsed = Llc
        .parse(&bytes, &ctx(Depth::Structure, &m))
        .expect("valid SNAP");
    assert_eq!(parsed.fields.get(DSAP), Some(&Value::U64(0xAA)));
    assert_eq!(parsed.fields.get(OUI), None);
    assert_eq!(parsed.fields.get(PID), None);
}

#[test]
fn llc_truncated_frames_decline() {
    for bytes in [stp_shaped(), cdp_shaped(), rfc1042_ip()] {
        let m = meta(bytes.len());
        for n in 0..bytes.len() {
            let full_ctx = ctx(Depth::Full, &m);
            assert!(
                Llc.parse(&bytes[..n], &full_ctx).is_err(),
                "prefix of {n}/{} bytes must decline",
                bytes.len()
            );
        }
    }
}

#[test]
fn probe_scores_the_base_signal_on_well_known_saps() {
    let bytes = stp_shaped();
    let m = meta(bytes.len());
    let score = Llc
        .probe(&bytes, &ctx(Depth::Full, &m))
        .expect("well-known SAPs + valid control probe")
        .get();
    assert_eq!(score, 55);
}

#[test]
fn probe_declines_on_an_unrecognized_sap() {
    let bytes = vec![0x01, 0x01, 0x03]; // not in WELL_KNOWN_SAPS
    let m = meta(bytes.len());
    assert_eq!(Llc.probe(&bytes, &ctx(Depth::Full, &m)), None);
}

#[test]
fn probe_declines_on_a_short_buffer() {
    let m = meta(2);
    assert_eq!(Llc.probe(&[0x42, 0x42], &ctx(Depth::Full, &m)), None);
}

fn eth_layer_with_dst_mac(mac: [u8; 6]) -> LayerRecord {
    let mut fields = FieldMap::new();
    fields.insert("dst_mac", Value::from(&mac[..]));
    LayerRecord {
        protocol: "ethernet",
        offset: 0,
        header_len: 14,
        fields,
    }
}

#[test]
fn probe_boost_wins_on_ieee_bridge_group_destination_even_with_a_weak_base_signal() {
    // Atypical control byte (not U-format, and buffer too short for a
    // second control byte) — base signal alone would fail — but the
    // dst_mac boost still wins outright at 90.
    let bytes = vec![0x42, 0x42, 0x00];
    let outer = [eth_layer_with_dst_mac([0x01, 0x80, 0xC2, 0x00, 0x00, 0x00])];
    let m = meta(bytes.len());
    let parse_ctx = ParseCtx::new(&outer, Depth::Full, &m);
    let score = Llc.probe(&bytes, &parse_ctx).expect("boosted").get();
    assert_eq!(score, 90);
}

#[test]
fn probe_boost_wins_on_cisco_multicast_destination() {
    let bytes = cdp_shaped();
    let outer = [eth_layer_with_dst_mac([0x01, 0x00, 0x0C, 0xCC, 0xCC, 0xCC])];
    let m = meta(bytes.len());
    let parse_ctx = ParseCtx::new(&outer, Depth::Full, &m);
    let score = Llc.probe(&bytes, &parse_ctx).expect("boosted").get();
    assert_eq!(score, 90);
}

#[test]
fn probe_base_signal_still_wins_with_an_unreserved_destination() {
    // Well-formed DSAP/control pattern but a dst_mac outside both
    // reserved blocks: the boost doesn't fire, but the base 55 still
    // gets it into the fallback pool (additive confidence, not a hard
    // requirement — verified as two independent cases).
    let bytes = stp_shaped();
    let outer = [eth_layer_with_dst_mac([0x00, 0x1A, 0x2B, 0x3C, 0x4D, 0x5E])];
    let m = meta(bytes.len());
    let parse_ctx = ParseCtx::new(&outer, Depth::Full, &m);
    let score = Llc.probe(&bytes, &parse_ctx).expect("base signal").get();
    assert_eq!(score, 55);
}

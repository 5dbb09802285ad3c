use pktflow::layer::{Depth, Hint, LayerPlugin, LinkType, PacketMeta, ParseCtx};
use pktflow::plugins::lacp::{
    ACTOR_KEY, ACTOR_STATE, ACTOR_SYSTEM, COLLECTOR_TLV_LEN, LACP_SUBTYPE, Lacp, PARTNER_KEY,
    PARTNER_SYSTEM, TLV_ACTOR, TLV_COLLECTOR, TLV_PARTNER, TLV_TERMINATOR,
};
use pktflow::value::Value;

const ACTOR_PARTNER_TLV_LEN: u8 = 0x14;
const RESERVED_TRAILER_LEN: usize = 50;

fn meta(len: usize) -> PacketMeta {
    PacketMeta {
        timestamp: 0,
        caplen: len,
        origlen: len,
        link_type: LinkType(1),
    }
}

fn ctx(depth: Depth, meta: &PacketMeta) -> ParseCtx<'_> {
    ParseCtx::new(&[], depth, meta)
}

fn endpoint_tlv(t: u8, system: [u8; 6], key: u16, port: u16, state: u8) -> Vec<u8> {
    let mut b = vec![t, ACTOR_PARTNER_TLV_LEN];
    b.extend_from_slice(&0x8000u16.to_be_bytes()); // system priority
    b.extend_from_slice(&system);
    b.extend_from_slice(&key.to_be_bytes());
    b.extend_from_slice(&0x8000u16.to_be_bytes()); // port priority
    b.extend_from_slice(&port.to_be_bytes());
    b.push(state);
    b.extend_from_slice(&[0, 0, 0]); // reserved
    b
}

/// A real-shaped LACPDU (802.3-2018 Clause 43): two aggregation-group
/// members negotiating, both sides synchronized/collecting/
/// distributing (state 0x3D: activity|aggregation|sync|collecting|
/// distributing).
fn fixture() -> Vec<u8> {
    let mut b = vec![LACP_SUBTYPE, 0x01]; // subtype, version 1
    b.extend_from_slice(&endpoint_tlv(
        TLV_ACTOR,
        [0x00, 0x1A, 0x2B, 0x3C, 0x4D, 0x5E],
        1,
        1,
        0x3D,
    ));
    b.extend_from_slice(&endpoint_tlv(
        TLV_PARTNER,
        [0x00, 0x1B, 0x44, 0x11, 0x3A, 0xB7],
        2,
        2,
        0x3D,
    ));
    b.push(TLV_COLLECTOR);
    b.push(COLLECTOR_TLV_LEN);
    b.extend_from_slice(&[0; 14]); // max delay + reserved
    b.push(TLV_TERMINATOR);
    b.push(0x00);
    b.extend_from_slice(&[0; RESERVED_TRAILER_LEN]);
    b
}

#[test]
fn parses_the_fixture_lacpdu() {
    let bytes = fixture();
    let m = meta(bytes.len());
    let parsed = Lacp
        .parse(&bytes, &ctx(Depth::Full, &m))
        .expect("valid LACPDU");
    assert_eq!(parsed.header_len, 110, "fixed LACPDU size");
    assert_eq!(parsed.hint, Hint::Terminal);
    assert_eq!(
        parsed.fields.get(ACTOR_SYSTEM),
        Some(&Value::from(&[0x00, 0x1A, 0x2B, 0x3C, 0x4D, 0x5E][..]))
    );
    assert_eq!(
        parsed.fields.get(PARTNER_SYSTEM),
        Some(&Value::from(&[0x00, 0x1B, 0x44, 0x11, 0x3A, 0xB7][..]))
    );
    assert_eq!(parsed.fields.get(ACTOR_KEY), Some(&Value::U64(1)));
    assert_eq!(parsed.fields.get(PARTNER_KEY), Some(&Value::U64(2)));
    assert_eq!(parsed.fields.get(ACTOR_STATE), Some(&Value::U64(0x3D)));
}

#[test]
fn keys_depth_has_only_the_system_fields() {
    let bytes = fixture();
    let m = meta(bytes.len());
    let parsed = Lacp
        .parse(&bytes, &ctx(Depth::Keys, &m))
        .expect("valid LACPDU");
    assert_eq!(parsed.fields.len(), 2);
    assert_eq!(parsed.fields.get(ACTOR_KEY), None);
}

#[test]
fn non_lacp_subtype_declines_not_route_miss() {
    let mut bytes = fixture();
    bytes[0] = 0x02; // Marker protocol subtype
    let m = meta(bytes.len());
    assert!(Lacp.parse(&bytes, &ctx(Depth::Full, &m)).is_err());
}

#[test]
fn actor_before_partner_is_enforced() {
    let mut bytes = fixture();
    bytes[2] = TLV_PARTNER; // swap the actor TLV's type byte
    let m = meta(bytes.len());
    assert!(Lacp.parse(&bytes, &ctx(Depth::Full, &m)).is_err());
}

#[test]
fn lacp_truncated_frames_decline() {
    let bytes = fixture();
    let m = meta(bytes.len());
    for n in 0..bytes.len() {
        let full_ctx = ctx(Depth::Full, &m);
        assert!(
            Lacp.parse(&bytes[..n], &full_ctx).is_err(),
            "prefix of {n}/{} bytes must decline",
            bytes.len()
        );
    }
}

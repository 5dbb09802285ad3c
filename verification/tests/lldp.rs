use pktflow::layer::{Depth, Hint, LayerPlugin, LinkType, PacketMeta, ParseCtx};
use pktflow::plugins::lldp::{
    CAPABILITIES, CHASSIS_ID, CHASSIS_ID_SUBTYPE, Lldp, MANAGEMENT_ADDRESS, PORT_ID,
    PORT_ID_SUBTYPE, SYSTEM_DESCRIPTION, SYSTEM_NAME, TLV_CHASSIS_ID, TLV_END,
    TLV_MANAGEMENT_ADDRESS, TLV_PORT_ID, TLV_SYSTEM_CAPABILITIES, TLV_SYSTEM_DESCRIPTION,
    TLV_SYSTEM_NAME, TLV_TTL, TTL,
};
use pktflow::value::Value;

fn tlv(t: u8, value: &[u8]) -> Vec<u8> {
    let header = (u16::from(t) << 9) | (value.len() as u16);
    let mut out = header.to_be_bytes().to_vec();
    out.extend_from_slice(value);
    out
}

/// A real-shaped LLDPDU: MAC-address chassis ID, interface-name port
/// ID, TTL 120s, system name/description, capabilities (bridge
/// enabled, router supported but not enabled), and a management
/// address TLV — then the End sentinel.
fn fixture() -> Vec<u8> {
    let mut b = Vec::new();
    b.extend_from_slice(&tlv(
        TLV_CHASSIS_ID,
        &[4, 0x00, 0x1A, 0x2B, 0x3C, 0x4D, 0x5E], // subtype 4: MAC address
    ));
    b.extend_from_slice(&tlv(TLV_PORT_ID, b"\x05Gi0/1")); // subtype 5: interface name
    b.extend_from_slice(&tlv(TLV_TTL, &120u16.to_be_bytes()));
    b.extend_from_slice(&tlv(TLV_SYSTEM_NAME, b"switch1.example.net"));
    b.extend_from_slice(&tlv(
        TLV_SYSTEM_DESCRIPTION,
        b"ExampleOS 1.0, Enterprise Switch",
    ));
    // system caps: bridge(0x04)|router(0x10)=0x14; enabled: bridge only.
    b.extend_from_slice(&tlv(TLV_SYSTEM_CAPABILITIES, &[0x00, 0x14, 0x00, 0x04]));
    // Management address TLV (§8.5.9): addr-string-len(5) + subtype(1,
    // IPv4) + 192.0.2.1 + if-numbering-subtype(2, ifIndex) + if-num(5)
    // + OID-len(0).
    b.extend_from_slice(&tlv(
        TLV_MANAGEMENT_ADDRESS,
        &[5, 1, 192, 0, 2, 1, 2, 0, 0, 0, 5, 0],
    ));
    b.extend_from_slice(&tlv(TLV_END, &[]));
    b
}

fn ctx_for(depth: Depth, meta: &PacketMeta) -> ParseCtx<'_> {
    ParseCtx::new(&[], depth, meta)
}

fn meta(len: usize) -> PacketMeta {
    PacketMeta {
        timestamp: 0,
        caplen: len,
        origlen: len,
        link_type: LinkType(1),
    }
}

#[test]
fn lldp_parses_the_fixture_frame() {
    let bytes = fixture();
    let m = meta(bytes.len());
    let ctx = ctx_for(Depth::Full, &m);
    let parsed = Lldp.parse(&bytes, &ctx).expect("valid LLDPDU");

    assert_eq!(parsed.header_len, bytes.len());
    assert_eq!(parsed.hint, Hint::Terminal);
    assert_eq!(parsed.fields.get(CHASSIS_ID_SUBTYPE), Some(&Value::U64(4)));
    assert_eq!(
        parsed.fields.get(CHASSIS_ID),
        Some(&Value::from(&[0x00, 0x1A, 0x2B, 0x3C, 0x4D, 0x5E][..]))
    );
    assert_eq!(parsed.fields.get(PORT_ID_SUBTYPE), Some(&Value::U64(5)));
    assert_eq!(
        parsed.fields.get(PORT_ID),
        Some(&Value::from(&b"Gi0/1"[..]))
    );
    assert_eq!(parsed.fields.get(TTL), Some(&Value::U64(120)));
    assert_eq!(
        parsed.fields.get(SYSTEM_NAME),
        Some(&Value::from("switch1.example.net"))
    );
    assert_eq!(
        parsed.fields.get(SYSTEM_DESCRIPTION),
        Some(&Value::from("ExampleOS 1.0, Enterprise Switch"))
    );
    assert_eq!(parsed.fields.get(CAPABILITIES), Some(&Value::U64(0x04)));
    assert_eq!(
        parsed.fields.get(MANAGEMENT_ADDRESS),
        Some(&Value::from(&[5u8, 1, 192, 0, 2, 1, 2, 0, 0, 0, 5, 0][..]))
    );
}

#[test]
fn structural_depth_omits_optional_fields() {
    let bytes = fixture();
    let m = meta(bytes.len());
    let ctx = ctx_for(Depth::Structure, &m);
    let parsed = Lldp.parse(&bytes, &ctx).expect("valid LLDPDU");

    assert_eq!(parsed.fields.get(TTL), Some(&Value::U64(120)));
    assert_eq!(parsed.fields.get(SYSTEM_NAME), None);
    assert_eq!(parsed.fields.get(CAPABILITIES), None);
}

#[test]
fn minimal_lldpdu_with_no_optional_tlvs_still_parses() {
    let mut b = Vec::new();
    b.extend_from_slice(&tlv(TLV_CHASSIS_ID, &[7, b'e', b'0']));
    b.extend_from_slice(&tlv(TLV_PORT_ID, &[7, b'p', b'1']));
    b.extend_from_slice(&tlv(TLV_TTL, &30u16.to_be_bytes()));
    b.extend_from_slice(&tlv(TLV_END, &[]));

    let m = meta(b.len());
    let ctx = ctx_for(Depth::Full, &m);
    let parsed = Lldp.parse(&b, &ctx).expect("minimal LLDPDU parses");
    assert_eq!(parsed.header_len, b.len());
    assert_eq!(parsed.fields.get(SYSTEM_NAME), None);
}

#[test]
fn unknown_optional_tlv_is_skipped_by_its_own_length() {
    let mut b = Vec::new();
    b.extend_from_slice(&tlv(TLV_CHASSIS_ID, &[7, b'e', b'0']));
    b.extend_from_slice(&tlv(TLV_PORT_ID, &[7, b'p', b'1']));
    b.extend_from_slice(&tlv(TLV_TTL, &30u16.to_be_bytes()));
    b.extend_from_slice(&tlv(127, &[0xDE, 0xAD, 0xBE, 0xEF])); // org-specific, unhandled
    b.extend_from_slice(&tlv(TLV_SYSTEM_NAME, b"still-parsed"));
    b.extend_from_slice(&tlv(TLV_END, &[]));

    let m = meta(b.len());
    let ctx = ctx_for(Depth::Full, &m);
    let parsed = Lldp
        .parse(&b, &ctx)
        .expect("unknown TLV skipped, not fatal");
    assert_eq!(
        parsed.fields.get(SYSTEM_NAME),
        Some(&Value::from("still-parsed"))
    );
}

#[test]
fn wrong_mandatory_tlv_order_declines() {
    // Port ID TLV first: not LLDP's fixed order.
    let mut b = Vec::new();
    b.extend_from_slice(&tlv(TLV_PORT_ID, &[7, b'p', b'1']));
    b.extend_from_slice(&tlv(TLV_CHASSIS_ID, &[7, b'e', b'0']));
    b.extend_from_slice(&tlv(TLV_TTL, &30u16.to_be_bytes()));
    b.extend_from_slice(&tlv(TLV_END, &[]));

    let m = meta(b.len());
    let ctx = ctx_for(Depth::Full, &m);
    assert!(Lldp.parse(&b, &ctx).is_err());
}

#[test]
fn missing_end_tlv_declines_instead_of_looping() {
    // No End-of-LLDPDU sentinel and no more bytes: bounded by
    // ByteReader, not an infinite loop.
    let mut b = Vec::new();
    b.extend_from_slice(&tlv(TLV_CHASSIS_ID, &[7, b'e', b'0']));
    b.extend_from_slice(&tlv(TLV_PORT_ID, &[7, b'p', b'1']));
    b.extend_from_slice(&tlv(TLV_TTL, &30u16.to_be_bytes()));

    let m = meta(b.len());
    let ctx = ctx_for(Depth::Full, &m);
    assert!(Lldp.parse(&b, &ctx).is_err());
}

#[test]
fn lldp_oversized_tlv_length_declines_cleanly() {
    // TLV header claims more bytes than actually follow.
    let mut b = Vec::new();
    b.extend_from_slice(&tlv(TLV_CHASSIS_ID, &[7, b'e', b'0']));
    let header = (u16::from(TLV_PORT_ID) << 9) | 200; // claims 200 bytes
    b.extend_from_slice(&header.to_be_bytes());
    b.extend_from_slice(&[7, b'p', b'1']); // only 3 actually present

    let m = meta(b.len());
    let ctx = ctx_for(Depth::Full, &m);
    assert!(Lldp.parse(&b, &ctx).is_err());
}

#[test]
fn truncated_frame_declines() {
    let bytes = fixture();
    let m = meta(bytes.len());
    for n in 0..bytes.len() {
        let ctx = ctx_for(Depth::Full, &m);
        assert!(
            Lldp.parse(&bytes[..n], &ctx).is_err(),
            "prefix of {n} bytes must decline"
        );
    }
}

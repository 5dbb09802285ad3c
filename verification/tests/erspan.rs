use pktflow::bytes::ParseError;
use pktflow::layer::{Depth, Hint, LayerPlugin, LinkType, PacketMeta, ParseCtx, ParsedLayer};
use pktflow::plugins::erspan::{
    COS, Erspan, FRAME_TYPE, INDEX, SESSION_ID, SGT, TIMESTAMP, TRUNCATED, VERSION, VLAN,
};
use pktflow::value::Value;

fn parse(bytes: &[u8]) -> Result<ParsedLayer, ParseError> {
    let meta = PacketMeta {
        timestamp: 0,
        caplen: bytes.len(),
        origlen: bytes.len(),
        link_type: LinkType(1),
    };
    Erspan.parse(bytes, &ParseCtx::new(&[], Depth::Full, &meta))
}

/// Type II header: VLAN 100, CoS 3, session 42, index 7.
fn type_ii() -> Vec<u8> {
    let mut b = Vec::new();
    b.extend_from_slice(&(0x1000u16 | 100).to_be_bytes());
    b.extend_from_slice(&(0x6000u16 | 42).to_be_bytes());
    b.extend_from_slice(&7u32.to_be_bytes());
    b
}

/// Type III header: session 42, hardware timestamp, SGT, the
/// caller's frame type, optional platform subheader.
fn type_iii(frame_type: u16, subheader: bool) -> Vec<u8> {
    let mut b = Vec::new();
    b.extend_from_slice(&(0x2000u16 | 100).to_be_bytes());
    b.extend_from_slice(&(0x6000u16 | 42).to_be_bytes());
    b.extend_from_slice(&0xDEAD_BEEFu32.to_be_bytes());
    b.extend_from_slice(&0x0005u16.to_be_bytes());
    b.extend_from_slice(&((frame_type << 10) | u16::from(subheader)).to_be_bytes());
    if subheader {
        b.extend_from_slice(&[0xAA; 8]);
    }
    b
}

#[test]
fn type_ii_parses_and_wraps_ethernet() {
    let parsed = parse(&type_ii()).expect("valid Type II header");
    assert_eq!(parsed.header_len, 8);
    assert_eq!(parsed.hint, Hint::ByProtocol("ethernet"));
    assert_eq!(parsed.fields.get(SESSION_ID), Some(&Value::U64(42)));
    assert_eq!(parsed.fields.get(VERSION), Some(&Value::U64(1)));
    assert_eq!(parsed.fields.get(VLAN), Some(&Value::U64(100)));
    assert_eq!(parsed.fields.get(COS), Some(&Value::U64(3)));
    assert_eq!(parsed.fields.get(INDEX), Some(&Value::U64(7)));
    assert_eq!(parsed.fields.get(TRUNCATED), Some(&Value::Bool(false)));
}

#[test]
fn type_iii_ethernet_frame_dispatches_by_name() {
    let parsed = parse(&type_iii(0, false)).expect("valid Type III header");
    assert_eq!(parsed.header_len, 12);
    assert_eq!(parsed.hint, Hint::ByProtocol("ethernet"));
    assert_eq!(parsed.fields.get(TIMESTAMP), Some(&Value::U64(0xDEAD_BEEF)));
    assert_eq!(parsed.fields.get(SGT), Some(&Value::U64(5)));
    assert_eq!(parsed.fields.get(FRAME_TYPE), Some(&Value::U64(0)));
}

#[test]
fn type_iii_ip_frame_defers_to_heuristics() {
    let parsed = parse(&type_iii(2, false)).expect("valid Type III header");
    assert_eq!(parsed.hint, Hint::Unknown);
}

#[test]
fn type_iii_subheader_extends_header_len() {
    let parsed = parse(&type_iii(0, true)).expect("Type III with subheader");
    assert_eq!(parsed.header_len, 20);
}

#[test]
fn unknown_version_declines() {
    let mut bytes = type_ii();
    bytes[0] = 0x30; // version 3
    assert!(parse(&bytes).is_err());
}

#[test]
fn truncated_headers_decline() {
    for bytes in [type_ii(), type_iii(0, true)] {
        for n in 0..bytes.len() {
            assert!(parse(&bytes[..n]).is_err(), "prefix of {n} bytes");
        }
    }
}

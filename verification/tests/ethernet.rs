use pktflow::bytes::ParseError;
use pktflow::layer::{
    Depth, Hint, LayerPlugin, LinkType, PacketMeta, ParseCtx, ParsedLayer, RouteId,
};
use pktflow::plugins::ethernet::{DST_MAC, ETHERTYPE, Ethernet, SRC_MAC};
use pktflow::value::Value;

// Ethernet II frame header, IEEE 802.3 layout (dst, src, type):
// dst 00:1b:44:11:3a:b7, src 00:1a:2b:3c:4d:5e, EtherType 0x0800.
const FRAME: [u8; 14] = [
    0x00, 0x1B, 0x44, 0x11, 0x3A, 0xB7, // dst
    0x00, 0x1A, 0x2B, 0x3C, 0x4D, 0x5E, // src
    0x08, 0x00, // IPv4
];

fn parse(bytes: &[u8]) -> Result<ParsedLayer, ParseError> {
    let meta = PacketMeta {
        timestamp: 0,
        caplen: bytes.len(),
        origlen: bytes.len(),
        link_type: LinkType(1),
    };
    Ethernet.parse(bytes, &ParseCtx::new(&[], Depth::Full, &meta))
}

#[test]
fn ethernet_parses_the_fixture_frame() {
    let parsed = parse(&FRAME).expect("valid frame");
    assert_eq!(parsed.header_len, 14);
    assert_eq!(
        parsed.fields.get(SRC_MAC),
        Some(&Value::from(&FRAME[6..12]))
    );
    assert_eq!(parsed.fields.get(DST_MAC), Some(&Value::from(&FRAME[..6])));
    assert_eq!(parsed.fields.get(ETHERTYPE), Some(&Value::U64(0x0800)));
    assert_eq!(parsed.hint, Hint::Route(RouteId::EtherType(0x0800)));
}

#[test]
fn truncated_at_13_bytes_declines() {
    assert!(parse(&FRAME[..13]).is_err());
}

#[test]
fn ieee_802_3_length_field_routes_to_the_llc_frame_space() {
    let mut frame = FRAME;
    frame[12] = 0x00;
    frame[13] = 0x2E; // 46: a length, not an EtherType
    assert_eq!(
        parse(&frame).expect("parses").hint,
        Hint::Route(RouteId::Custom {
            space: "eth_llc_frame",
            id: 0
        })
    );
}

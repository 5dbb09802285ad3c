use pktflow::bytes::ParseError;
use pktflow::layer::{
    Depth, Hint, LayerPlugin, LinkType, PacketMeta, ParseCtx, ParsedLayer, RouteId,
};
use pktflow::plugins::ah::{Ah, ICV, NEXT_HEADER, PAYLOAD_LEN, SEQUENCE, SPI};
use pktflow::value::Value;

/// Next Header = TCP(6), Payload Len = 4 (96-bit/12-byte ICV, the
/// HMAC-SHA1-96 default per RFC 4302 §5 — total header = 4*4+8 = 24
/// bytes: 12 fixed + 12 ICV), SPI 0x1000_0001, sequence 1, then the
/// 12-byte ICV.
const FRAME: [u8; 24] = [
    0x06, 0x04, 0x00, 0x00, 0x10, 0x00, 0x00, 0x01, 0x00, 0x00, 0x00, 0x01, 0xAA, 0xBB, 0xCC,
    0xDD, 0xEE, 0xFF, 0x11, 0x22, 0x33, 0x44, 0x55, 0x66,
];

fn meta(len: usize) -> PacketMeta {
    PacketMeta {
        timestamp: 0,
        caplen: len,
        origlen: len,
        link_type: LinkType(1),
    }
}

fn parse(bytes: &[u8]) -> Result<ParsedLayer, ParseError> {
    Ah.parse(bytes, &ParseCtx::new(&[], Depth::Full, &meta(bytes.len())))
}

#[test]
fn parses_fixed_fields_and_routes_onward() {
    let parsed = parse(&FRAME).expect("valid AH header");
    assert_eq!(parsed.header_len, 24);
    assert_eq!(parsed.fields.get(SPI), Some(&Value::U64(0x1000_0001)));
    assert_eq!(parsed.fields.get(NEXT_HEADER), Some(&Value::U64(6)));
    assert_eq!(parsed.fields.get(PAYLOAD_LEN), Some(&Value::U64(4)));
    assert_eq!(parsed.fields.get(SEQUENCE), Some(&Value::U64(1)));
    assert_eq!(parsed.fields.get(ICV), Some(&Value::from(&FRAME[12..24])));
    assert_eq!(parsed.hint, Hint::Route(RouteId::IpProtocol(6)));
}

#[test]
fn ah_truncated_header_declines() {
    for cut in 0..FRAME.len() {
        assert!(parse(&FRAME[..cut]).is_err(), "cut at {cut}");
    }
}

#[test]
fn zero_payload_len_declines_rather_than_underflow() {
    let mut bytes = FRAME;
    bytes[1] = 0; // payload_len = 0 -> header_len (8) < fixed header (12)
    assert!(parse(&bytes).is_err());
}

#[test]
fn zero_length_icv_is_a_syntactically_valid_minimum() {
    // payload_len = 1 -> header_len = 12, icv_len = 0: unusual
    // (no real algorithm produces a null ICV) but not our call to
    // reject — the wire framing itself is self-consistent.
    let bytes = [0x06u8, 0x01, 0x00, 0x00, 0x10, 0x00, 0x00, 0x01, 0, 0, 0, 1];
    let parsed = parse(&bytes).expect("framing is self-consistent");
    assert_eq!(parsed.header_len, 12);
    assert_eq!(parsed.fields.get(ICV), Some(&Value::from(&[][..])));
}

#[test]
fn depth_gating_hides_fields_below_their_tier() {
    let keys_only = Ah
        .parse(&FRAME, &ParseCtx::new(&[], Depth::Keys, &meta(FRAME.len())))
        .expect("valid header");
    assert_eq!(keys_only.fields.get(SPI), Some(&Value::U64(0x1000_0001)));
    assert_eq!(keys_only.fields.get(NEXT_HEADER), None);
    assert_eq!(keys_only.fields.get(ICV), None);
    assert_eq!(keys_only.header_len, 24);

    let structural = Ah
        .parse(
            &FRAME,
            &ParseCtx::new(&[], Depth::Structure, &meta(FRAME.len())),
        )
        .expect("valid header");
    assert_eq!(structural.fields.get(NEXT_HEADER), Some(&Value::U64(6)));
    assert_eq!(structural.fields.get(ICV), None, "ICV is Full-only");
}

#[test]
fn reserved_field_is_read_but_not_validated() {
    // RFC 4302 §2.3 says Reserved "MUST be set to zero" by the sender
    // but says nothing about receiver validation, and real
    // implementations don't reject on a nonzero value — read and
    // ignore, don't decline traffic over a non-normative sender bug.
    let mut bytes = FRAME;
    bytes[2] = 0xFF;
    bytes[3] = 0xFF;
    assert!(parse(&bytes).is_ok());
}

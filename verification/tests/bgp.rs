use pktflow::layer::{Depth, Hint, LayerPlugin, LayerRecord, LinkType, PacketMeta, ParseCtx};
use pktflow::plugins::bgp::{
    APP, BGP_IDENTIFIER, Bgp, HEADER_LEN, HOLD_TIME, LENGTH, MSG_TYPE, MY_AS, NEXT_HOP, NLRI,
    TYPE_OPEN, TYPE_UPDATE, WITHDRAWN_ROUTES,
};
use pktflow::value::{FieldMap, Value};

const MARKER_LEN: usize = 16;

fn meta(len: usize) -> PacketMeta {
    PacketMeta {
        timestamp: 0,
        caplen: len,
        origlen: len,
        link_type: LinkType(1),
    }
}

fn ctx<'a>(outer: &'a [LayerRecord], depth: Depth, m: &'a PacketMeta) -> ParseCtx<'a> {
    ParseCtx::new(outer, depth, m)
}

fn tcp_predecessor() -> Vec<LayerRecord> {
    vec![LayerRecord {
        protocol: "tcp",
        offset: 34,
        header_len: 20,
        fields: FieldMap::new(),
    }]
}

/// RFC 4271 §4.1 common header: Marker (all-ones) + Length + Type.
fn header(msg_type: u8, body: &[u8]) -> Vec<u8> {
    let mut b = vec![0xFFu8; MARKER_LEN];
    let length = (HEADER_LEN + body.len()) as u16;
    b.extend_from_slice(&length.to_be_bytes());
    b.push(msg_type);
    b.extend_from_slice(body);
    b
}

/// RFC 4271 §4.2: version 4, AS 65001, hold time 180, a router id, no
/// optional parameters.
fn open_fixture() -> Vec<u8> {
    let mut body = vec![4];
    body.extend_from_slice(&65001u16.to_be_bytes());
    body.extend_from_slice(&180u16.to_be_bytes());
    body.extend_from_slice(&[10, 0, 0, 1]);
    body.push(0); // Opt Parm Len = 0
    header(TYPE_OPEN, &body)
}

/// RFC 4271 §4.3: one withdrawn route, a NEXT_HOP path
/// attribute, and one NLRI prefix (192.0.2.0/24).
fn update_fixture() -> Vec<u8> {
    let mut body = Vec::new();
    let withdrawn = [8u8, 10]; // 10.0.0.0/8
    body.extend_from_slice(&(withdrawn.len() as u16).to_be_bytes());
    body.extend_from_slice(&withdrawn);

    // ORIGIN (type 1, flags: well-known transitive), value IGP (0).
    let mut attrs = vec![0x40, 1, 1, 0];
    // NEXT_HOP (type 3), value 10.0.0.2.
    attrs.extend_from_slice(&[0x40, 3, 4]);
    attrs.extend_from_slice(&[10, 0, 0, 2]);
    body.extend_from_slice(&(attrs.len() as u16).to_be_bytes());
    body.extend_from_slice(&attrs);

    // NLRI: 192.0.2.0/24.
    body.extend_from_slice(&[24, 192, 0, 2]);

    header(TYPE_UPDATE, &body)
}

fn keepalive_fixture() -> Vec<u8> {
    header(4, &[])
}

#[test]
fn open_message_parses_exactly() {
    let bytes = open_fixture();
    let m = meta(bytes.len());
    let outer = tcp_predecessor();
    let parsed = Bgp
        .parse(&bytes, &ctx(&outer, Depth::Full, &m))
        .expect("valid OPEN");
    assert_eq!(parsed.header_len, bytes.len());
    assert_eq!(parsed.hint, Hint::Terminal);
    assert_eq!(parsed.fields.get(APP), Some(&Value::from("bgp")));
    assert_eq!(parsed.fields.get(MSG_TYPE), Some(&Value::U64(1)));
    assert_eq!(parsed.fields.get(LENGTH), Some(&Value::U64(29)));
    assert_eq!(parsed.fields.get(MY_AS), Some(&Value::U64(65001)));
    assert_eq!(parsed.fields.get(HOLD_TIME), Some(&Value::U64(180)));
    assert_eq!(
        parsed.fields.get(BGP_IDENTIFIER),
        Some(&Value::from(&[10u8, 0, 0, 1][..]))
    );
}

#[test]
fn update_message_parses_withdrawn_nlri_and_next_hop() {
    let bytes = update_fixture();
    let m = meta(bytes.len());
    let outer = tcp_predecessor();
    let parsed = Bgp
        .parse(&bytes, &ctx(&outer, Depth::Full, &m))
        .expect("valid UPDATE");
    assert_eq!(parsed.header_len, bytes.len());
    assert_eq!(parsed.fields.get(MSG_TYPE), Some(&Value::U64(2)));
    assert_eq!(
        parsed.fields.get(WITHDRAWN_ROUTES),
        Some(&Value::List(vec![Value::from(&[8u8, 10][..])]))
    );
    assert_eq!(
        parsed.fields.get(NLRI),
        Some(&Value::List(vec![Value::from(&[24u8, 192, 0, 2][..])]))
    );
    assert_eq!(
        parsed.fields.get(NEXT_HOP),
        Some(&Value::from(&[10u8, 0, 0, 2][..]))
    );
}

#[test]
fn keepalive_message_has_no_body_fields() {
    let bytes = keepalive_fixture();
    let m = meta(bytes.len());
    let outer = tcp_predecessor();
    let parsed = Bgp
        .parse(&bytes, &ctx(&outer, Depth::Full, &m))
        .expect("valid KEEPALIVE");
    assert_eq!(parsed.header_len, HEADER_LEN);
    assert_eq!(parsed.fields.get(MSG_TYPE), Some(&Value::U64(4)));
    assert_eq!(parsed.fields.get(MY_AS), None);
}

#[test]
fn keys_depth_has_only_app() {
    let bytes = open_fixture();
    let m = meta(bytes.len());
    let outer = tcp_predecessor();
    let parsed = Bgp
        .parse(&bytes, &ctx(&outer, Depth::Keys, &m))
        .expect("valid OPEN");
    assert_eq!(parsed.fields.len(), 1);
    assert_eq!(parsed.fields.get(APP), Some(&Value::from("bgp")));
}

#[test]
fn structural_depth_omits_open_body_fields() {
    let bytes = open_fixture();
    let m = meta(bytes.len());
    let outer = tcp_predecessor();
    let parsed = Bgp
        .parse(&bytes, &ctx(&outer, Depth::Structure, &m))
        .expect("valid OPEN");
    assert_eq!(parsed.fields.get(MY_AS), None);
    assert_eq!(parsed.fields.get(MSG_TYPE), Some(&Value::U64(1)));
}

#[test]
fn a_coalesced_second_message_is_left_untouched() {
    let mut bytes = keepalive_fixture();
    bytes.extend_from_slice(&keepalive_fixture());
    let m = meta(bytes.len());
    let outer = tcp_predecessor();
    let parsed = Bgp
        .parse(&bytes, &ctx(&outer, Depth::Full, &m))
        .expect("first KEEPALIVE parses");
    assert_eq!(parsed.header_len, HEADER_LEN);
    assert_eq!(parsed.hint, Hint::Terminal);
}

#[test]
fn length_below_header_size_declines() {
    let mut bytes = keepalive_fixture();
    bytes[16] = 0;
    bytes[17] = 10; // Length = 10, below the 19-byte header floor
    let m = meta(bytes.len());
    let outer = tcp_predecessor();
    assert!(Bgp.parse(&bytes, &ctx(&outer, Depth::Full, &m)).is_err());
}

#[test]
fn unsupported_open_version_declines() {
    let mut bytes = open_fixture();
    bytes[19] = 3; // version 3, pre-RFC 4271
    let m = meta(bytes.len());
    let outer = tcp_predecessor();
    assert!(Bgp.parse(&bytes, &ctx(&outer, Depth::Full, &m)).is_err());
}

#[test]
fn withdrawn_route_longer_than_32_bits_declines() {
    let mut body = Vec::new();
    let withdrawn = [33u8]; // prefix length in bits > 32: impossible for IPv4
    body.extend_from_slice(&(withdrawn.len() as u16).to_be_bytes());
    body.extend_from_slice(&withdrawn);
    body.extend_from_slice(&0u16.to_be_bytes()); // no path attributes
    let bytes = header(TYPE_UPDATE, &body);
    let m = meta(bytes.len());
    let outer = tcp_predecessor();
    assert!(Bgp.parse(&bytes, &ctx(&outer, Depth::Full, &m)).is_err());
}

#[test]
fn truncated_open_frames_decline() {
    let bytes = open_fixture();
    let m = meta(bytes.len());
    let outer = tcp_predecessor();
    for n in 0..bytes.len() {
        let full_ctx = ctx(&outer, Depth::Full, &m);
        assert!(
            Bgp.parse(&bytes[..n], &full_ctx).is_err(),
            "prefix of {n}/{} bytes must decline",
            bytes.len()
        );
    }
}

#[test]
fn truncated_update_frames_decline() {
    let bytes = update_fixture();
    let m = meta(bytes.len());
    let outer = tcp_predecessor();
    for n in 0..bytes.len() {
        let full_ctx = ctx(&outer, Depth::Full, &m);
        assert!(
            Bgp.parse(&bytes[..n], &full_ctx).is_err(),
            "prefix of {n}/{} bytes must decline",
            bytes.len()
        );
    }
}

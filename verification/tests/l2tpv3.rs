use pktflow::layer::{Depth, Hint, LayerPlugin, LayerRecord, LinkType, PacketMeta, ParseCtx};
use pktflow::plugins::l2tpv3::{CONTROL_CONNECTION_ID, L2tpv3, SESSION_ID, T_BIT};
use pktflow::value::{FieldMap, Value};

fn meta(len: usize) -> PacketMeta {
    PacketMeta {
        timestamp: 0,
        caplen: len,
        origlen: len,
        link_type: LinkType(1),
    }
}

fn ctx<'a>(outer: &'a [LayerRecord], depth: Depth, m: &'a PacketMeta) -> ParseCtx<'a> {
    ParseCtx::new(outer, depth, m)
}

fn udp_predecessor() -> Vec<LayerRecord> {
    vec![LayerRecord {
        protocol: "udp",
        offset: 34,
        header_len: 8,
        fields: FieldMap::new(),
    }]
}

fn ipv4_predecessor() -> Vec<LayerRecord> {
    vec![LayerRecord {
        protocol: "ipv4",
        offset: 14,
        header_len: 20,
        fields: FieldMap::new(),
    }]
}

/// §3.2.2: UDP-encapsulated data message, Session ID `session_id`,
/// no cookie (v1's assumed default), then payload.
fn udp_data_fixture(session_id: u32, payload: &[u8]) -> Vec<u8> {
    let mut b = vec![0x00, 0x03, 0x00, 0x00]; // T=0, Ver=3, reserved=0
    b.extend_from_slice(&session_id.to_be_bytes());
    b.extend_from_slice(payload);
    b
}

/// §3.2.1: UDP-encapsulated control message, `L`/`S` set (as real
/// senders MUST), Length filled in, Control Connection ID, Ns, Nr,
/// then an AVP region this plugin never walks.
fn udp_control_fixture(ccid: u32, avps: &[u8]) -> Vec<u8> {
    let length = (12 + avps.len()) as u16;
    let mut b = vec![0x00, 0x03];
    b[0] = 0x80 | 0x40 | 0x08; // T=1, L=1, S=1
    b.extend_from_slice(&length.to_be_bytes());
    b.extend_from_slice(&ccid.to_be_bytes());
    b.extend_from_slice(&[0, 1]); // Ns
    b.extend_from_slice(&[0, 2]); // Nr
    b.extend_from_slice(avps);
    b
}

/// §4.1.1: direct-IP data message — Session ID only, no T/Ver word.
fn ip_data_fixture(session_id: u32, payload: &[u8]) -> Vec<u8> {
    let mut b = session_id.to_be_bytes().to_vec();
    b.extend_from_slice(payload);
    b
}

#[test]
fn udp_data_message_parses_session_id_and_stops_by_protocol() {
    let bytes = udp_data_fixture(0x1234_5678, &[0xAA, 0xBB, 0xCC, 0xDD]);
    let m = meta(bytes.len());
    let outer = udp_predecessor();
    let parsed = L2tpv3
        .parse(&bytes, &ctx(&outer, Depth::Full, &m))
        .expect("valid UDP data message");
    assert_eq!(parsed.header_len, 8);
    assert_eq!(parsed.hint, Hint::ByProtocol("ethernet"));
    assert_eq!(
        parsed.fields.get(SESSION_ID),
        Some(&Value::U64(0x1234_5678))
    );
    assert_eq!(parsed.fields.get(T_BIT), Some(&Value::Bool(false)));
    assert_eq!(parsed.fields.get(CONTROL_CONNECTION_ID), None);
}

#[test]
fn ip_data_message_has_no_shared_word_and_parses_4_byte_header() {
    let bytes = ip_data_fixture(0x0000_002A, &[0xEE; 6]);
    let m = meta(bytes.len());
    let outer = ipv4_predecessor();
    let parsed = L2tpv3
        .parse(&bytes, &ctx(&outer, Depth::Full, &m))
        .expect("valid IP data message");
    assert_eq!(parsed.header_len, 4);
    assert_eq!(parsed.hint, Hint::ByProtocol("ethernet"));
    assert_eq!(parsed.fields.get(SESSION_ID), Some(&Value::U64(42)));
}

#[test]
fn udp_control_message_stops_terminal_with_no_session_id() {
    let bytes = udp_control_fixture(0x0000_0007, &[0x00, 0x08, 0x00, 0x01]);
    let m = meta(bytes.len());
    let outer = udp_predecessor();
    let parsed = L2tpv3
        .parse(&bytes, &ctx(&outer, Depth::Full, &m))
        .expect("valid control message");
    assert_eq!(
        parsed.header_len, 12,
        "stops after the fixed portion, AVPs untouched"
    );
    assert_eq!(parsed.hint, Hint::Terminal);
    assert_eq!(parsed.fields.get(T_BIT), Some(&Value::Bool(true)));
    assert_eq!(
        parsed.fields.get(CONTROL_CONNECTION_ID),
        Some(&Value::U64(7))
    );
    assert_eq!(
        parsed.fields.get(SESSION_ID),
        None,
        "control messages carry no session_id: no stream can key on it"
    );
}

#[test]
fn keys_depth_has_only_session_id_for_data_messages() {
    let bytes = udp_data_fixture(9, &[]);
    let m = meta(bytes.len());
    let outer = udp_predecessor();
    let parsed = L2tpv3
        .parse(&bytes, &ctx(&outer, Depth::Keys, &m))
        .expect("valid");
    assert_eq!(parsed.fields.len(), 1);
    assert_eq!(parsed.fields.get(SESSION_ID), Some(&Value::U64(9)));
}

#[test]
fn keys_depth_has_no_fields_for_control_messages() {
    let bytes = udp_control_fixture(1, &[]);
    let m = meta(bytes.len());
    let outer = udp_predecessor();
    let parsed = L2tpv3
        .parse(&bytes, &ctx(&outer, Depth::Keys, &m))
        .expect("valid");
    assert!(
        parsed.fields.is_empty(),
        "t_bit/ccid are Structural, not Keys"
    );
}

#[test]
fn l2tpv2_version_on_the_same_port_declines() {
    let mut bytes = udp_data_fixture(1, &[]);
    bytes[1] = 0x02; // Ver = 2 (RFC 2661, not this plugin's protocol)
    let m = meta(bytes.len());
    let outer = udp_predecessor();
    assert!(L2tpv3.parse(&bytes, &ctx(&outer, Depth::Full, &m)).is_err());
}

#[test]
fn truncated_udp_data_frames_decline() {
    let bytes = udp_data_fixture(0xAABBCCDD, &[0x11, 0x22]);
    let m = meta(bytes.len());
    let outer = udp_predecessor();
    for n in 0..8 {
        let full_ctx = ctx(&outer, Depth::Full, &m);
        assert!(
            L2tpv3.parse(&bytes[..n], &full_ctx).is_err(),
            "prefix of {n}/8 header bytes must decline"
        );
    }
}

#[test]
fn truncated_control_frames_decline() {
    let bytes = udp_control_fixture(5, &[0xFF, 0xFF]);
    let m = meta(bytes.len());
    let outer = udp_predecessor();
    for n in 0..12 {
        let full_ctx = ctx(&outer, Depth::Full, &m);
        assert!(
            L2tpv3.parse(&bytes[..n], &full_ctx).is_err(),
            "prefix of {n}/12 header bytes must decline"
        );
    }
}

#[test]
fn truncated_ip_data_frames_decline() {
    let bytes = ip_data_fixture(3, &[0x01]);
    let m = meta(bytes.len());
    let outer = ipv4_predecessor();
    for n in 0..4 {
        let full_ctx = ctx(&outer, Depth::Full, &m);
        assert!(
            L2tpv3.parse(&bytes[..n], &full_ctx).is_err(),
            "prefix of {n}/4 header bytes must decline"
        );
    }
}

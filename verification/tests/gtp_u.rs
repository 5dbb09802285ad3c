use pktflow::bytes::ParseError;
use pktflow::layer::{Depth, Hint, LayerPlugin, LinkType, PacketMeta, ParseCtx, ParsedLayer};
use pktflow::plugins::gtp_u::{GtpU, LENGTH, MESSAGE_TYPE, MSG_GPDU, SEQUENCE_NUMBER, TEID};
use pktflow::value::Value;

/// Table 6.1-1: Echo Request — a tunnel-management message type used
/// throughout these tests wherever the specific type doesn't matter.
const MSG_ECHO_REQUEST: u8 = 1;

fn meta(len: usize) -> PacketMeta {
    PacketMeta {
        timestamp: 0,
        caplen: len,
        origlen: len,
        link_type: LinkType(1),
    }
}

fn ctx<'a>(depth: Depth, m: &'a PacketMeta) -> ParseCtx<'a> {
    ParseCtx::new(&[], depth, m)
}

fn parse_at(bytes: &[u8], depth: Depth) -> Result<ParsedLayer, ParseError> {
    let m = meta(bytes.len());
    GtpU.parse(bytes, &ctx(depth, &m))
}

fn parse(bytes: &[u8]) -> Result<ParsedLayer, ParseError> {
    parse_at(bytes, Depth::Full)
}

/// version=1, PT=1, no E/S/PN, message_type, TEID, and (for G-PDU) a
/// minimal inner payload so header_len + payload lines up.
fn mandatory_only(message_type: u8, teid: u32, payload: &[u8]) -> Vec<u8> {
    let mut b = vec![0x30, message_type];
    b.extend_from_slice(&(payload.len() as u16).to_be_bytes());
    b.extend_from_slice(&teid.to_be_bytes());
    b.extend_from_slice(payload);
    b
}

/// version=1, PT=1, S flag only set, sequence number `seq`, no
/// extension headers (next_ext_type = 0).
fn with_sequence_number(message_type: u8, teid: u32, seq: u16, payload: &[u8]) -> Vec<u8> {
    let mut b = vec![0x32, message_type];
    b.extend_from_slice(&((4 + payload.len()) as u16).to_be_bytes());
    b.extend_from_slice(&teid.to_be_bytes());
    b.extend_from_slice(&seq.to_be_bytes());
    b.push(0); // N-PDU number, not meaningful (PN not set)
    b.push(0); // next extension header type: none
    b.extend_from_slice(payload);
    b
}

#[test]
fn gpdu_mandatory_header_only_hints_unknown_for_fallback_routing() {
    let inner = [0x45u8, 0x00, 0x00, 0x14]; // stand-in inner bytes
    let bytes = mandatory_only(MSG_GPDU, 0xAABBCCDD, &inner);
    let parsed = parse(&bytes).expect("valid GTP-U G-PDU header");
    assert_eq!(parsed.header_len, 8);
    assert_eq!(parsed.hint, Hint::Unknown);
    assert_eq!(parsed.fields.get(TEID), Some(&Value::U64(0xAABBCCDD)));
    assert_eq!(parsed.fields.get(MESSAGE_TYPE), Some(&Value::U64(255)));
    assert_eq!(parsed.fields.get(LENGTH), Some(&Value::U64(4)));
}

#[test]
fn echo_request_response_and_error_indication_are_terminal() {
    // Table 6.1-1: Echo Request (1), Echo Response (2), Error Indication (26).
    for mt in [1u8, 2, 26] {
        let bytes = mandatory_only(mt, 0, &[]);
        let parsed = parse(&bytes).unwrap_or_else(|e| panic!("message type {mt}: {e:?}"));
        assert_eq!(parsed.hint, Hint::Terminal, "message type {mt}");
        assert_eq!(
            parsed.fields.get(MESSAGE_TYPE),
            Some(&Value::U64(u64::from(mt)))
        );
    }
}

#[test]
fn end_marker_and_supported_ext_hdr_notification_are_terminal() {
    // Table 6.1-1: End Marker (254), Supported Extension Headers
    // Notification (31).
    for mt in [254u8, 31] {
        let bytes = mandatory_only(mt, 0, &[]);
        let parsed = parse(&bytes).unwrap_or_else(|e| panic!("message type {mt}: {e:?}"));
        assert_eq!(parsed.hint, Hint::Terminal, "message type {mt}");
    }
}

#[test]
fn s_flag_surfaces_sequence_number_and_advances_header_len() {
    let bytes = with_sequence_number(MSG_ECHO_REQUEST, 7, 0x1234, &[]);
    let parsed = parse(&bytes).expect("valid GTP-U header with sequence number");
    assert_eq!(parsed.header_len, 12);
    assert_eq!(
        parsed.fields.get(SEQUENCE_NUMBER),
        Some(&Value::U64(0x1234))
    );
}

#[test]
fn no_flags_set_omits_sequence_number() {
    let bytes = mandatory_only(MSG_ECHO_REQUEST, 7, &[]);
    let parsed = parse(&bytes).expect("valid GTP-U header");
    assert_eq!(parsed.fields.get(SEQUENCE_NUMBER), None);
}

#[test]
fn extension_header_chain_is_skipped_and_header_len_accounts_for_it() {
    // flags: version=1, PT=1, E=1 (0x34). One 8-octet extension header
    // (length_words=2 -> 6 content octets), then chain end (0x00),
    // followed by a 4-byte inner payload stand-in.
    let mut b = vec![0x34, MSG_GPDU];
    let inner = [0xDEu8, 0xAD, 0xBE, 0xEF];
    b.extend_from_slice(&((4 + 8 + inner.len()) as u16).to_be_bytes());
    b.extend_from_slice(&99u32.to_be_bytes());
    b.extend_from_slice(&0u16.to_be_bytes()); // sequence number (not meaningful, S unset)
    b.push(0); // N-PDU number
    b.push(0x85); // next extension header type: PDU Session Container (TS 38.415)
    b.push(2); // length: 2 * 4 = 8 octets total for this record
    b.extend_from_slice(&[0u8; 6]); // content: 8 - 1 (length octet) - 1 (next-type octet)
    b.push(0x00); // chain end
    b.extend_from_slice(&inner);

    let parsed = parse(&b).expect("valid GTP-U header with one extension header");
    assert_eq!(parsed.header_len, 8 + 4 + 8);
    assert_eq!(parsed.hint, Hint::Unknown);
    assert_eq!(parsed.fields.get(TEID), Some(&Value::U64(99)));
}

#[test]
fn gtp_u_wrong_version_declines() {
    let mut bytes = mandatory_only(MSG_ECHO_REQUEST, 1, &[]);
    bytes[0] = 0x10; // version 0, PT=1
    assert!(parse(&bytes).is_err());
}

#[test]
fn gtp_prime_protocol_type_declines() {
    let mut bytes = mandatory_only(MSG_ECHO_REQUEST, 1, &[]);
    bytes[0] = 0x20; // version 1, PT=0 (GTP')
    assert!(parse(&bytes).is_err());
}

#[test]
fn truncated_mandatory_header_declines() {
    let bytes = mandatory_only(MSG_ECHO_REQUEST, 1, &[]);
    assert!(parse(&bytes[..7]).is_err());
}

#[test]
fn truncated_optional_block_declines() {
    let bytes = with_sequence_number(MSG_ECHO_REQUEST, 7, 0x1234, &[]);
    assert!(parse(&bytes[..bytes.len() - 1]).is_err());
}

#[test]
fn zero_length_extension_header_declines() {
    let mut b = vec![0x34, MSG_ECHO_REQUEST];
    b.extend_from_slice(&5u16.to_be_bytes());
    b.extend_from_slice(&1u32.to_be_bytes());
    b.extend_from_slice(&0u16.to_be_bytes());
    b.push(0);
    b.push(0x85); // next extension header type present
    b.push(0); // malformed: zero-length record
    assert!(parse(&b).is_err());
}

#[test]
fn keys_depth_has_only_teid() {
    let bytes = mandatory_only(MSG_ECHO_REQUEST, 42, &[]);
    let parsed = parse_at(&bytes, Depth::Keys).expect("valid header");
    assert_eq!(parsed.fields.len(), 1);
    assert_eq!(parsed.fields.get(TEID), Some(&Value::U64(42)));
}

#[test]
fn structural_depth_omits_sequence_number() {
    let bytes = with_sequence_number(MSG_ECHO_REQUEST, 7, 0x1234, &[]);
    let parsed = parse_at(&bytes, Depth::Structure).expect("valid header");
    assert_eq!(parsed.fields.get(SEQUENCE_NUMBER), None);
    assert_eq!(parsed.fields.get(MESSAGE_TYPE), Some(&Value::U64(1)));
}

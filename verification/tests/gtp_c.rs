use pktflow::layer::{Depth, Hint, LayerPlugin, LinkType, PacketMeta, ParseCtx};
use pktflow::plugins::gtp_c::{
    APN, GtpC, IMSI, MESSAGE_TYPE, TEID, V1_APN_TYPE, V1_IMSI_TYPE, VERSION,
};
use pktflow::value::Value;

fn meta(len: usize) -> PacketMeta {
    PacketMeta {
        timestamp: 0,
        caplen: len,
        origlen: len,
        link_type: LinkType(1),
    }
}

fn ctx(depth: Depth, meta: &PacketMeta) -> ParseCtx<'_> {
    ParseCtx::new(&[], depth, meta)
}

fn v1_tv(ty: u8, value: &[u8]) -> Vec<u8> {
    let mut b = vec![ty];
    b.extend_from_slice(value);
    b
}

fn v1_tlv(ty: u8, value: &[u8]) -> Vec<u8> {
    let mut b = vec![ty];
    b.extend_from_slice(&(value.len() as u16).to_be_bytes());
    b.extend_from_slice(value);
    b
}

/// TS 23.003 BCD encoding of an odd-length digit string (padded with
/// the `0xF` filler nibble).
fn bcd_encode(digits: &str) -> Vec<u8> {
    let nibbles: Vec<u8> = digits.bytes().map(|b| b - b'0').collect();
    let mut out = Vec::new();
    let mut i = 0;
    while i < nibbles.len() {
        let lo = nibbles[i];
        let hi = if i + 1 < nibbles.len() {
            nibbles[i + 1]
        } else {
            0xF
        };
        out.push(lo | (hi << 4));
        i += 2;
    }
    out
}

fn apn_encode(labels: &[&str]) -> Vec<u8> {
    let mut out = Vec::new();
    for l in labels {
        out.push(l.len() as u8);
        out.extend_from_slice(l.as_bytes());
    }
    out
}

/// GTPv1-C header (no optional block), plus `ies` appended.
fn v1_message(message_type: u8, teid: u32, ies: &[u8]) -> Vec<u8> {
    let mut b = vec![0x30, message_type]; // version 1, PT=1
    b.extend_from_slice(&(ies.len() as u16).to_be_bytes());
    b.extend_from_slice(&teid.to_be_bytes());
    b.extend_from_slice(ies);
    b
}

/// GTPv2-C header with T=1 (TEID present), plus `ies` appended.
fn v2_message(message_type: u8, teid: u32, ies: &[u8]) -> Vec<u8> {
    let mut b = vec![0x48, message_type]; // version 2, T=1
    b.extend_from_slice(&((8 + ies.len()) as u16).to_be_bytes());
    b.extend_from_slice(&teid.to_be_bytes());
    b.extend_from_slice(&[0x00, 0x00, 0x01]); // sequence number
    b.push(0x00); // spare
    b.extend_from_slice(ies);
    b
}

/// GTPv2-C Echo Request (T=0, no TEID octets at all).
fn v2_echo_request() -> Vec<u8> {
    let mut b = vec![0x40, 1]; // version 2, T=0; message_type Echo Request
    b.extend_from_slice(&4u16.to_be_bytes());
    b.extend_from_slice(&[0x00, 0x00, 0x01]); // sequence number
    b.push(0x00); // spare
    b
}

#[test]
fn v1_create_pdp_context_request_parses_teid_and_imsi() {
    let mut ies = v1_tv(V1_IMSI_TYPE, &bcd_encode("123456789012345"));
    ies.extend_from_slice(&v1_tv(0x0F, &[0x01])); // Selection Mode
    let bytes = v1_message(16, 0, &ies); // Create PDP Context Request
    let m = meta(bytes.len());
    let parsed = GtpC
        .parse(&bytes, &ctx(Depth::Full, &m))
        .expect("valid v1 Create PDP Context Request");
    assert_eq!(parsed.header_len, bytes.len());
    assert_eq!(parsed.hint, Hint::Terminal);
    assert_eq!(parsed.fields.get(VERSION), Some(&Value::U64(1)));
    assert_eq!(parsed.fields.get(MESSAGE_TYPE), Some(&Value::U64(16)));
    assert_eq!(parsed.fields.get(TEID), Some(&Value::U64(0)));
    assert_eq!(
        parsed.fields.get(IMSI),
        Some(&Value::from("123456789012345"))
    );
}

#[test]
fn v1_apn_recovered_via_tlv_after_skipping_recognized_tv_ies() {
    let mut ies = v1_tv(0x01, &[0x00]); // Cause
    ies.extend_from_slice(&v1_tv(V1_IMSI_TYPE, &bcd_encode("111222333444555")));
    ies.extend_from_slice(&v1_tlv(V1_APN_TYPE, &apn_encode(&["internet"])));
    let bytes = v1_message(17, 0xAABB_CCDD, &ies); // Create PDP Context Response
    let m = meta(bytes.len());
    let parsed = GtpC
        .parse(&bytes, &ctx(Depth::Full, &m))
        .expect("valid v1 message");
    assert_eq!(parsed.fields.get(TEID), Some(&Value::U64(0xAABB_CCDD)));
    assert_eq!(
        parsed.fields.get(IMSI),
        Some(&Value::from("111222333444555"))
    );
    assert_eq!(parsed.fields.get(APN), Some(&Value::from("internet")));
}

/// An unrecognized/vendor-specific TLV IE type present alongside recognized ones still lets the walk
/// reach IMSI/APN correctly, skipping the unrecognized one via its own
/// length field — no misalignment.
#[test]
fn v1_unrecognized_tlv_ie_is_skipped_via_its_own_length_no_misalignment() {
    let mut ies = v1_tlv(0xFE, &[0xDE, 0xAD, 0xBE, 0xEF, 0x00]); // vendor-specific TLV
    ies.extend_from_slice(&v1_tlv(
        V1_APN_TYPE,
        &apn_encode(&["ims", "mnc001", "mcc001"]),
    ));
    let bytes = v1_message(18, 1, &ies); // Update PDP Context Request
    let m = meta(bytes.len());
    let parsed = GtpC
        .parse(&bytes, &ctx(Depth::Full, &m))
        .expect("valid v1 message with vendor TLV");
    assert_eq!(
        parsed.fields.get(APN),
        Some(&Value::from("ims.mnc001.mcc001"))
    );
}

#[test]
fn v1_unrecognized_tv_ie_stops_the_walk_without_declining_the_message() {
    let mut ies = v1_tv(0x7F, &[0x00, 0x00]); // unrecognized TV type: can't skip safely
    ies.extend_from_slice(&v1_tv(V1_IMSI_TYPE, &bcd_encode("123450000000000")));
    let bytes = v1_message(1, 0, &ies); // Echo Request
    let m = meta(bytes.len());
    let parsed = GtpC
        .parse(&bytes, &ctx(Depth::Full, &m))
        .expect("still a valid GTPv1-C message");
    assert_eq!(parsed.fields.get(IMSI), None);
    assert_eq!(parsed.fields.get(MESSAGE_TYPE), Some(&Value::U64(1)));
}

#[test]
fn v2_create_session_request_parses_teid_imsi_and_apn() {
    let mut ies = Vec::new();
    ies.extend_from_slice(&1u8.to_be_bytes()); // IMSI type
    let imsi_val = bcd_encode("460001357924680");
    ies.extend_from_slice(&(imsi_val.len() as u16).to_be_bytes());
    ies.push(0x00); // CR/Instance
    ies.extend_from_slice(&imsi_val);

    let apn_val = apn_encode(&["internet"]);
    ies.push(71); // APN type
    ies.extend_from_slice(&(apn_val.len() as u16).to_be_bytes());
    ies.push(0x00);
    ies.extend_from_slice(&apn_val);

    let bytes = v2_message(32, 0, &ies); // Create Session Request, TEID 0 pre-assignment
    let m = meta(bytes.len());
    let parsed = GtpC
        .parse(&bytes, &ctx(Depth::Full, &m))
        .expect("valid GTPv2-C Create Session Request");
    assert_eq!(parsed.header_len, bytes.len());
    assert_eq!(parsed.fields.get(VERSION), Some(&Value::U64(2)));
    assert_eq!(parsed.fields.get(MESSAGE_TYPE), Some(&Value::U64(32)));
    assert_eq!(parsed.fields.get(TEID), Some(&Value::U64(0)));
    assert_eq!(
        parsed.fields.get(IMSI),
        Some(&Value::from("460001357924680"))
    );
    assert_eq!(parsed.fields.get(APN), Some(&Value::from("internet")));
}

#[test]
fn v2_echo_request_has_no_teid_octets_and_reports_zero() {
    let bytes = v2_echo_request();
    let m = meta(bytes.len());
    let parsed = GtpC
        .parse(&bytes, &ctx(Depth::Full, &m))
        .expect("valid v2 Echo Request");
    assert_eq!(parsed.fields.get(TEID), Some(&Value::U64(0)));
    assert_eq!(parsed.fields.get(MESSAGE_TYPE), Some(&Value::U64(1)));
}

#[test]
fn same_teid_works_uniformly_across_both_versions() {
    let v1 = v1_message(16, 0x1234_5678, &[]);
    let v2 = v2_message(32, 0x1234_5678, &[]);
    let m1 = meta(v1.len());
    let m2 = meta(v2.len());
    let p1 = GtpC.parse(&v1, &ctx(Depth::Full, &m1)).expect("valid v1");
    let p2 = GtpC.parse(&v2, &ctx(Depth::Full, &m2)).expect("valid v2");
    assert_eq!(p1.fields.get(TEID), Some(&Value::U64(0x1234_5678)));
    assert_eq!(p2.fields.get(TEID), Some(&Value::U64(0x1234_5678)));
}

#[test]
fn depth_gates_teid_version_and_imsi() {
    let ies = v1_tv(V1_IMSI_TYPE, &bcd_encode("123456789012345"));
    let bytes = v1_message(16, 42, &ies);
    let m = meta(bytes.len());
    let keys = GtpC.parse(&bytes, &ctx(Depth::Keys, &m)).expect("valid");
    assert_eq!(keys.fields.get(TEID), Some(&Value::U64(42)));
    assert_eq!(keys.fields.get(VERSION), None);

    let structural = GtpC
        .parse(&bytes, &ctx(Depth::Structure, &m))
        .expect("valid");
    assert_eq!(structural.fields.get(VERSION), Some(&Value::U64(1)));
    assert_eq!(structural.fields.get(IMSI), None);
}

#[test]
fn gtp_c_wrong_version_declines() {
    let mut bytes = v1_message(1, 0, &[]);
    bytes[0] = 0x60; // version 3
    let m = meta(bytes.len());
    assert!(GtpC.parse(&bytes, &ctx(Depth::Full, &m)).is_err());
}

#[test]
fn v1_gtp_prime_protocol_type_declines() {
    let mut bytes = v1_message(1, 0, &[]);
    bytes[0] = 0x20; // version 1, PT=0 (GTP')
    assert!(GtpC
        .parse(&bytes, &ctx(Depth::Full, &meta(bytes.len())))
        .is_err());
}

#[test]
fn truncated_v1_and_v2_headers_decline() {
    let v1 = v1_message(16, 1, b"trailing-ies");
    let v2 = v2_message(32, 1, b"trailing-ies");
    for bytes in [v1, v2] {
        let m = meta(bytes.len());
        let full = ctx(Depth::Full, &m);
        let header_len = GtpC.parse(&bytes, &full).expect("valid").header_len;
        for n in 0..header_len {
            assert!(
                GtpC.parse(&bytes[..n], &full).is_err(),
                "prefix of {n}/{header_len} bytes must decline"
            );
        }
    }
}

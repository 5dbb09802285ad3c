use pktflow::bytes::ParseError;
use pktflow::layer::{
    Depth, Hint, LayerPlugin, LinkType, PacketMeta, ParseCtx, ParsedLayer,
};
use pktflow::plugins::bacnet_ip::{
    APDU_COMPLEX_ACK, APDU_CONFIRMED_REQUEST, APDU_TYPE, APDU_UNCONFIRMED_REQUEST, APP,
    BVLC_FUNCTION, BVLC_TYPE, BacnetIp, FN_ORIGINAL_BROADCAST_NPDU, FN_ORIGINAL_UNICAST_NPDU,
    NPDU_CONTROL, SERVICE_CHOICE,
};
use pktflow::value::Value;

const FN_RESULT: u8 = 0x00;

fn parse(bytes: &[u8]) -> Result<ParsedLayer, ParseError> {
    let meta = PacketMeta {
        timestamp: 0,
        caplen: bytes.len(),
        origlen: bytes.len(),
        link_type: LinkType(1),
    };
    BacnetIp.parse(bytes, &ParseCtx::new(&[], Depth::Full, &meta))
}

fn bvlc(function: u8, npdu_and_after: &[u8]) -> Vec<u8> {
    let length = (4 + npdu_and_after.len()) as u16;
    let mut b = vec![BVLC_TYPE, function];
    b.extend_from_slice(&length.to_be_bytes());
    b.extend_from_slice(npdu_and_after);
    b
}

/// Unrestricted Who-Is (Unconfirmed-Request, service choice 8, no
/// range parameters): NPDU control 0x00 (no routing, local broadcast).
fn who_is_broadcast() -> Vec<u8> {
    let npdu = [0x01, 0x00, 0x10, 0x08];
    bvlc(FN_ORIGINAL_BROADCAST_NPDU, &npdu)
}

/// I-Am response (Unconfirmed-Request, service choice 0) carrying a
/// device-object-identifier parameter — opaque tail, not decoded.
fn i_am_broadcast() -> Vec<u8> {
    let mut npdu = vec![0x01, 0x00, 0x10, 0x00];
    npdu.extend_from_slice(&[0xC4, 0x02, 0x00, 0x00, 0x01]); // opaque BACnet-tagged params
    bvlc(FN_ORIGINAL_BROADCAST_NPDU, &npdu)
}

/// Unicast Confirmed-Request, ReadProperty (service choice 12),
/// unsegmented, invoke id 1, plus opaque object/property parameters.
fn read_property_request() -> Vec<u8> {
    let mut npdu = vec![0x01, 0x04]; // control 0x04: expecting-reply, no routing
    npdu.extend_from_slice(&[0x00, 0x05, 0x01, 0x0C]); // apdu byte0, max-segs/apdu, invoke id, service choice
    npdu.extend_from_slice(&[0x0C, 0x02, 0x00, 0x00, 0x01]); // opaque object-identifier parameter
    bvlc(FN_ORIGINAL_UNICAST_NPDU, &npdu)
}

/// The matching ComplexACK (service choice 12), same invoke id.
fn read_property_ack() -> Vec<u8> {
    let mut npdu = vec![0x01, 0x00]; // control 0x00: response, no routing
    npdu.extend_from_slice(&[0x30, 0x01, 0x0C]); // apdu byte0 (ComplexACK), invoke id, service choice
    npdu.extend_from_slice(&[0x3E, 0x44, 0x00, 0x00, 0x00, 0x00, 0x3F]); // opaque property value
    bvlc(FN_ORIGINAL_UNICAST_NPDU, &npdu)
}

/// A segmented Confirmed-Request: sequence number + window size sit
/// between invoke id and service choice.
fn segmented_read_property_request() -> Vec<u8> {
    let mut npdu = vec![0x01, 0x04];
    // apdu byte0 with SEG set, max-segs/apdu, invoke id, seq, window, service choice
    npdu.extend_from_slice(&[0x08, 0x05, 0x02, 0x00, 0x10, 0x0C]);
    bvlc(FN_ORIGINAL_UNICAST_NPDU, &npdu)
}

/// BVLC-Result: no NPDU at all, just a 2-byte result code payload.
fn bvlc_result() -> Vec<u8> {
    bvlc(FN_RESULT, &[0x00, 0x00])
}

/// A network-layer message (Who-Is-Router-To-Network, type 0x00): the
/// NPDU's own control byte has the network-layer-message flag set, so
/// there is no APDU/service choice at all.
fn network_layer_message() -> Vec<u8> {
    let npdu = [0x01, 0x80, 0x00]; // version, control (bit7 set), message type
    bvlc(FN_ORIGINAL_BROADCAST_NPDU, &npdu)
}

#[test]
fn who_is_extracts_unconfirmed_request_service_choice() {
    let bytes = who_is_broadcast();
    let parsed = parse(&bytes).expect("valid frame");
    assert_eq!(parsed.header_len, bytes.len());
    assert_eq!(parsed.hint, Hint::Terminal);
    assert_eq!(parsed.fields.get(APP), Some(&Value::from("bacnet")));
    assert_eq!(
        parsed.fields.get(BVLC_FUNCTION),
        Some(&Value::U64(u64::from(FN_ORIGINAL_BROADCAST_NPDU)))
    );
    assert_eq!(parsed.fields.get(NPDU_CONTROL), Some(&Value::U64(0x00)));
    assert_eq!(
        parsed.fields.get(APDU_TYPE),
        Some(&Value::U64(u64::from(APDU_UNCONFIRMED_REQUEST)))
    );
    assert_eq!(parsed.fields.get(SERVICE_CHOICE), Some(&Value::U64(8)));
}

#[test]
fn i_am_extracts_service_choice_and_leaves_params_opaque() {
    let bytes = i_am_broadcast();
    let parsed = parse(&bytes).expect("valid frame");
    assert_eq!(parsed.header_len, bytes.len());
    assert_eq!(parsed.fields.get(SERVICE_CHOICE), Some(&Value::U64(0)));
}

#[test]
fn confirmed_request_read_property_extracts_service_choice() {
    let bytes = read_property_request();
    let parsed = parse(&bytes).expect("valid frame");
    assert_eq!(parsed.header_len, bytes.len());
    assert_eq!(
        parsed.fields.get(APDU_TYPE),
        Some(&Value::U64(u64::from(APDU_CONFIRMED_REQUEST)))
    );
    assert_eq!(parsed.fields.get(SERVICE_CHOICE), Some(&Value::U64(12)));
}

#[test]
fn complex_ack_read_property_extracts_service_choice() {
    let bytes = read_property_ack();
    let parsed = parse(&bytes).expect("valid frame");
    assert_eq!(
        parsed.fields.get(APDU_TYPE),
        Some(&Value::U64(u64::from(APDU_COMPLEX_ACK)))
    );
    assert_eq!(parsed.fields.get(SERVICE_CHOICE), Some(&Value::U64(12)));
}

#[test]
fn segmented_confirmed_request_skips_sequence_and_window_first() {
    let bytes = segmented_read_property_request();
    let parsed = parse(&bytes).expect("valid frame");
    // The segmentation fields, which are not reported, must still be
    // skipped correctly, or service_choice would read the sequence
    // number (0x02) instead of the real value (0x0C).
    assert_eq!(parsed.fields.get(SERVICE_CHOICE), Some(&Value::U64(12)));
}

#[test]
fn bvlc_result_has_no_npdu_fields() {
    let bytes = bvlc_result();
    let parsed = parse(&bytes).expect("valid frame");
    assert_eq!(parsed.header_len, bytes.len());
    assert_eq!(
        parsed.fields.get(BVLC_FUNCTION),
        Some(&Value::U64(u64::from(FN_RESULT)))
    );
    assert_eq!(parsed.fields.get(NPDU_CONTROL), None);
    assert_eq!(parsed.fields.get(APDU_TYPE), None);
    assert_eq!(parsed.fields.get(SERVICE_CHOICE), None);
}

#[test]
fn network_layer_message_has_no_apdu_fields() {
    let bytes = network_layer_message();
    let parsed = parse(&bytes).expect("valid frame");
    assert_eq!(parsed.header_len, bytes.len());
    assert_eq!(parsed.fields.get(NPDU_CONTROL), Some(&Value::U64(0x80)));
    assert_eq!(parsed.fields.get(APDU_TYPE), None);
    assert_eq!(parsed.fields.get(SERVICE_CHOICE), None);
}

#[test]
fn wrong_bvlc_type_declines() {
    let mut bytes = who_is_broadcast();
    bytes[0] = 0x82;
    assert!(parse(&bytes).is_err());
}

#[test]
fn wrong_npdu_version_declines() {
    let mut bytes = who_is_broadcast();
    bytes[4] = 0x02; // NPDU version byte, right after the 4-byte BVLC header
    assert!(parse(&bytes).is_err());
}

#[test]
fn declared_length_shorter_than_header_declines() {
    let mut bytes = who_is_broadcast();
    bytes[2..4].copy_from_slice(&3u16.to_be_bytes());
    assert!(parse(&bytes).is_err());
}

#[test]
fn declared_length_shorter_than_walked_fields_declines() {
    // Claims a length that ends inside the APDU it also claims to carry.
    let mut bytes = who_is_broadcast();
    bytes[2..4].copy_from_slice(&5u16.to_be_bytes());
    assert!(parse(&bytes).is_err());
}

#[test]
fn bacnet_ip_truncated_frames_decline() {
    for bytes in [
        who_is_broadcast(),
        i_am_broadcast(),
        read_property_request(),
        read_property_ack(),
        segmented_read_property_request(),
        bvlc_result(),
        network_layer_message(),
    ] {
        let expected_len = parse(&bytes).expect("valid frame").header_len;
        for n in 0..expected_len {
            assert!(
                parse(&bytes[..n]).is_err(),
                "expected decline at truncated length {n} of {expected_len}"
            );
        }
    }
}

#[test]
fn probe_scores_confidently_on_good_bytes_and_declines_on_noise() {
    let bytes = who_is_broadcast();
    let meta = PacketMeta {
        timestamp: 0,
        caplen: bytes.len(),
        origlen: bytes.len(),
        link_type: LinkType(1),
    };
    let ctx = ParseCtx::new(&[], Depth::Full, &meta);
    assert_eq!(BacnetIp.probe(&bytes, &ctx).map(|c| c.get()), Some(60));

    // Right type, undefined function: the probe stays silent.
    let mut undefined_function = bytes.clone();
    undefined_function[1] = 0xFF;
    assert_eq!(BacnetIp.probe(&undefined_function, &ctx), None);

    // Plausible-looking rest of header, wrong type byte.
    let mut wrong_type = bytes.clone();
    wrong_type[0] = 0x80;
    assert_eq!(BacnetIp.probe(&wrong_type, &ctx), None);
}

#[test]
fn bacnet_ip_depth_ladder_is_monotonic() {
    let bytes = read_property_request();
    let meta = PacketMeta {
        timestamp: 0,
        caplen: bytes.len(),
        origlen: bytes.len(),
        link_type: LinkType(1),
    };
    let keys = BacnetIp
        .parse(&bytes, &ParseCtx::new(&[], Depth::Keys, &meta))
        .expect("valid");
    assert_eq!(keys.fields.get(APP), Some(&Value::from("bacnet")));
    assert!(keys.fields.get(BVLC_FUNCTION).is_none());
    assert!(keys.fields.get(SERVICE_CHOICE).is_none());

    let structural = BacnetIp
        .parse(&bytes, &ParseCtx::new(&[], Depth::Structure, &meta))
        .expect("valid");
    assert!(structural.fields.get(BVLC_FUNCTION).is_some());
    assert!(structural.fields.get(NPDU_CONTROL).is_some());
    assert!(structural.fields.get(SERVICE_CHOICE).is_none());
}

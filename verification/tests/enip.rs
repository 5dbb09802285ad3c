use pktflow::bytes::ParseError;
use pktflow::layer::{Depth, Hint, LayerPlugin, LinkType, PacketMeta, ParseCtx, ParsedLayer};
use pktflow::plugins::enip::{
    CIP_SERVICE, CMD_SEND_RR_DATA, CMD_SEND_UNIT_DATA, COMMAND, Enip, LENGTH, SESSION_HANDLE,
    STATUS,
};
use pktflow::value::Value;

fn parse(bytes: &[u8]) -> Result<ParsedLayer, ParseError> {
    let meta = PacketMeta {
        timestamp: 0,
        caplen: bytes.len(),
        origlen: bytes.len(),
        link_type: LinkType(1),
    };
    Enip.parse(bytes, &ParseCtx::new(&[], Depth::Full, &meta))
}

/// Builds one encapsulation message: 24-byte little-endian header +
/// `data` (exactly `data.len()` bytes, matching the `length` field).
fn encap(command: u16, session_handle: u32, status: u32, data: &[u8]) -> Vec<u8> {
    let mut b = Vec::with_capacity(24 + data.len());
    b.extend_from_slice(&command.to_le_bytes());
    b.extend_from_slice(&(data.len() as u16).to_le_bytes());
    b.extend_from_slice(&session_handle.to_le_bytes());
    b.extend_from_slice(&status.to_le_bytes());
    b.extend_from_slice(&[0u8; 8]); // sender context, opaque
    b.extend_from_slice(&0u32.to_le_bytes()); // options, reserved
    b.extend_from_slice(data);
    b
}

/// `RegisterSession` response: Protocol Version = 1, Option Flags = 0
/// (Vol 2 §2-4.9), session handle freshly assigned by the target.
fn register_session_response() -> Vec<u8> {
    let data = [1u16.to_le_bytes(), 0u16.to_le_bytes()].concat();
    encap(0x0065 /* RegisterSession */, 0x0000_2A2A, 0, &data)
}

/// `SendRRData` carrying an unconnected `Get_Attribute_Single` request
/// (service `0x0E`) for Identity (class 1) instance 1, attribute 3
/// (Serial Number) — a real, minimal explicit-messaging request.
fn send_rr_data_request() -> Vec<u8> {
    let cip_message = [
        0x0E, // service: Get_Attribute_Single, request (bit 7 clear)
        0x02, // request path size, in words
        0x20, 0x01, // 8-bit class segment: class 0x01 (Identity)
        0x24, 0x01, // 8-bit instance segment: instance 1
        0x30, 0x03, // 8-bit attribute segment: attribute 3
    ];
    let mut data = Vec::new();
    data.extend_from_slice(&0u32.to_le_bytes()); // interface handle (CIP)
    data.extend_from_slice(&5u16.to_le_bytes()); // timeout (seconds)
    data.extend_from_slice(&2u16.to_le_bytes()); // item count
    data.extend_from_slice(&0x0000u16.to_le_bytes()); // Null Address Item
    data.extend_from_slice(&0u16.to_le_bytes()); // ...length 0
    data.extend_from_slice(&0x00B2u16.to_le_bytes()); // Unconnected Data Item
    data.extend_from_slice(&(cip_message.len() as u16).to_le_bytes());
    data.extend_from_slice(&cip_message);
    encap(CMD_SEND_RR_DATA, 0x0000_2A2A, 0, &data)
}

/// The matching `SendRRData` response: service `0x8E` (request `0x0E`
/// with the response bit set), success, 4-byte serial number.
fn send_rr_data_response() -> Vec<u8> {
    let cip_message = [
        0x8E, // service: Get_Attribute_Single, response
        0x00, // reserved
        0x00, // general status: success
        0x00, // additional status size, in words
        0xEF, 0xBE, 0xAD, 0xDE, // serial number data (opaque)
    ];
    let mut data = Vec::new();
    data.extend_from_slice(&0u32.to_le_bytes());
    data.extend_from_slice(&0u16.to_le_bytes()); // timeout: n/a on a response
    data.extend_from_slice(&2u16.to_le_bytes());
    data.extend_from_slice(&0x0000u16.to_le_bytes());
    data.extend_from_slice(&0u16.to_le_bytes());
    data.extend_from_slice(&0x00B2u16.to_le_bytes());
    data.extend_from_slice(&(cip_message.len() as u16).to_le_bytes());
    data.extend_from_slice(&cip_message);
    encap(CMD_SEND_RR_DATA, 0x0000_2A2A, 0, &data)
}

/// `SendUnitData` over an already-open Class 3 connection: Connected
/// Address Item (the connection id) + Connected Data Item, whose data
/// is a 2-byte sequence count followed by the CIP message.
fn send_unit_data() -> Vec<u8> {
    let cip_message = [0x81, 0x00, 0x00, 0x00]; // Get_Attribute_All response
    let mut connected_data = Vec::new();
    connected_data.extend_from_slice(&7u16.to_le_bytes()); // sequence count
    connected_data.extend_from_slice(&cip_message);

    let mut data = Vec::new();
    data.extend_from_slice(&0u32.to_le_bytes());
    data.extend_from_slice(&0u16.to_le_bytes());
    data.extend_from_slice(&2u16.to_le_bytes());
    data.extend_from_slice(&0x00A1u16.to_le_bytes()); // Connected Address Item
    data.extend_from_slice(&4u16.to_le_bytes());
    data.extend_from_slice(&0x00C0_FFEEu32.to_le_bytes()); // connection id
    data.extend_from_slice(&0x00B1u16.to_le_bytes()); // Connected Data Item
    data.extend_from_slice(&(connected_data.len() as u16).to_le_bytes());
    data.extend_from_slice(&connected_data);
    encap(CMD_SEND_UNIT_DATA, 0x0000_2A2A, 0, &data)
}

/// `ListServices` request: no CIP message at all (encapsulation-level
/// command), even though it carries a nonzero session handle.
fn list_services_request() -> Vec<u8> {
    encap(0x0004 /* ListServices */, 0, 0, &[])
}

#[test]
fn register_session_response_extracts_session_and_status() {
    let bytes = register_session_response();
    let parsed = parse(&bytes).expect("valid frame");
    assert_eq!(parsed.header_len, bytes.len());
    assert_eq!(parsed.hint, Hint::Terminal);
    assert_eq!(
        parsed.fields.get(SESSION_HANDLE),
        Some(&Value::U64(0x0000_2A2A))
    );
    assert_eq!(parsed.fields.get(COMMAND), Some(&Value::U64(0x0065)));
    assert_eq!(parsed.fields.get(LENGTH), Some(&Value::U64(4)));
    assert_eq!(parsed.fields.get(STATUS), Some(&Value::U64(0)));
    assert_eq!(parsed.fields.get(CIP_SERVICE), None);
}

#[test]
fn send_rr_data_request_extracts_unconnected_service() {
    let bytes = send_rr_data_request();
    let parsed = parse(&bytes).expect("valid frame");
    assert_eq!(parsed.header_len, bytes.len());
    assert_eq!(parsed.fields.get(CIP_SERVICE), Some(&Value::U64(0x0E)));
}

#[test]
fn send_rr_data_response_extracts_service_with_response_bit() {
    let bytes = send_rr_data_response();
    let parsed = parse(&bytes).expect("valid frame");
    assert_eq!(parsed.fields.get(CIP_SERVICE), Some(&Value::U64(0x8E)));
}

#[test]
fn send_unit_data_skips_sequence_count_before_service() {
    let bytes = send_unit_data();
    let parsed = parse(&bytes).expect("valid frame");
    assert_eq!(parsed.header_len, bytes.len());
    assert_eq!(
        parsed.fields.get(COMMAND),
        Some(&Value::U64(u64::from(CMD_SEND_UNIT_DATA)))
    );
    // Without skipping the 2-byte sequence count first, this would read 0x07 (its low
    // byte) instead of the real service byte 0x81.
    assert_eq!(parsed.fields.get(CIP_SERVICE), Some(&Value::U64(0x81)));
}

#[test]
fn non_cip_commands_report_no_service() {
    let bytes = list_services_request();
    let parsed = parse(&bytes).expect("valid frame");
    assert_eq!(parsed.header_len, bytes.len());
    assert_eq!(parsed.fields.get(COMMAND), Some(&Value::U64(0x0004)));
    assert_eq!(parsed.fields.get(CIP_SERVICE), None);
}

#[test]
fn malformed_cpf_list_yields_no_service_but_still_parses() {
    // SendRRData claiming an item count of 5 when the body holds none:
    // the encapsulation frame itself is well-formed (length matches),
    // only the CPF walk inside it runs dry.
    let mut data = Vec::new();
    data.extend_from_slice(&0u32.to_le_bytes());
    data.extend_from_slice(&0u16.to_le_bytes());
    data.extend_from_slice(&5u16.to_le_bytes()); // item count: lies
    let bytes = encap(CMD_SEND_RR_DATA, 1, 0, &data);
    let parsed = parse(&bytes).expect("encapsulation frame is well-formed");
    assert_eq!(parsed.header_len, bytes.len());
    assert_eq!(parsed.fields.get(CIP_SERVICE), None);
}

#[test]
fn non_zero_options_declines() {
    let mut bytes = register_session_response();
    bytes[20..24].copy_from_slice(&1u32.to_le_bytes()); // options
    assert!(parse(&bytes).is_err());
}

#[test]
fn declared_length_longer_than_available_declines() {
    let mut bytes = send_rr_data_request();
    let too_long = (bytes.len() as u16 - 24 + 1).to_le_bytes();
    bytes[2..4].copy_from_slice(&too_long);
    assert!(parse(&bytes).is_err());
}

#[test]
fn enip_truncated_frames_decline() {
    for bytes in [
        register_session_response(),
        send_rr_data_request(),
        send_rr_data_response(),
        send_unit_data(),
        list_services_request(),
    ] {
        let expected_len = parse(&bytes).expect("valid frame").header_len;
        for n in 0..expected_len {
            assert!(
                parse(&bytes[..n]).is_err(),
                "expected decline at truncated length {n} of {expected_len}"
            );
        }
    }
}

#[test]
fn enip_depth_ladder_is_monotonic() {
    let bytes = send_rr_data_request();
    let meta = PacketMeta {
        timestamp: 0,
        caplen: bytes.len(),
        origlen: bytes.len(),
        link_type: LinkType(1),
    };
    let keys = Enip
        .parse(&bytes, &ParseCtx::new(&[], Depth::Keys, &meta))
        .expect("valid");
    assert!(keys.fields.get(SESSION_HANDLE).is_some());
    assert!(keys.fields.get(COMMAND).is_none());
    assert!(keys.fields.get(CIP_SERVICE).is_none());

    let structural = Enip
        .parse(&bytes, &ParseCtx::new(&[], Depth::Structure, &meta))
        .expect("valid");
    assert!(structural.fields.get(COMMAND).is_some());
    assert!(structural.fields.get(LENGTH).is_some());
    assert!(structural.fields.get(STATUS).is_some());
    assert!(structural.fields.get(CIP_SERVICE).is_none());
}

use pktflow::bytes::ParseError;
use pktflow::layer::{Depth, Hint, LayerPlugin, LinkType, PacketMeta, ParseCtx, ParsedLayer};
use pktflow::plugins::dhcpv6::{
    APP, CLIENT_DUID, Dhcpv6, MSG_TYPE, OPTION_CLIENTID, OPTION_IAADDR, OPTION_IA_NA,
    OPTION_IA_TA, OPTION_SERVERID, PREFERRED_LIFETIME, RELAY_FORW, RELAY_REPL, REQUESTED_IP,
    SERVER_DUID, TRANSACTION_ID, VALID_LIFETIME,
};
use pktflow::value::Value;

fn meta(len: usize) -> PacketMeta {
    PacketMeta {
        timestamp: 0,
        caplen: len,
        origlen: len,
        link_type: LinkType(1),
    }
}

fn parse(bytes: &[u8]) -> Result<ParsedLayer, ParseError> {
    let outer = Vec::new();
    let m = meta(bytes.len());
    Dhcpv6.parse(bytes, &ParseCtx::new(&outer, Depth::Full, &m))
}

/// SOLICIT with Client Identifier only — the minimal valid message.
fn solicit_bytes() -> Vec<u8> {
    let mut m = vec![1, 0xBE, 0xEF, 0x01]; // SOLICIT, xid=0xBEEF01
    m.extend_from_slice(&OPTION_CLIENTID.to_be_bytes());
    m.extend_from_slice(&4u16.to_be_bytes());
    m.extend_from_slice(&[0x00, 0x01, 0xAA, 0xBB]); // opaque DUID bytes
    m
}

#[test]
fn solicit_parses_msg_type_and_transaction_id() {
    let bytes = solicit_bytes();
    let parsed = parse(&bytes).expect("SOLICIT parses");
    assert_eq!(parsed.header_len, bytes.len());
    assert_eq!(parsed.fields.get(APP), Some(&Value::from("dhcpv6")));
    assert_eq!(parsed.fields.get(MSG_TYPE), Some(&Value::U64(1)));
    assert_eq!(
        parsed.fields.get(TRANSACTION_ID),
        Some(&Value::U64(0xBEEF01))
    );
    assert_eq!(
        parsed.fields.get(CLIENT_DUID),
        Some(&Value::from(&[0x00, 0x01, 0xAA, 0xBB][..]))
    );
    assert_eq!(parsed.hint, Hint::Terminal);
}

#[test]
fn advertise_extracts_server_duid_and_ia_na_address() {
    // ADVERTISE: Server Identifier + IA_NA(IAID, T1, T2, IAADDR(addr,
    // preferred=3600, valid=7200)) — RFC 8415 §21.4/§21.6 shapes.
    let mut m = vec![2, 0x00, 0x00, 0x02]; // ADVERTISE, xid=2
    m.extend_from_slice(&OPTION_SERVERID.to_be_bytes());
    m.extend_from_slice(&3u16.to_be_bytes());
    m.extend_from_slice(&[0x00, 0x02, 0x01]);

    let mut iaaddr = Vec::new();
    iaaddr.extend_from_slice(&OPTION_IAADDR.to_be_bytes());
    iaaddr.extend_from_slice(&24u16.to_be_bytes());
    let addr = [
        0x20, 0x01, 0x0D, 0xB8, 0, 0, 0, 0, 0, 0, 0, 0, 0, 0, 0, 0x01,
    ];
    iaaddr.extend_from_slice(&addr);
    iaaddr.extend_from_slice(&3600u32.to_be_bytes());
    iaaddr.extend_from_slice(&7200u32.to_be_bytes());

    let mut ia_na_data = Vec::new();
    ia_na_data.extend_from_slice(&0xAABBCCDDu32.to_be_bytes()); // IAID
    ia_na_data.extend_from_slice(&0u32.to_be_bytes()); // T1
    ia_na_data.extend_from_slice(&0u32.to_be_bytes()); // T2
    ia_na_data.extend_from_slice(&iaaddr);

    m.extend_from_slice(&OPTION_IA_NA.to_be_bytes());
    m.extend_from_slice(&(ia_na_data.len() as u16).to_be_bytes());
    m.extend_from_slice(&ia_na_data);

    let parsed = parse(&m).expect("ADVERTISE parses");
    assert_eq!(parsed.header_len, m.len());
    assert_eq!(parsed.fields.get(MSG_TYPE), Some(&Value::U64(2)));
    assert_eq!(
        parsed.fields.get(SERVER_DUID),
        Some(&Value::from(&[0x00, 0x02, 0x01][..]))
    );
    assert_eq!(
        parsed.fields.get(REQUESTED_IP),
        Some(&Value::from(&addr[..]))
    );
    assert_eq!(
        parsed.fields.get(PREFERRED_LIFETIME),
        Some(&Value::U64(3600))
    );
    assert_eq!(parsed.fields.get(VALID_LIFETIME), Some(&Value::U64(7200)));
}

#[test]
fn ia_ta_address_is_read_with_the_shorter_four_byte_skip() {
    // IA_TA has no T1/T2 (§21.5): just a 4-byte IAID before suboptions.
    let mut iaaddr = Vec::new();
    iaaddr.extend_from_slice(&OPTION_IAADDR.to_be_bytes());
    iaaddr.extend_from_slice(&24u16.to_be_bytes());
    let addr = [0xFD, 0, 0, 0, 0, 0, 0, 0, 0, 0, 0, 0, 0, 0, 0, 0x02];
    iaaddr.extend_from_slice(&addr);
    iaaddr.extend_from_slice(&100u32.to_be_bytes());
    iaaddr.extend_from_slice(&200u32.to_be_bytes());

    let mut ia_ta_data = vec![0x11, 0x22, 0x33, 0x44]; // IAID
    ia_ta_data.extend_from_slice(&iaaddr);

    let mut m = vec![5, 0, 0, 3]; // RENEW, xid=3
    m.extend_from_slice(&OPTION_IA_TA.to_be_bytes());
    m.extend_from_slice(&(ia_ta_data.len() as u16).to_be_bytes());
    m.extend_from_slice(&ia_ta_data);

    let parsed = parse(&m).expect("RENEW with IA_TA parses");
    assert_eq!(
        parsed.fields.get(REQUESTED_IP),
        Some(&Value::from(&addr[..]))
    );
    assert_eq!(
        parsed.fields.get(PREFERRED_LIFETIME),
        Some(&Value::U64(100))
    );
    assert_eq!(parsed.fields.get(VALID_LIFETIME), Some(&Value::U64(200)));
}

#[test]
fn relay_forw_and_relay_repl_are_declined() {
    // A relay message's real layout (hop-count + two v6 addresses)
    // would otherwise be misread as transaction-id + bogus options —
    // this plugin declines instead (module doc).
    for relay_type in [RELAY_FORW, RELAY_REPL] {
        let mut m = vec![relay_type, 0]; // hop-count
        m.extend_from_slice(&[0xFE, 0x80, 0, 0, 0, 0, 0, 0, 0, 0, 0, 0, 0, 0, 0, 1]);
        m.extend_from_slice(&[0xFF, 2, 0, 0, 0, 0, 0, 0, 0, 0, 0, 0, 0, 0x01, 0x00, 2]);
        assert!(parse(&m).is_err(), "relay type {relay_type} must decline");
    }
}

#[test]
fn dhcpv6_truncated_header_declines() {
    assert!(parse(&[1, 0, 0]).is_err()); // only 3 bytes: no full transaction-id
}

#[test]
fn truncated_option_header_declines() {
    // A dangling 3-byte remainder can't be a full option header (4
    // bytes minimum) — no end marker to fall back on, so this is a
    // truncated/malformed message, not trailing padding.
    let mut m = vec![1, 0, 0, 1];
    m.extend_from_slice(&[0, 1, 0]);
    assert!(parse(&m).is_err());
}

#[test]
fn declared_option_length_longer_than_available_declines() {
    let mut m = vec![1, 0, 0, 1];
    m.extend_from_slice(&OPTION_CLIENTID.to_be_bytes());
    m.extend_from_slice(&10u16.to_be_bytes()); // claims 10 bytes, none follow
    assert!(parse(&m).is_err());
}

#[test]
fn short_ia_na_without_iaid_t1_t2_declines() {
    let mut m = vec![3, 0, 0, 1]; // REQUEST
    m.extend_from_slice(&OPTION_IA_NA.to_be_bytes());
    m.extend_from_slice(&4u16.to_be_bytes()); // shorter than the required 12
    m.extend_from_slice(&[0; 4]);
    assert!(parse(&m).is_err());
}

#[test]
fn ia_na_with_no_iaaddr_suboption_leaves_requested_ip_absent() {
    let mut ia_na_data = vec![0; 12]; // IAID + T1 + T2, no suboptions
    let mut m = vec![3, 0, 0, 1]; // REQUEST
    m.extend_from_slice(&OPTION_IA_NA.to_be_bytes());
    m.extend_from_slice(&(ia_na_data.len() as u16).to_be_bytes());
    m.append(&mut ia_na_data);

    let parsed = parse(&m).expect("bare IA_NA parses");
    assert_eq!(parsed.fields.get(REQUESTED_IP), None);
}

#[test]
fn bare_message_with_no_options_is_valid() {
    let bytes = vec![11, 0, 0, 9]; // INFORMATION-REQUEST, no options
    let parsed = parse(&bytes).expect("bare INFORMATION-REQUEST");
    assert_eq!(parsed.header_len, 4);
    assert_eq!(parsed.fields.get(MSG_TYPE), Some(&Value::U64(11)));
    assert_eq!(parsed.fields.get(CLIENT_DUID), None);
}

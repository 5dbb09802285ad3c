use pktflow::bytes::ParseError;
use pktflow::layer::{Depth, Hint, LayerPlugin, LinkType, PacketMeta, ParseCtx, ParsedLayer};
use pktflow::plugins::dot11::{
    ADDR1, ADDR2, ADDR3, ADDR4, Dot11, FLAGS, FLAG_FROM_DS, FLAG_PROTECTED, FLAG_TO_DS,
    FRAME_SUBTYPE, FRAME_TYPE, QOS_CONTROL, SEQ_NUM, SSID, SUBTYPE_ACK, SUBTYPE_BEACON,
    SUBTYPE_CTS, SUBTYPE_PROBE_REQUEST, TYPE_CONTROL, TYPE_DATA, TYPE_MANAGEMENT,
};
use pktflow::value::Value;

fn meta(len: usize) -> PacketMeta {
    PacketMeta {
        timestamp: 0,
        caplen: len,
        origlen: len,
        link_type: LinkType(105),
    }
}

fn ctx(depth: Depth, meta: &PacketMeta) -> ParseCtx<'_> {
    ParseCtx::new(&[], depth, meta)
}

fn parse(bytes: &[u8], depth: Depth) -> Result<ParsedLayer, ParseError> {
    let m = meta(bytes.len());
    Dot11.parse(bytes, &ctx(depth, &m))
}

const AP: [u8; 6] = [0x02, 0x00, 0x00, 0x00, 0x00, 0x01];
const STA: [u8; 6] = [0x02, 0x00, 0x00, 0x00, 0x00, 0x02];
const BROADCAST: [u8; 6] = [0xFF; 6];

fn fc(frame_type: u8, subtype: u8) -> u8 {
    (subtype << 4) | (frame_type << 2)
}

/// Beacon (mgmt, subtype 8): fixed fields all-zero timestamp, 100 TU
/// beacon interval, ESS capability, then an SSID IE "TestNet" and a
/// trailing Supported Rates IE (proves the walk finds SSID even when
/// it isn't the last element).
fn beacon_frame() -> Vec<u8> {
    let mut b = vec![fc(TYPE_MANAGEMENT, SUBTYPE_BEACON), 0x00];
    b.extend_from_slice(&0u16.to_le_bytes()); // duration
    b.extend_from_slice(&BROADCAST); // addr1 (DA)
    b.extend_from_slice(&AP); // addr2 (SA)
    b.extend_from_slice(&AP); // addr3 (BSSID)
    b.extend_from_slice(&0x0010u16.to_le_bytes()); // seq_ctl: seq=1
    b.extend_from_slice(&[0; 8]); // timestamp
    b.extend_from_slice(&100u16.to_le_bytes()); // beacon interval
    b.extend_from_slice(&0x0001u16.to_le_bytes()); // capability: ESS
    b.push(0); // SSID element id
    b.push(7);
    b.extend_from_slice(b"TestNet");
    b.push(1); // Supported Rates element id
    b.push(2);
    b.extend_from_slice(&[0x82, 0x84]);
    b
}

/// Probe Request (mgmt, subtype 4): no fixed fields, IEs start
/// immediately — SSID first, wildcard-length-7 "TestNet".
fn probe_request_frame() -> Vec<u8> {
    let mut b = vec![fc(TYPE_MANAGEMENT, SUBTYPE_PROBE_REQUEST), 0x00];
    b.extend_from_slice(&0u16.to_le_bytes());
    b.extend_from_slice(&BROADCAST); // addr1
    b.extend_from_slice(&STA); // addr2
    b.extend_from_slice(&BROADCAST); // addr3 (wildcard BSSID)
    b.extend_from_slice(&0x0020u16.to_le_bytes());
    b.push(0);
    b.push(7);
    b.extend_from_slice(b"TestNet");
    b
}

/// RTS (control, subtype 11): RA + TA, no body.
fn rts_frame() -> Vec<u8> {
    let mut b = vec![fc(TYPE_CONTROL, 0b1011), 0x00];
    b.extend_from_slice(&44u16.to_le_bytes());
    b.extend_from_slice(&AP); // addr1 (RA)
    b.extend_from_slice(&STA); // addr2 (TA)
    b
}

/// CTS (control, subtype 12): RA only.
fn cts_frame() -> Vec<u8> {
    let mut b = vec![fc(TYPE_CONTROL, SUBTYPE_CTS), 0x00];
    b.extend_from_slice(&32u16.to_le_bytes());
    b.extend_from_slice(&STA);
    b
}

/// ACK (control, subtype 13): RA only.
fn ack_frame() -> Vec<u8> {
    let mut b = vec![fc(TYPE_CONTROL, SUBTYPE_ACK), 0x00];
    b.extend_from_slice(&0u16.to_le_bytes());
    b.extend_from_slice(&AP);
    b
}

/// QoS Data, unprotected, to-DS (STA -> AP), carrying an
/// RFC-1042-shaped LLC/SNAP IPv4 payload — the "ordinary data frame"
/// case that routes onward to `llc`.
fn qos_data_frame(protected: bool) -> Vec<u8> {
    let mut flags = FLAG_TO_DS;
    if protected {
        flags |= FLAG_PROTECTED;
    }
    let mut b = vec![fc(TYPE_DATA, 0b1000), flags];
    b.extend_from_slice(&0u16.to_le_bytes());
    b.extend_from_slice(&AP); // addr1 (BSSID)
    b.extend_from_slice(&STA); // addr2 (TA/SA)
    b.extend_from_slice(&[0x0A, 0, 0, 0, 0, 0x09]); // addr3 (DA)
    b.extend_from_slice(&0x0030u16.to_le_bytes()); // seq_ctl
    b.extend_from_slice(&0u16.to_le_bytes()); // qos_control
    if protected {
        b.extend_from_slice(&[0xDE, 0xAD, 0xBE, 0xEF, 0x00, 0x11, 0x22, 0x33]);
    } else {
        // LLC/SNAP, RFC 1042, EtherType 0x0800 (IPv4).
        b.extend_from_slice(&[0xAA, 0xAA, 0x03, 0x00, 0x00, 0x00, 0x08, 0x00]);
    }
    b
}

/// QoS Null (data, subtype 12): no body at all.
fn qos_null_frame() -> Vec<u8> {
    let mut b = vec![fc(TYPE_DATA, 0b1100), FLAG_TO_DS];
    b.extend_from_slice(&0u16.to_le_bytes());
    b.extend_from_slice(&AP);
    b.extend_from_slice(&STA);
    b.extend_from_slice(&[0x0A, 0, 0, 0, 0, 0x09]);
    b.extend_from_slice(&0x0000u16.to_le_bytes());
    b.extend_from_slice(&0u16.to_le_bytes()); // qos_control
    b
}

/// Four-address WDS data frame (to-DS and from-DS both set).
fn wds_data_frame() -> Vec<u8> {
    let mut b = vec![fc(TYPE_DATA, 0b0000), FLAG_TO_DS | FLAG_FROM_DS];
    b.extend_from_slice(&0u16.to_le_bytes());
    b.extend_from_slice(&AP);
    b.extend_from_slice(&STA);
    b.extend_from_slice(&[0x0A, 0, 0, 0, 0, 0x09]);
    b.extend_from_slice(&0x0040u16.to_le_bytes());
    b.extend_from_slice(&[0x0A, 0, 0, 0, 0, 0x08]); // addr4
    b.extend_from_slice(&[0xAA, 0xAA, 0x03, 0x00, 0x00, 0x00, 0x08, 0x00]);
    b
}

#[test]
fn parses_a_beacon_and_extracts_ssid_past_a_leading_ie() {
    let bytes = beacon_frame();
    let parsed = parse(&bytes, Depth::Full).expect("valid beacon");
    assert_eq!(
        parsed.header_len,
        bytes.len(),
        "mgmt consumes the whole frame"
    );
    assert_eq!(parsed.fields.get(ADDR1), Some(&Value::from(&BROADCAST[..])));
    assert_eq!(parsed.fields.get(ADDR2), Some(&Value::from(&AP[..])));
    assert_eq!(parsed.fields.get(ADDR3), Some(&Value::from(&AP[..])));
    assert_eq!(parsed.fields.get(FRAME_TYPE), Some(&Value::U64(0)));
    assert_eq!(
        parsed.fields.get(FRAME_SUBTYPE),
        Some(&Value::U64(u64::from(SUBTYPE_BEACON)))
    );
    assert_eq!(parsed.fields.get(SEQ_NUM), Some(&Value::U64(1)));
    assert_eq!(parsed.fields.get(SSID), Some(&Value::from("TestNet")));
    assert_eq!(parsed.hint, Hint::Terminal);
}

#[test]
fn parses_a_probe_request_ssid_with_no_fixed_fields() {
    let bytes = probe_request_frame();
    let parsed = parse(&bytes, Depth::Full).expect("valid probe request");
    assert_eq!(parsed.fields.get(SSID), Some(&Value::from("TestNet")));
    assert_eq!(parsed.hint, Hint::Terminal);
}

#[test]
fn control_frames_ack_rts_cts_are_terminal_with_no_body() {
    for (bytes, expect_addr2) in [
        (rts_frame(), true),
        (cts_frame(), false),
        (ack_frame(), false),
    ] {
        let parsed = parse(&bytes, Depth::Full).expect("valid control frame");
        assert_eq!(parsed.header_len, bytes.len());
        assert_eq!(parsed.hint, Hint::Terminal);
        assert_eq!(parsed.fields.get(ADDR2).is_some(), expect_addr2);
    }
}

#[test]
fn qos_data_with_a_body_routes_to_llc() {
    let bytes = qos_data_frame(false);
    let parsed = parse(&bytes, Depth::Full).expect("valid QoS data");
    assert_eq!(parsed.header_len, 26, "FC2+Dur2+A1..3(18)+SeqCtl2+QoS2");
    assert_eq!(parsed.hint, Hint::ByProtocol("llc"));
    assert_eq!(parsed.fields.get(QOS_CONTROL), Some(&Value::U64(0)));
}

#[test]
fn protected_data_frame_stops_at_dot11_never_reaching_llc() {
    let bytes = qos_data_frame(true);
    let parsed = parse(&bytes, Depth::Full).expect("valid protected QoS data");
    assert_eq!(parsed.hint, Hint::Terminal);
    assert_eq!(
        parsed.fields.get(FLAGS),
        Some(&Value::U64(u64::from(FLAG_TO_DS | FLAG_PROTECTED)))
    );
}

#[test]
fn qos_null_has_no_body_and_is_terminal() {
    let bytes = qos_null_frame();
    let parsed = parse(&bytes, Depth::Full).expect("valid QoS-Null");
    assert_eq!(parsed.header_len, bytes.len());
    assert_eq!(parsed.hint, Hint::Terminal);
}

#[test]
fn wds_four_address_frame_extracts_addr4() {
    let bytes = wds_data_frame();
    let parsed = parse(&bytes, Depth::Full).expect("valid WDS frame");
    assert_eq!(
        parsed.fields.get(ADDR4),
        Some(&Value::from(&[0x0A, 0, 0, 0, 0, 0x08][..]))
    );
    assert_eq!(parsed.hint, Hint::ByProtocol("llc"));
}

#[test]
fn structural_depth_omits_full_only_fields() {
    let bytes = beacon_frame();
    let parsed = parse(&bytes, Depth::Structure).expect("valid beacon");
    assert!(parsed.fields.get(FRAME_SUBTYPE).is_some());
    assert_eq!(parsed.fields.get(SSID), None);
}

#[test]
fn keys_depth_carries_only_the_addresses() {
    let bytes = beacon_frame();
    let parsed = parse(&bytes, Depth::Keys).expect("valid beacon");
    assert_eq!(parsed.fields.get(ADDR1), Some(&Value::from(&BROADCAST[..])));
    assert_eq!(parsed.fields.get(FRAME_TYPE), None);
}

/// Control and data frames have a fully deterministic `header_len`
/// (every field along the way is a fixed-size, unconditionally
/// required read) — so, like `ethernet`/`icmpv4`, any prefix shorter
/// than that boundary must decline outright.
#[test]
fn truncated_control_and_data_frames_decline() {
    for bytes in [
        rts_frame(),
        cts_frame(),
        ack_frame(),
        qos_data_frame(false),
        qos_data_frame(true),
        qos_null_frame(),
        wds_data_frame(),
    ] {
        let header_len = parse(&bytes, Depth::Full).expect("valid frame").header_len;
        for n in 0..header_len {
            assert!(
                parse(&bytes[..n], Depth::Full).is_err(),
                "prefix of {n}/{header_len} header bytes must decline"
            );
        }
    }
}

/// Management frames only *require* the fixed 24-byte MAC header
/// (Frame Control, Duration, three addresses, Sequence Control) — a
/// prefix shorter than that can never parse.
#[test]
fn management_frames_require_at_least_the_fixed_mac_header() {
    for bytes in [beacon_frame(), probe_request_frame()] {
        for n in 0..24 {
            assert!(
                parse(&bytes[..n], Depth::Full).is_err(),
                "prefix of {n}/24 fixed-header bytes must decline"
            );
        }
    }
}

/// Past the fixed header, a management frame's body/IE region is
/// consumed best-effort (the whole frame is this Terminal
/// layer's header, same stance as CDP/LLDP) — a body cut short
/// mid-IE still parses the frame; it just can't find the SSID that
/// isn't fully there.
#[test]
fn beacon_with_a_body_cut_short_still_parses_without_the_ssid() {
    let bytes = beacon_frame();
    let truncated = &bytes[..30]; // fixed header (24) + 6 of 12 fixed fields
    let parsed = parse(truncated, Depth::Full).expect("fixed header still parses");
    assert_eq!(parsed.header_len, truncated.len());
    assert_eq!(parsed.fields.get(SSID), None);
}

#[test]
fn header_is_self_contained() {
    for bytes in [
        beacon_frame(),
        rts_frame(),
        cts_frame(),
        qos_data_frame(false),
    ] {
        let parsed = parse(&bytes, Depth::Full).expect("valid frame");
        let reparsed = parse(&bytes[..parsed.header_len], Depth::Full)
            .expect("header must be self-contained");
        assert_eq!(reparsed.header_len, parsed.header_len);
    }
}

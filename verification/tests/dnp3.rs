use pktflow::bytes::ParseError;
use pktflow::layer::{
    Depth, Hint, LayerPlugin, LinkType, PacketMeta, ParseCtx, ParsedLayer,
};
use pktflow::plugins::dnp3::{
    CONTROL, DESTINATION, Dnp3, FUNCTION_CODE, LENGTH, SOURCE, START_BYTES,
};
use pktflow::value::Value;

fn parse(bytes: &[u8]) -> Result<ParsedLayer, ParseError> {
    let meta = PacketMeta {
        timestamp: 0,
        caplen: bytes.len(),
        origlen: bytes.len(),
        link_type: LinkType(1),
    };
    Dnp3.parse(bytes, &ParseCtx::new(&[], Depth::Full, &meta))
}

/// Link-layer header only, no user data: a RESET_LINK_STATES primary
/// frame (control 0x40) from station 3 to station 1024, length 5.
fn link_only_frame() -> Vec<u8> {
    let mut b = vec![0x05, 0x64, 0x05, 0x40];
    b.extend_from_slice(&1024u16.to_le_bytes()); // destination
    b.extend_from_slice(&3u16.to_le_bytes()); // source
    b.extend_from_slice(&[0xAB, 0xCD]); // header CRC (not validated)
    b
}

/// Same station pair, carrying a transport header + application
/// control + function code 1 (Read) — length 8 (5 + 3).
fn read_request_frame() -> Vec<u8> {
    let mut b = vec![0x05, 0x64, 0x08, 0xC4];
    b.extend_from_slice(&1024u16.to_le_bytes());
    b.extend_from_slice(&3u16.to_le_bytes());
    b.extend_from_slice(&[0xAB, 0xCD]); // header CRC
    b.push(0xC1); // transport header: FIN|FIR, seq 1
    b.push(0xC0); // application control: FIR|FIN, seq 0
    b.push(0x01); // function code: Read
    b
}

#[test]
fn link_only_frame_parses_header_with_no_function_code() {
    let bytes = link_only_frame();
    let parsed = parse(&bytes).expect("valid frame");
    assert_eq!(parsed.header_len, 10);
    assert_eq!(parsed.hint, Hint::Terminal);
    assert_eq!(parsed.fields.get(SOURCE), Some(&Value::U64(3)));
    assert_eq!(parsed.fields.get(DESTINATION), Some(&Value::U64(1024)));
    assert_eq!(parsed.fields.get(START_BYTES), Some(&Value::U64(0x0564)));
    assert_eq!(parsed.fields.get(LENGTH), Some(&Value::U64(5)));
    assert_eq!(parsed.fields.get(CONTROL), Some(&Value::U64(0x40)));
    assert_eq!(parsed.fields.get(FUNCTION_CODE), None);
}

#[test]
fn read_request_extracts_best_effort_function_code() {
    let bytes = read_request_frame();
    let parsed = parse(&bytes).expect("valid frame");
    assert_eq!(parsed.header_len, 13);
    assert_eq!(parsed.fields.get(FUNCTION_CODE), Some(&Value::U64(1)));
    assert_eq!(parsed.fields.get(SOURCE), Some(&Value::U64(3)));
    assert_eq!(parsed.fields.get(DESTINATION), Some(&Value::U64(1024)));
}

#[test]
fn wrong_sync_bytes_decline() {
    let mut bytes = link_only_frame();
    bytes[0] = 0x00;
    assert!(parse(&bytes).is_err());
}

#[test]
fn length_below_minimum_declines() {
    let mut bytes = link_only_frame();
    bytes[2] = 4; // below the 5-byte control+destination+source floor
    assert!(parse(&bytes).is_err());
}

#[test]
fn dnp3_truncated_frames_decline() {
    for bytes in [link_only_frame(), read_request_frame()] {
        let expected_len = parse(&bytes).expect("valid frame").header_len;
        assert!(parse(&bytes[..expected_len - 1]).is_err());
    }
}

#[test]
fn probe_scores_confidently_on_sync_and_declines_on_noise() {
    let bytes = link_only_frame();
    let meta = PacketMeta {
        timestamp: 0,
        caplen: bytes.len(),
        origlen: bytes.len(),
        link_type: LinkType(1),
    };
    let ctx = ParseCtx::new(&[], Depth::Full, &meta);
    assert_eq!(Dnp3.probe(&bytes, &ctx).map(|c| c.get()), Some(90));

    // Plausible-looking rest of header, wrong sync: the probe stays silent.
    let mut noise = bytes.clone();
    noise[0] = 0x06;
    assert_eq!(Dnp3.probe(&noise, &ctx), None);
}

#[test]
fn dnp3_depth_ladder_is_monotonic() {
    let bytes = read_request_frame();
    let meta = PacketMeta {
        timestamp: 0,
        caplen: bytes.len(),
        origlen: bytes.len(),
        link_type: LinkType(1),
    };
    let keys = Dnp3
        .parse(&bytes, &ParseCtx::new(&[], Depth::Keys, &meta))
        .expect("valid");
    assert_eq!(keys.fields.get(SOURCE), Some(&Value::U64(3)));
    assert!(keys.fields.get(CONTROL).is_none());
    assert!(keys.fields.get(FUNCTION_CODE).is_none());

    let structural = Dnp3
        .parse(&bytes, &ParseCtx::new(&[], Depth::Structure, &meta))
        .expect("valid");
    assert!(structural.fields.get(CONTROL).is_some());
    assert!(structural.fields.get(FUNCTION_CODE).is_none());
}

use pktflow::bytes::ParseError;
use pktflow::layer::{
    Depth, Hint, LayerPlugin, LinkType, PacketMeta, ParseCtx, ParsedLayer, RouteId,
};
use pktflow::plugins::geneve::{
    C_BIT, C_FLAG, Geneve, OPTIONS, OPT_LEN, O_BIT, O_FLAG, PROTOCOL_TYPE, VERSION, VNI,
};
use pktflow::value::Value;

fn parse(bytes: &[u8]) -> Result<ParsedLayer, ParseError> {
    let meta = PacketMeta {
        timestamp: 0,
        caplen: bytes.len(),
        origlen: bytes.len(),
        link_type: LinkType(1),
    };
    Geneve.parse(bytes, &ParseCtx::new(&[], Depth::Full, &meta))
}

/// A Geneve header with `opt_len` 4-byte option words, VNI 5001,
/// protocol_type IPv4 (0x0800).
fn header(opt_len: u8, o: bool, c: bool) -> Vec<u8> {
    let mut flags = 0u8;
    if o {
        flags |= O_FLAG;
    }
    if c {
        flags |= C_FLAG;
    }
    let mut h = vec![opt_len & 0x3F, flags];
    h.extend_from_slice(&0x0800u16.to_be_bytes());
    h.extend_from_slice(&5001u32.to_be_bytes()[1..4]); // VNI
    h.push(0); // reserved
    h.extend(std::iter::repeat_n(0xAB, usize::from(opt_len) * 4));
    h
}

#[test]
fn bare_header_no_options_parses() {
    let bytes = header(0, false, false);
    let parsed = parse(&bytes).expect("valid header");
    assert_eq!(parsed.header_len, 8);
    assert_eq!(parsed.fields.get(VNI), Some(&Value::U64(5001)));
    assert_eq!(parsed.fields.get(VERSION), Some(&Value::U64(0)));
    assert_eq!(parsed.fields.get(OPT_LEN), Some(&Value::U64(0)));
    assert_eq!(parsed.fields.get(O_BIT), Some(&Value::Bool(false)));
    assert_eq!(parsed.fields.get(C_BIT), Some(&Value::Bool(false)));
    assert_eq!(parsed.fields.get(PROTOCOL_TYPE), Some(&Value::U64(0x0800)));
    assert_eq!(parsed.fields.get(OPTIONS), Some(&Value::from(&b""[..])));
    assert_eq!(parsed.hint, Hint::Route(RouteId::EtherType(0x0800)));
}

#[test]
fn options_present_are_captured_raw_and_header_len_grows() {
    let bytes = header(3, true, true);
    let parsed = parse(&bytes).expect("valid header with options");
    assert_eq!(parsed.header_len, 8 + 12);
    assert_eq!(parsed.fields.get(OPT_LEN), Some(&Value::U64(3)));
    assert_eq!(parsed.fields.get(O_BIT), Some(&Value::Bool(true)));
    assert_eq!(parsed.fields.get(C_BIT), Some(&Value::Bool(true)));
    assert_eq!(
        parsed.fields.get(OPTIONS),
        Some(&Value::from(&[0xABu8; 12][..]))
    );
}

#[test]
fn truncated_options_decline() {
    let bytes = header(3, false, false);
    assert!(parse(&bytes[..bytes.len() - 1]).is_err());
}

#[test]
fn truncated_fixed_header_declines() {
    let bytes = header(0, false, false);
    for cut in 0..8 {
        assert!(parse(&bytes[..cut]).is_err(), "cut at {cut}");
    }
}

#[test]
fn geneve_nonzero_version_declines() {
    let mut bytes = header(0, false, false);
    bytes[0] |= 0x40; // version = 1
    assert!(parse(&bytes).is_err());
}

#[test]
fn depth_gating_hides_fields_below_full() {
    let bytes = header(1, false, false);
    let meta = PacketMeta {
        timestamp: 0,
        caplen: bytes.len(),
        origlen: bytes.len(),
        link_type: LinkType(1),
    };

    let keys_only = Geneve
        .parse(&bytes, &ParseCtx::new(&[], Depth::Keys, &meta))
        .expect("valid header");
    assert_eq!(keys_only.fields.get(VNI), Some(&Value::U64(5001)));
    assert_eq!(keys_only.fields.get(VERSION), None);
    assert_eq!(keys_only.fields.get(OPTIONS), None);
    // header_len must stay correct regardless of depth: downstream
    // offset math cannot depend on how much was requested.
    assert_eq!(keys_only.header_len, 12);

    let structural = Geneve
        .parse(&bytes, &ParseCtx::new(&[], Depth::Structure, &meta))
        .expect("valid header");
    assert_eq!(
        structural.fields.get(PROTOCOL_TYPE),
        Some(&Value::U64(0x0800))
    );
    assert_eq!(structural.fields.get(OPTIONS), None);
}

use pktflow::bytes::ParseError;
use pktflow::layer::{Depth, Hint, LayerPlugin, LinkType, PacketMeta, ParseCtx, ParsedLayer};
use pktflow::plugins::bfd::{
    A_BIT, Bfd, DESIRED_MIN_TX, DETECT_MULT, LENGTH, MY_DISCRIMINATOR, STATE,
    YOUR_DISCRIMINATOR,
};
use pktflow::value::Value;

fn parse(bytes: &[u8]) -> Result<ParsedLayer, ParseError> {
    let meta = PacketMeta {
        timestamp: 0,
        caplen: bytes.len(),
        origlen: bytes.len(),
        link_type: LinkType(1),
    };
    Bfd.parse(bytes, &ParseCtx::new(&[], Depth::Full, &meta))
}

/// RFC 5880 §4.1 control packet: version 1, the caller's state/flags,
/// detect mult 3, 100ms intervals.
fn control(state: u8, flags: u8, my_disc: u32, your_disc: u32) -> Vec<u8> {
    let mut b = vec![0x20, (state << 6) | flags, 3, 24];
    b.extend_from_slice(&my_disc.to_be_bytes());
    b.extend_from_slice(&your_disc.to_be_bytes());
    b.extend_from_slice(&100_000u32.to_be_bytes());
    b.extend_from_slice(&100_000u32.to_be_bytes());
    b.extend_from_slice(&0u32.to_be_bytes());
    b
}

#[test]
fn up_packet_parses_exactly() {
    // Established session: state Up (3), my disc 7, your disc 9.
    let bytes = control(3, 0, 7, 9);
    let parsed = parse(&bytes).expect("valid Up control packet");
    assert_eq!(parsed.header_len, 24);
    assert_eq!(parsed.hint, Hint::Terminal);
    assert_eq!(parsed.fields.get(MY_DISCRIMINATOR), Some(&Value::U64(7)));
    assert_eq!(parsed.fields.get(YOUR_DISCRIMINATOR), Some(&Value::U64(9)));
    assert_eq!(parsed.fields.get(STATE), Some(&Value::U64(3)));
    assert_eq!(parsed.fields.get(DETECT_MULT), Some(&Value::U64(3)));
    assert_eq!(
        parsed.fields.get(DESIRED_MIN_TX),
        Some(&Value::U64(100_000))
    );
}

#[test]
fn bring_up_with_zero_your_discriminator_parses() {
    // §6.8.6: Your Discriminator is 0 until the peer is learned.
    let bytes = control(1, 0, 7, 0);
    let parsed = parse(&bytes).expect("Down packet before peer learned");
    assert_eq!(parsed.fields.get(YOUR_DISCRIMINATOR), Some(&Value::U64(0)));
}

#[test]
fn authentication_section_extends_header_len() {
    // A bit set, 8 extra auth bytes: length 32, all consumed.
    let mut bytes = control(3, A_BIT, 7, 9);
    bytes[3] = 32;
    bytes.extend_from_slice(&[1, 8, 2, 0, 0xDE, 0xAD, 0xBE, 0xEF]);
    let parsed = parse(&bytes).expect("authenticated control packet");
    assert_eq!(parsed.header_len, 32);
    assert_eq!(parsed.fields.get(LENGTH), Some(&Value::U64(32)));
}

#[test]
fn zero_version_declines() {
    let mut bytes = control(3, 0, 7, 9);
    bytes[0] = 0x00; // version 0 (RFC 5880 obsoleted draft versions)
    assert!(parse(&bytes).is_err());
}

#[test]
fn zero_detect_mult_declines() {
    let mut bytes = control(3, 0, 7, 9);
    bytes[2] = 0;
    assert!(parse(&bytes).is_err());
}

#[test]
fn zero_my_discriminator_declines() {
    assert!(parse(&control(3, 0, 0, 9)).is_err());
}

#[test]
fn undersized_length_declines() {
    let mut bytes = control(3, 0, 7, 9);
    bytes[3] = 23;
    assert!(parse(&bytes).is_err());
}

#[test]
fn auth_bit_without_auth_bytes_declines() {
    // A set but length still 24: §6.8.6 requires >= 26.
    let bytes = control(3, A_BIT, 7, 9);
    assert!(parse(&bytes).is_err());
}

#[test]
fn truncated_packets_decline() {
    let bytes = control(3, 0, 7, 9);
    for n in 0..bytes.len() {
        assert!(parse(&bytes[..n]).is_err(), "prefix of {n} bytes");
    }
}

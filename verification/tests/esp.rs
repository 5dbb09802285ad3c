use pktflow::bytes::ParseError;
use pktflow::layer::{Depth, Hint, LayerPlugin, LinkType, PacketMeta, ParseCtx, ParsedLayer};
use pktflow::plugins::esp::{Esp, SEQUENCE, SPI};
use pktflow::value::Value;

// SPI 0x1234_5678, sequence 42, followed by 12 bytes of "ciphertext"
// this plugin must never look inside.
const FRAME: [u8; 20] = [
    0x12, 0x34, 0x56, 0x78, 0x00, 0x00, 0x00, 0x2A, 0xDE, 0xAD, 0xBE, 0xEF, 0xCA, 0xFE, 0xBA,
    0xBE, 0x00, 0x11, 0x22, 0x33,
];

fn parse(bytes: &[u8]) -> Result<ParsedLayer, ParseError> {
    let meta = PacketMeta {
        timestamp: 0,
        caplen: bytes.len(),
        origlen: bytes.len(),
        link_type: LinkType(1),
    };
    Esp.parse(bytes, &ParseCtx::new(&[], Depth::Full, &meta))
}

#[test]
fn parses_spi_and_sequence_stops_terminal() {
    let parsed = parse(&FRAME).expect("valid header");
    assert_eq!(parsed.header_len, 8);
    assert_eq!(parsed.fields.get(SPI), Some(&Value::U64(0x1234_5678)));
    assert_eq!(parsed.fields.get(SEQUENCE), Some(&Value::U64(42)));
    assert_eq!(parsed.fields.len(), 2, "no Full fields past the header");
    assert_eq!(parsed.hint, Hint::Terminal);
}

#[test]
fn esp_truncated_header_declines() {
    for cut in 0..8 {
        assert!(parse(&FRAME[..cut]).is_err(), "cut at {cut}");
    }
}

#[test]
fn header_len_is_fixed_regardless_of_trailing_ciphertext_length() {
    // Only the SPI+Sequence pair is ever consumed, no matter how much
    // (or how little) ciphertext trails it.
    assert_eq!(parse(&FRAME[..8]).expect("bare header").header_len, 8);
    assert_eq!(parse(&FRAME).expect("with ciphertext").header_len, 8);
}

#[test]
fn depth_gating_hides_sequence_below_structural() {
    let meta = PacketMeta {
        timestamp: 0,
        caplen: FRAME.len(),
        origlen: FRAME.len(),
        link_type: LinkType(1),
    };

    let keys_only = Esp
        .parse(&FRAME, &ParseCtx::new(&[], Depth::Keys, &meta))
        .expect("valid header");
    assert_eq!(keys_only.fields.get(SPI), Some(&Value::U64(0x1234_5678)));
    assert_eq!(keys_only.fields.get(SEQUENCE), None);
    assert_eq!(keys_only.header_len, 8);

    let none_depth = Esp
        .parse(&FRAME, &ParseCtx::new(&[], Depth::Nothing, &meta))
        .expect("valid header");
    assert_eq!(none_depth.fields.get(SPI), None);
    assert_eq!(none_depth.header_len, 8);
}

use pktflow::bytes::ParseError;
use pktflow::layer::{Depth, LayerPlugin, LinkType, PacketMeta, ParseCtx, ParsedLayer};
use pktflow::plugins::gre::{C_BIT, Gre, K_BIT, S_BIT};
use pktflow::value::Value;

fn parse(bytes: &[u8]) -> Result<ParsedLayer, ParseError> {
    let meta = PacketMeta {
        timestamp: 0,
        caplen: bytes.len(),
        origlen: bytes.len(),
        link_type: LinkType(1),
    };
    Gre.parse(bytes, &ParseCtx::new(&[], Depth::Full, &meta))
}

/// GRE header with the requested option words present.
fn header(c: bool, k: bool, s: bool) -> Vec<u8> {
    let mut flags = 0u16;
    if c {
        flags |= C_BIT;
    }
    if k {
        flags |= K_BIT;
    }
    if s {
        flags |= S_BIT;
    }
    let mut h = Vec::new();
    h.extend_from_slice(&flags.to_be_bytes());
    h.extend_from_slice(&0x0800u16.to_be_bytes());
    if c {
        h.extend_from_slice(&[0xAB, 0xCD, 0x00, 0x00]);
    }
    if k {
        h.extend_from_slice(&7u32.to_be_bytes());
    }
    if s {
        h.extend_from_slice(&42u32.to_be_bytes());
    }
    h
}

#[test]
fn all_eight_flag_combinations_size_correctly() {
    for bits in 0..8u8 {
        let (c, k, s) = (bits & 4 != 0, bits & 2 != 0, bits & 1 != 0);
        let bytes = header(c, k, s);
        let expected = 4 + 4 * usize::from(c) + 4 * usize::from(k) + 4 * usize::from(s);
        let parsed = parse(&bytes).expect("valid header");
        assert_eq!(parsed.header_len, expected, "C={c} K={k} S={s}");
        assert_eq!(
            parsed.fields.get("key"),
            Some(&Value::U64(if k { 7 } else { 0 })),
            "key always present"
        );
        // Truncation inside the last optional word declines cleanly.
        assert!(parse(&bytes[..expected - 1]).is_err(), "C={c} K={k} S={s}");
    }
}

#[test]
fn gre_nonzero_version_declines() {
    let mut bytes = header(false, false, false);
    bytes[1] |= 0x01; // version 1 (PPTP's enhanced GRE): not ours
    assert!(parse(&bytes).is_err());
}

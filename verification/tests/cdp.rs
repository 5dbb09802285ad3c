use pktflow::layer::{Depth, Hint, LayerPlugin, LinkType, PacketMeta, ParseCtx};
use pktflow::plugins::cdp::{
    CAPABILITIES, Cdp, DEVICE_ID, IP_ADDRESS, NATIVE_VLAN, PLATFORM, PORT_ID, TLV_ADDRESS,
    TLV_CAPABILITIES, TLV_DEVICE_ID, TLV_NATIVE_VLAN, TLV_PLATFORM, TLV_PORT_ID, TTL, VERSION,
};
use pktflow::value::Value;

fn meta(len: usize) -> PacketMeta {
    PacketMeta {
        timestamp: 0,
        caplen: len,
        origlen: len,
        link_type: LinkType(1),
    }
}

fn ctx(depth: Depth, meta: &PacketMeta) -> ParseCtx<'_> {
    ParseCtx::new(&[], depth, meta)
}

fn tlv(t: u16, value: &[u8]) -> Vec<u8> {
    let mut out = t.to_be_bytes().to_vec();
    out.extend_from_slice(
        &(u16::try_from(4 + value.len()).expect("cdp tlv value fits")).to_be_bytes(),
    );
    out.extend_from_slice(value);
    out
}

/// A real-shaped CDP announcement: port id, platform, capabilities
/// (router+switch), native VLAN, one IPv4 address, and device id.
/// Device id — the only TLV `parse` requires — is placed *last* so
/// every strict prefix of this fixture is unambiguously truncated
/// (rule 1): CDP has no explicit end-of-message marker the way
/// LLDP/DHCP do, so a prefix that happened to end exactly on an
/// earlier TLV boundary with device_id already seen would otherwise
/// be indistinguishable from a legitimately short message.
fn fixture() -> Vec<u8> {
    let mut b = vec![0x02, 0x3C, 0x00, 0x00]; // version 2, ttl 60s, checksum placeholder
    b.extend_from_slice(&tlv(TLV_PORT_ID, b"GigabitEthernet0/1"));
    b.extend_from_slice(&tlv(TLV_PLATFORM, b"cisco WS-C3750"));
    b.extend_from_slice(&tlv(TLV_CAPABILITIES, &0x0000_0029u32.to_be_bytes())); // router+switch+IGMP
    b.extend_from_slice(&tlv(TLV_NATIVE_VLAN, &1u16.to_be_bytes()));
    let mut addr_value = 1u32.to_be_bytes().to_vec(); // one address
    addr_value.push(1); // protocol_type: NLPID
    addr_value.push(1); // protocol_length
    addr_value.push(0xCC); // protocol: IP
    addr_value.extend_from_slice(&4u16.to_be_bytes()); // address_length
    addr_value.extend_from_slice(&[192, 0, 2, 1]); // address
    b.extend_from_slice(&tlv(TLV_ADDRESS, &addr_value));
    b.extend_from_slice(&tlv(TLV_DEVICE_ID, b"switch1.example.net"));
    b
}

#[test]
fn cdp_parses_the_fixture_frame() {
    let bytes = fixture();
    let m = meta(bytes.len());
    let parsed = Cdp.parse(&bytes, &ctx(Depth::Full, &m)).expect("valid CDP");
    assert_eq!(parsed.header_len, bytes.len());
    assert_eq!(parsed.hint, Hint::Terminal);
    assert_eq!(parsed.fields.get(VERSION), Some(&Value::U64(2)));
    assert_eq!(parsed.fields.get(TTL), Some(&Value::U64(60)));
    assert_eq!(
        parsed.fields.get(DEVICE_ID),
        Some(&Value::from("switch1.example.net"))
    );
    assert_eq!(
        parsed.fields.get(PORT_ID),
        Some(&Value::from("GigabitEthernet0/1"))
    );
    assert_eq!(
        parsed.fields.get(PLATFORM),
        Some(&Value::from("cisco WS-C3750"))
    );
    assert_eq!(parsed.fields.get(CAPABILITIES), Some(&Value::U64(0x29)));
    assert_eq!(parsed.fields.get(NATIVE_VLAN), Some(&Value::U64(1)));
    assert_eq!(
        parsed.fields.get(IP_ADDRESS),
        Some(&Value::from(&[192, 0, 2, 1][..]))
    );
}

#[test]
fn structural_depth_omits_tlv_fields() {
    let bytes = fixture();
    let m = meta(bytes.len());
    let parsed = Cdp
        .parse(&bytes, &ctx(Depth::Structure, &m))
        .expect("valid CDP");
    assert_eq!(parsed.fields.get(VERSION), Some(&Value::U64(2)));
    assert_eq!(parsed.fields.get(DEVICE_ID), None);
}

#[test]
fn unknown_tlv_is_skipped_by_its_own_length() {
    let mut b = vec![0x02, 0x3C, 0x00, 0x00];
    b.extend_from_slice(&tlv(0x0099, &[0xDE, 0xAD, 0xBE, 0xEF])); // unassigned type
    b.extend_from_slice(&tlv(TLV_DEVICE_ID, b"still-parsed"));
    let m = meta(b.len());
    let parsed = Cdp
        .parse(&b, &ctx(Depth::Full, &m))
        .expect("unknown TLV skipped, not fatal");
    assert_eq!(
        parsed.fields.get(DEVICE_ID),
        Some(&Value::from("still-parsed"))
    );
}

#[test]
fn trailing_zero_padding_does_not_break_the_parse() {
    let mut b = fixture();
    let real_len = b.len();
    b.extend_from_slice(&[0x00, 0x00, 0x00, 0x00]); // Ethernet minimum-frame padding
    let m = meta(b.len());
    let parsed = Cdp.parse(&b, &ctx(Depth::Full, &m)).expect("valid CDP");
    assert_eq!(
        parsed.header_len, real_len,
        "padding excluded from header_len"
    );
}

#[test]
fn malformed_tlv_length_declines_cleanly() {
    let mut b = vec![0x02, 0x3C, 0x00, 0x00];
    b.extend_from_slice(&TLV_DEVICE_ID.to_be_bytes());
    b.extend_from_slice(&2u16.to_be_bytes()); // length shorter than its own 4-byte header
    let m = meta(b.len());
    assert!(Cdp.parse(&b, &ctx(Depth::Full, &m)).is_err());
}

#[test]
fn cdp_oversized_tlv_length_declines_cleanly() {
    let mut b = vec![0x02, 0x3C, 0x00, 0x00];
    b.extend_from_slice(&TLV_DEVICE_ID.to_be_bytes());
    b.extend_from_slice(&200u16.to_be_bytes()); // claims far more than present
    b.extend_from_slice(b"short");
    let m = meta(b.len());
    assert!(Cdp.parse(&b, &ctx(Depth::Full, &m)).is_err());
}

#[test]
fn cdp_truncated_frames_decline() {
    let bytes = fixture();
    let m = meta(bytes.len());
    for n in 0..bytes.len() {
        let full_ctx = ctx(Depth::Full, &m);
        assert!(
            Cdp.parse(&bytes[..n], &full_ctx).is_err(),
            "prefix of {n}/{} bytes must decline",
            bytes.len()
        );
    }
}

use pktflow::layer::{Depth, Hint, LayerPlugin, LinkType, PacketMeta, ParseCtx};
use pktflow::plugins::eapol::{
    Eapol, KEY_DATA_LENGTH, KEY_DESCRIPTOR_TYPE, KEY_INFO, KEY_LENGTH, NONCE, PACKET_TYPE,
    REPLAY_COUNTER,
};
use pktflow::value::Value;

fn meta(len: usize) -> PacketMeta {
    PacketMeta {
        timestamp: 0,
        caplen: len,
        origlen: len,
        link_type: LinkType(1),
    }
}

fn ctx(depth: Depth, meta: &PacketMeta) -> ParseCtx<'_> {
    ParseCtx::new(&[], depth, meta)
}

/// EAPOL-Start: no body.
fn start_frame() -> Vec<u8> {
    vec![0x01, 0x01, 0x00, 0x00]
}

/// A structurally-real-shaped EAPOL-Key frame (802.1X-2020 §11.9),
/// key descriptor type 2 (IEEE 802.11/RSN), no trailing Key Data.
fn key_frame() -> Vec<u8> {
    let mut body = Vec::new();
    body.push(0x02); // key_descriptor_type: RSN
    body.extend_from_slice(&0x008Au16.to_be_bytes()); // key_info bitmask
    body.extend_from_slice(&16u16.to_be_bytes()); // key_length
    body.extend_from_slice(&1u64.to_be_bytes()); // replay_counter
    body.extend_from_slice(&[0xAA; 32]); // nonce
    body.extend_from_slice(&[0; 16]); // key_iv
    body.extend_from_slice(&0u64.to_be_bytes()); // key_rsc
    body.extend_from_slice(&[0; 8]); // key id / reserved
    body.extend_from_slice(&[0; 16]); // key_mic (unset on message 1)
    body.extend_from_slice(&0u16.to_be_bytes()); // key_data_length

    let mut b = vec![0x01, 0x03]; // version 1, packet_type Key
    b.extend_from_slice(
        &u16::try_from(body.len())
            .expect("eapol body fits")
            .to_be_bytes(),
    );
    b.extend_from_slice(&body);
    b
}

#[test]
fn parses_the_start_frame_with_no_body() {
    let bytes = start_frame();
    let m = meta(bytes.len());
    let parsed = Eapol
        .parse(&bytes, &ctx(Depth::Full, &m))
        .expect("valid EAPOL-Start");
    assert_eq!(parsed.header_len, 4);
    assert_eq!(parsed.hint, Hint::Terminal);
    assert_eq!(parsed.fields.get(PACKET_TYPE), Some(&Value::U64(1)));
    assert_eq!(parsed.fields.get(KEY_INFO), None, "not a Key packet");
}

/// Every named 802.1X-2020 Table 11-5 packet type except Key (its
/// own dedicated fixture below): 0 EAP-Packet, 1 EAPOL-Start,
/// 2 EAPOL-Logoff, 4 EAPOL-Encapsulated-ASF-Alert. All behave
/// identically in v1 (no Full-only fields, raw body consumed as
/// opaque) — only `packet_type == Key` branches, so this proves the
/// non-Key path is honored uniformly across the whole named set, not
/// just the one Start sample above.
#[test]
fn every_non_key_packet_type_parses_uniformly() {
    for (packet_type, body) in [
        (0u8, &b"\x02\x01\x00\x04"[..]), // EAP-Packet: inner EAP not walked
        (1, &b""[..]),                   // EAPOL-Start
        (2, &b""[..]),                   // EAPOL-Logoff
        (4, &b"\x00\x00\x00\x00"[..]),   // EAPOL-Encapsulated-ASF-Alert
    ] {
        let mut bytes = vec![0x01, packet_type];
        bytes.extend_from_slice(&u16::try_from(body.len()).expect("fits").to_be_bytes());
        bytes.extend_from_slice(body);

        let m = meta(bytes.len());
        let parsed = Eapol
            .parse(&bytes, &ctx(Depth::Full, &m))
            .unwrap_or_else(|e| panic!("packet_type {packet_type} declined: {e:?}"));
        assert_eq!(parsed.header_len, bytes.len());
        assert_eq!(
            parsed.fields.get(PACKET_TYPE),
            Some(&Value::U64(u64::from(packet_type)))
        );
        assert_eq!(parsed.fields.get(KEY_INFO), None);
    }
}

#[test]
fn parses_the_key_frame_fields() {
    let bytes = key_frame();
    let m = meta(bytes.len());
    let parsed = Eapol
        .parse(&bytes, &ctx(Depth::Full, &m))
        .expect("valid EAPOL-Key");
    assert_eq!(parsed.header_len, bytes.len());
    assert_eq!(parsed.fields.get(PACKET_TYPE), Some(&Value::U64(3)));
    assert_eq!(parsed.fields.get(KEY_DESCRIPTOR_TYPE), Some(&Value::U64(2)));
    assert_eq!(parsed.fields.get(KEY_INFO), Some(&Value::U64(0x008A)));
    assert_eq!(parsed.fields.get(KEY_LENGTH), Some(&Value::U64(16)));
    assert_eq!(parsed.fields.get(REPLAY_COUNTER), Some(&Value::U64(1)));
    assert_eq!(
        parsed.fields.get(NONCE),
        Some(&Value::from(&[0xAA; 32][..]))
    );
    assert_eq!(parsed.fields.get(KEY_DATA_LENGTH), Some(&Value::U64(0)));
}

#[test]
fn structural_depth_omits_key_fields() {
    let bytes = key_frame();
    let m = meta(bytes.len());
    let parsed = Eapol
        .parse(&bytes, &ctx(Depth::Structure, &m))
        .expect("valid EAPOL-Key");
    assert_eq!(parsed.fields.get(PACKET_TYPE), Some(&Value::U64(3)));
    assert_eq!(parsed.fields.get(KEY_INFO), None);
}

#[test]
fn key_packet_type_with_a_body_too_short_for_the_descriptor_declines() {
    let mut bytes = vec![0x01, 0x03];
    bytes.extend_from_slice(&10u16.to_be_bytes()); // far short of the 95-byte descriptor
    bytes.extend_from_slice(&[0; 10]);
    let m = meta(bytes.len());
    assert!(Eapol.parse(&bytes, &ctx(Depth::Full, &m)).is_err());
}

#[test]
fn oversized_body_length_declines_cleanly() {
    let mut bytes = vec![0x01, 0x00]; // EAP-Packet
    bytes.extend_from_slice(&200u16.to_be_bytes()); // claims far more than present
    bytes.extend_from_slice(&[0; 5]);
    let m = meta(bytes.len());
    assert!(Eapol.parse(&bytes, &ctx(Depth::Full, &m)).is_err());
}

#[test]
fn eapol_truncated_frames_decline() {
    for bytes in [start_frame(), key_frame()] {
        let m = meta(bytes.len());
        for n in 0..bytes.len() {
            let full_ctx = ctx(Depth::Full, &m);
            assert!(
                Eapol.parse(&bytes[..n], &full_ctx).is_err(),
                "prefix of {n}/{} bytes must decline",
                bytes.len()
            );
        }
    }
}

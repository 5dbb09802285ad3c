use pktflow::layer::{Depth, Hint, LayerPlugin, LinkType, PacketMeta, ParseCtx};
use pktflow::plugins::kerberos::{
    APP, AP_REP, AP_REQ, AS_REP, AS_REQ, DER_LENGTH, KRB_ERROR, Kerberos, MSG_TYPE, TGS_REP,
    TGS_REQ,
};
use pktflow::value::Value;

const APPLICATION_CONSTRUCTED_TAG: u8 = 0x60;

fn meta(len: usize) -> PacketMeta {
    PacketMeta {
        timestamp: 0,
        caplen: len,
        origlen: len,
        link_type: LinkType(1),
    }
}

fn ctx(depth: Depth, meta: &PacketMeta) -> ParseCtx<'_> {
    ParseCtx::new(&[], depth, meta)
}

/// A `[APPLICATION msg_type] SEQUENCE` with `content_len` opaque
/// content bytes, DER short-form length.
fn message_short(msg_type: u8, content_len: usize) -> Vec<u8> {
    let mut b = vec![APPLICATION_CONSTRUCTED_TAG | msg_type, content_len as u8];
    b.extend(std::iter::repeat_n(0xABu8, content_len));
    b
}

/// Same, but with a DER long-form length (>127 bytes of content).
fn message_long(msg_type: u8, content_len: usize) -> Vec<u8> {
    let mut b = vec![APPLICATION_CONSTRUCTED_TAG | msg_type];
    let len_bytes = (content_len as u32).to_be_bytes();
    // Trim to the minimal number of octets DER requires.
    let trimmed: Vec<u8> = {
        let mut i = 0;
        while i < 3 && len_bytes[i] == 0 {
            i += 1;
        }
        len_bytes[i..].to_vec()
    };
    b.push(0x80 | trimmed.len() as u8);
    b.extend_from_slice(&trimmed);
    b.extend(std::iter::repeat_n(0xCDu8, content_len));
    b
}

#[test]
fn as_req_and_as_rep_parse_msg_type_and_length() {
    for (msg_type, expected) in [(AS_REQ, 10u64), (AS_REP, 11)] {
        let bytes = message_short(msg_type, 20);
        let m = meta(bytes.len());
        let parsed = Kerberos
            .parse(&bytes, &ctx(Depth::Full, &m))
            .unwrap_or_else(|e| panic!("msg_type {msg_type}: {e:?}"));
        assert_eq!(parsed.header_len, bytes.len());
        assert_eq!(parsed.hint, Hint::Terminal);
        assert_eq!(parsed.fields.get(APP), Some(&Value::from("kerberos")));
        assert_eq!(parsed.fields.get(MSG_TYPE), Some(&Value::U64(expected)));
        assert_eq!(parsed.fields.get(DER_LENGTH), Some(&Value::U64(20)));
    }
}

#[test]
fn tgs_req_tgs_rep_ap_req_ap_rep_and_error_all_recognized() {
    for msg_type in [TGS_REQ, TGS_REP, AP_REQ, AP_REP, KRB_ERROR] {
        let bytes = message_short(msg_type, 4);
        let m = meta(bytes.len());
        let parsed = Kerberos
            .parse(&bytes, &ctx(Depth::Full, &m))
            .unwrap_or_else(|e| panic!("msg_type {msg_type}: {e:?}"));
        assert_eq!(
            parsed.fields.get(MSG_TYPE),
            Some(&Value::U64(u64::from(msg_type)))
        );
    }
}

#[test]
fn der_long_form_length_parses_correctly() {
    let bytes = message_long(AS_REQ, 300);
    let m = meta(bytes.len());
    let parsed = Kerberos
        .parse(&bytes, &ctx(Depth::Full, &m))
        .expect("valid long-form length");
    assert_eq!(parsed.header_len, bytes.len());
    assert_eq!(parsed.fields.get(DER_LENGTH), Some(&Value::U64(300)));
}

/// The short/long-form boundary itself: length byte `0x7f` (short
/// form, value 127) vs `0x81` (long form, 1 width octet) vs `0x82`
/// (long form, 2 width octets).
#[test]
fn short_and_long_form_boundary_bytes() {
    let short_127 = message_short(AS_REQ, 127);
    let m = meta(short_127.len());
    let parsed = Kerberos
        .parse(&short_127, &ctx(Depth::Full, &m))
        .expect("0x7f is short form");
    assert_eq!(parsed.fields.get(DER_LENGTH), Some(&Value::U64(127)));

    let mut long_1_octet = vec![APPLICATION_CONSTRUCTED_TAG | AS_REQ, 0x81, 128];
    long_1_octet.extend(std::iter::repeat_n(0u8, 128));
    let m = meta(long_1_octet.len());
    let parsed = Kerberos
        .parse(&long_1_octet, &ctx(Depth::Full, &m))
        .expect("0x81 is one-octet long form");
    assert_eq!(parsed.fields.get(DER_LENGTH), Some(&Value::U64(128)));

    let mut long_2_octet = vec![APPLICATION_CONSTRUCTED_TAG | AS_REQ, 0x82, 0x01, 0x00];
    long_2_octet.extend(std::iter::repeat_n(0u8, 256));
    let m = meta(long_2_octet.len());
    let parsed = Kerberos
        .parse(&long_2_octet, &ctx(Depth::Full, &m))
        .expect("0x82 is two-octet long form");
    assert_eq!(parsed.fields.get(DER_LENGTH), Some(&Value::U64(256)));
}

#[test]
fn indefinite_length_declines() {
    let bytes = vec![APPLICATION_CONSTRUCTED_TAG | AS_REQ, 0x80, 0x00, 0x00];
    let m = meta(bytes.len());
    assert!(Kerberos.parse(&bytes, &ctx(Depth::Full, &m)).is_err());
}

#[test]
fn non_application_tag_declines() {
    // A SEQUENCE (Universal, constructed, tag 16 = 0x30), not an
    // APPLICATION tag.
    let bytes = vec![0x30, 0x02, 0xAA, 0xBB];
    let m = meta(bytes.len());
    assert!(Kerberos.parse(&bytes, &ctx(Depth::Full, &m)).is_err());
}

#[test]
fn unrecognized_msg_type_declines() {
    // msg-type 5 is unassigned in RFC 4120 §5.10's registry.
    let bytes = message_short(5, 4);
    let m = meta(bytes.len());
    assert!(Kerberos.parse(&bytes, &ctx(Depth::Full, &m)).is_err());
}

#[test]
fn depth_none_omits_every_field() {
    let bytes = message_short(AS_REQ, 4);
    let m = meta(bytes.len());
    let parsed = Kerberos
        .parse(&bytes, &ctx(Depth::Nothing, &m))
        .expect("valid");
    assert!(parsed.fields.is_empty());
}

#[test]
fn kerberos_keys_depth_only_has_app() {
    let bytes = message_short(AS_REQ, 4);
    let m = meta(bytes.len());
    let parsed = Kerberos
        .parse(&bytes, &ctx(Depth::Keys, &m))
        .expect("valid");
    assert_eq!(parsed.fields.get(APP), Some(&Value::from("kerberos")));
    assert_eq!(parsed.fields.get(MSG_TYPE), None);
}

#[test]
fn kerberos_truncated_frames_decline_at_every_prefix() {
    let bytes = message_short(AS_REQ, 20);
    let m = meta(bytes.len());
    let full = ctx(Depth::Full, &m);
    for n in 0..bytes.len() {
        assert!(
            Kerberos.parse(&bytes[..n], &full).is_err(),
            "prefix of {n}/{} bytes must decline",
            bytes.len()
        );
    }
}

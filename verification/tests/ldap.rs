use pktflow::layer::{Depth, Hint, LayerPlugin, LinkType, PacketMeta, ParseCtx};
use pktflow::plugins::ldap::{
    APP, BIND_DN, Ldap, MESSAGE_ID, PROTOCOL_OP, TAG_INTEGER, TAG_OCTET_STRING, TAG_SEQUENCE,
};
use pktflow::value::Value;

fn meta(len: usize) -> PacketMeta {
    PacketMeta {
        timestamp: 0,
        caplen: len,
        origlen: len,
        link_type: LinkType(1),
    }
}

fn ctx(depth: Depth, meta: &PacketMeta) -> ParseCtx<'_> {
    ParseCtx::new(&[], depth, meta)
}

fn tlv(tag: u8, content: &[u8]) -> Vec<u8> {
    let mut b = vec![tag, content.len() as u8];
    b.extend_from_slice(content);
    b
}

fn ldap_message(message_id: u8, op_tag: u8, op_content: &[u8]) -> Vec<u8> {
    let mut content = tlv(TAG_INTEGER, &[message_id]);
    content.extend_from_slice(&tlv(op_tag, op_content));
    let mut msg = vec![TAG_SEQUENCE, content.len() as u8];
    msg.extend_from_slice(&content);
    msg
}

/// A simple-auth `bindRequest`: version 3, DN, then a 2-byte
/// authentication choice this plugin never touches.
fn bind_request(message_id: u8, dn: &str) -> Vec<u8> {
    let mut op = tlv(TAG_INTEGER, &[3]);
    op.extend_from_slice(&tlv(TAG_OCTET_STRING, dn.as_bytes()));
    op.extend_from_slice(&[0x80, 0x00]); // simple authentication, empty password
    ldap_message(message_id, 0x60, &op) // [APPLICATION 0], constructed
}

#[test]
fn bind_request_recovers_message_id_op_and_dn() {
    let bytes = bind_request(1, "cn=admin,dc=example,dc=com");
    let m = meta(bytes.len());
    let parsed = Ldap
        .parse(&bytes, &ctx(Depth::Full, &m))
        .expect("valid bindRequest");
    assert_eq!(parsed.header_len, bytes.len());
    assert_eq!(parsed.hint, Hint::Terminal);
    assert_eq!(parsed.fields.get(APP), Some(&Value::from("ldap")));
    assert_eq!(parsed.fields.get(MESSAGE_ID), Some(&Value::U64(1)));
    assert_eq!(parsed.fields.get(PROTOCOL_OP), Some(&Value::U64(0)));
    assert_eq!(
        parsed.fields.get(BIND_DN),
        Some(&Value::from("cn=admin,dc=example,dc=com"))
    );
}

#[test]
fn search_request_recovers_message_id_and_op_but_no_bind_dn() {
    // searchRequest ::= [APPLICATION 3] SEQUENCE {...}. The filter
    // (a CHOICE/SET the plugin never walks) is opaque content here.
    let filter = [0xA0u8, 0x03, 0x87, 0x01, b'*']; // present filter, opaque shape
    let bytes = ldap_message(2, 0x63, &filter); // [APPLICATION 3], constructed
    let m = meta(bytes.len());
    let parsed = Ldap
        .parse(&bytes, &ctx(Depth::Full, &m))
        .expect("valid searchRequest");
    assert_eq!(parsed.fields.get(MESSAGE_ID), Some(&Value::U64(2)));
    assert_eq!(parsed.fields.get(PROTOCOL_OP), Some(&Value::U64(3)));
    assert_eq!(parsed.fields.get(BIND_DN), None);
}

#[test]
fn unbind_request_has_no_content_and_no_bind_dn() {
    // unbindRequest ::= [APPLICATION 2] SEQUENCE {} — an empty body.
    let bytes = ldap_message(3, 0x62, &[]);
    let m = meta(bytes.len());
    let parsed = Ldap
        .parse(&bytes, &ctx(Depth::Full, &m))
        .expect("valid unbindRequest");
    assert_eq!(parsed.fields.get(PROTOCOL_OP), Some(&Value::U64(2)));
    assert_eq!(parsed.fields.get(BIND_DN), None);
}

#[test]
fn depth_gates_message_id_and_bind_dn() {
    let bytes = bind_request(1, "cn=admin,dc=example,dc=com");
    let m = meta(bytes.len());
    let keys = Ldap.parse(&bytes, &ctx(Depth::Keys, &m)).expect("valid");
    assert_eq!(keys.fields.get(APP), Some(&Value::from("ldap")));
    assert_eq!(keys.fields.get(MESSAGE_ID), None);
    assert_eq!(keys.fields.get(BIND_DN), None);

    let structural = Ldap
        .parse(&bytes, &ctx(Depth::Structure, &m))
        .expect("valid");
    assert_eq!(structural.fields.get(MESSAGE_ID), Some(&Value::U64(1)));
    assert_eq!(structural.fields.get(PROTOCOL_OP), Some(&Value::U64(0)));
    assert_eq!(structural.fields.get(BIND_DN), None);
}

#[test]
fn non_sequence_outer_tag_declines() {
    let bytes = vec![0x04, 0x02, 0xAA, 0xBB]; // OCTET STRING, not SEQUENCE
    let m = meta(bytes.len());
    assert!(Ldap.parse(&bytes, &ctx(Depth::Full, &m)).is_err());
}

#[test]
fn missing_message_id_declines() {
    // protocolOp where messageID should be.
    let content = tlv(0x62, &[]);
    let mut bytes = vec![TAG_SEQUENCE, content.len() as u8];
    bytes.extend_from_slice(&content);
    let m = meta(bytes.len());
    assert!(Ldap.parse(&bytes, &ctx(Depth::Full, &m)).is_err());
}

#[test]
fn non_application_protocol_op_declines() {
    // messageID, then a Universal-class TLV instead of an
    // APPLICATION-tagged protocolOp.
    let mut content = tlv(TAG_INTEGER, &[1]);
    content.extend_from_slice(&tlv(0x30, &[]));
    let mut bytes = vec![TAG_SEQUENCE, content.len() as u8];
    bytes.extend_from_slice(&content);
    let m = meta(bytes.len());
    assert!(Ldap.parse(&bytes, &ctx(Depth::Full, &m)).is_err());
}

#[test]
fn malformed_bind_body_omits_dn_without_declining() {
    // version present, but the second element isn't an OCTET STRING —
    // bind_dn is simply absent, the whole message still parses.
    let mut op = tlv(TAG_INTEGER, &[3]);
    op.extend_from_slice(&tlv(0x30, &[])); // not OCTET STRING
    let bytes = ldap_message(1, 0x60, &op);
    let m = meta(bytes.len());
    let parsed = Ldap
        .parse(&bytes, &ctx(Depth::Full, &m))
        .expect("still a valid LDAPMessage");
    assert_eq!(parsed.fields.get(PROTOCOL_OP), Some(&Value::U64(0)));
    assert_eq!(parsed.fields.get(BIND_DN), None);
}

#[test]
fn ldap_truncated_frames_decline_at_every_prefix() {
    let bytes = bind_request(1, "cn=admin,dc=example,dc=com");
    let m = meta(bytes.len());
    let full = ctx(Depth::Full, &m);
    for n in 0..bytes.len() {
        assert!(
            Ldap.parse(&bytes[..n], &full).is_err(),
            "prefix of {n}/{} bytes must decline",
            bytes.len()
        );
    }
}

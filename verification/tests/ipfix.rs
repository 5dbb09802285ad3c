use pktflow::layer::{Depth, LayerPlugin, LinkType, PacketMeta, ParseCtx};
use pktflow::plugins::ipfix::{
    DOMAIN_ID, ENTERPRISE_BIT, HEADER_LEN, Ipfix, LENGTH, SEQUENCE, SETS, TEMPLATE_SET_ID,
    VERSION,
};
use pktflow::value::Value;

fn meta(len: usize) -> PacketMeta {
    PacketMeta {
        timestamp: 0,
        caplen: len,
        origlen: len,
        link_type: LinkType(1),
    }
}

fn ctx(m: &PacketMeta) -> ParseCtx<'_> {
    ParseCtx::new(&[], Depth::Full, m)
}

/// Fixed 16-byte header only (RFC 7011 §3.1), `length` == 16 (no Sets).
fn header(length: u16, sequence: u32, domain_id: u32) -> Vec<u8> {
    let mut b = vec![0, 10];
    b.extend_from_slice(&length.to_be_bytes());
    b.extend_from_slice(&1_700_000_000u32.to_be_bytes()); // export_time
    b.extend_from_slice(&sequence.to_be_bytes());
    b.extend_from_slice(&domain_id.to_be_bytes());
    b
}

#[test]
fn non_ten_version_declines() {
    let mut bytes = vec![0, 9]; // version = 9, not 10
    bytes.extend_from_slice(&16u16.to_be_bytes());
    bytes.extend_from_slice(&[0u8; 12]);
    let m = meta(bytes.len());
    assert!(Ipfix.parse(&bytes, &ctx(&m)).is_err());
}

#[test]
fn length_below_header_floor_declines() {
    let bytes = header(15, 1, 1); // length < 16
    let m = meta(bytes.len());
    assert!(Ipfix.parse(&bytes, &ctx(&m)).is_err());
}

#[test]
fn zero_set_message_parses_at_exactly_the_fixed_header() {
    let bytes = header(16, 42, 7);
    let m = meta(bytes.len());
    let parsed = Ipfix
        .parse(&bytes, &ctx(&m))
        .expect("valid header, no Sets");
    assert_eq!(parsed.header_len, 16);
    assert_eq!(parsed.fields.get(VERSION), Some(&Value::U64(10)));
    assert_eq!(parsed.fields.get(LENGTH), Some(&Value::U64(16)));
    assert_eq!(parsed.fields.get(SEQUENCE), Some(&Value::U64(42)));
    assert_eq!(parsed.fields.get(DOMAIN_ID), Some(&Value::U64(7)));
    assert_eq!(parsed.fields.get(SETS), Some(&Value::List(vec![])));
}

#[test]
fn a_second_coalesced_message_stays_untouched() {
    let mut bytes = header(16, 1, 1);
    bytes.extend_from_slice(&header(16, 2, 2)); // a second Message, same datagram
    let m = meta(bytes.len());
    let parsed = Ipfix.parse(&bytes, &ctx(&m)).expect("valid first message");
    assert_eq!(parsed.header_len, 16, "only the first message consumed");
}

#[test]
fn set_length_under_four_declines() {
    let mut bytes = header(20, 1, 1);
    bytes.extend_from_slice(&TEMPLATE_SET_ID.to_be_bytes());
    bytes.extend_from_slice(&3u16.to_be_bytes()); // length = 3, under the 4-byte minimum
    let m = meta(bytes.len());
    assert!(Ipfix.parse(&bytes, &ctx(&m)).is_err());
}

/// One Template Set (id=2): a single record (template_id=256) with a
/// plain field (IE 8, length 4) and an Enterprise-specific field (IE
/// 12345 with the Enterprise bit set, length 4, enterprise number
/// 99999) — proves the Enterprise-bit shift is handled, not just the
/// common case.
#[test]
fn template_set_with_enterprise_field_decodes_and_data_set_stays_opaque() {
    let mut record = 256u16.to_be_bytes().to_vec();
    record.extend_from_slice(&2u16.to_be_bytes()); // field_count = 2
    record.extend_from_slice(&8u16.to_be_bytes()); // IE 8 (IN_BYTES), no Enterprise bit
    record.extend_from_slice(&4u16.to_be_bytes());
    let enterprise_ie = 12345u16 | ENTERPRISE_BIT;
    record.extend_from_slice(&enterprise_ie.to_be_bytes());
    record.extend_from_slice(&4u16.to_be_bytes());
    record.extend_from_slice(&99999u32.to_be_bytes());
    let template_set_len = 4 + record.len();

    let data_body = [0xDE, 0xAD, 0xBE, 0xEF];
    let data_set_len = 4 + data_body.len();

    let total_len = HEADER_LEN + template_set_len + data_set_len;
    let mut bytes = header(total_len as u16, 1, 1);
    bytes.extend_from_slice(&TEMPLATE_SET_ID.to_be_bytes());
    bytes.extend_from_slice(&(template_set_len as u16).to_be_bytes());
    bytes.extend_from_slice(&record);
    bytes.extend_from_slice(&256u16.to_be_bytes()); // Data Set id == template_id
    bytes.extend_from_slice(&(data_set_len as u16).to_be_bytes());
    bytes.extend_from_slice(&data_body);

    let m = meta(bytes.len());
    let parsed = Ipfix.parse(&bytes, &ctx(&m)).expect("valid message");
    assert_eq!(parsed.header_len, total_len);

    let Some(Value::List(sets)) = parsed.fields.get(SETS) else {
        panic!("missing sets field");
    };
    assert_eq!(sets.len(), 2);

    let Value::List(template_entry) = &sets[0] else {
        panic!("wrong shape");
    };
    assert_eq!(template_entry[0], Value::U64(2));
    let Value::List(records) = &template_entry[2] else {
        panic!("template payload should decode as a nested List");
    };
    let Value::List(record_entry) = &records[0] else {
        panic!("wrong shape");
    };
    let Value::List(fields) = &record_entry[2] else {
        panic!("wrong shape");
    };
    assert_eq!(
        fields[0],
        Value::List(vec![Value::U64(8), Value::U64(4), Value::U64(0)]),
        "plain field: no enterprise number"
    );
    assert_eq!(
        fields[1],
        Value::List(vec![Value::U64(12345), Value::U64(4), Value::U64(99999)]),
        "Enterprise-bit field: id masked, enterprise number captured"
    );

    let Value::List(data_entry) = &sets[1] else {
        panic!("wrong shape");
    };
    assert_eq!(data_entry[0], Value::U64(256));
    assert_eq!(
        data_entry[2],
        Value::from(&data_body[..]),
        "Data Set stays opaque even though its template was just seen"
    );
}

#[test]
fn truncated_messages_decline_at_every_length() {
    let bytes = header(16, 42, 7);
    for n in 0..bytes.len() {
        assert!(Ipfix.parse(&bytes[..n], &ctx(&meta(n))).is_err());
    }
}

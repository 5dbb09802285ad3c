use pktflow::layer::{Depth, Hint, LayerPlugin, LinkType, PacketMeta, ParseCtx};
use pktflow::plugins::amqp::{
    APP, Amqp, CHANNEL, CLASS_ID, FRAME_END, FRAME_TYPE, METHOD_ID, SIZE, TYPE_BODY,
    TYPE_HEADER, TYPE_HEARTBEAT, TYPE_METHOD,
};
use pktflow::value::Value;

fn meta(len: usize) -> PacketMeta {
    PacketMeta {
        timestamp: 0,
        caplen: len,
        origlen: len,
        link_type: LinkType(1),
    }
}

fn ctx(depth: Depth, meta: &PacketMeta) -> ParseCtx<'_> {
    ParseCtx::new(&[], depth, meta)
}

fn frame(ty: u8, channel: u16, payload: &[u8]) -> Vec<u8> {
    let mut b = vec![ty];
    b.extend_from_slice(&channel.to_be_bytes());
    b.extend_from_slice(&(payload.len() as u32).to_be_bytes());
    b.extend_from_slice(payload);
    b.push(FRAME_END);
    b
}

#[test]
fn basic_publish_method_frame_parses_class_and_method_id() {
    // Basic.Publish is class 60, method 40.
    let mut payload = 60u16.to_be_bytes().to_vec();
    payload.extend_from_slice(&40u16.to_be_bytes());
    payload.extend_from_slice(&[0u8; 4]); // arguments, unparsed
    let bytes = frame(TYPE_METHOD, 1, &payload);
    let m = meta(bytes.len());
    let parsed = Amqp
        .parse(&bytes, &ctx(Depth::Full, &m))
        .expect("valid Basic.Publish method frame");
    assert_eq!(parsed.header_len, bytes.len());
    assert_eq!(parsed.hint, Hint::Terminal);
    assert_eq!(parsed.fields.get(APP), Some(&Value::from("amqp")));
    assert_eq!(parsed.fields.get(FRAME_TYPE), Some(&Value::from("method")));
    assert_eq!(parsed.fields.get(CHANNEL), Some(&Value::U64(1)));
    assert_eq!(parsed.fields.get(CLASS_ID), Some(&Value::U64(60)));
    assert_eq!(parsed.fields.get(METHOD_ID), Some(&Value::U64(40)));
}

#[test]
fn header_and_body_frames_on_same_channel_have_no_class_id() {
    let header = frame(TYPE_HEADER, 1, &[0u8; 14]);
    let m = meta(header.len());
    let parsed = Amqp
        .parse(&header, &ctx(Depth::Full, &m))
        .expect("valid header frame");
    assert_eq!(parsed.fields.get(FRAME_TYPE), Some(&Value::from("header")));
    assert_eq!(parsed.fields.get(CLASS_ID), None);

    let body = frame(TYPE_BODY, 1, b"payload bytes, unparsed");
    let m = meta(body.len());
    let parsed = Amqp
        .parse(&body, &ctx(Depth::Full, &m))
        .expect("valid body frame");
    assert_eq!(parsed.fields.get(FRAME_TYPE), Some(&Value::from("body")));
}

#[test]
fn heartbeat_frame_has_empty_payload() {
    let bytes = frame(TYPE_HEARTBEAT, 0, &[]);
    let m = meta(bytes.len());
    let parsed = Amqp
        .parse(&bytes, &ctx(Depth::Full, &m))
        .expect("valid heartbeat");
    assert_eq!(
        parsed.fields.get(FRAME_TYPE),
        Some(&Value::from("heartbeat"))
    );
    assert_eq!(parsed.fields.get(SIZE), Some(&Value::U64(0)));
}

#[test]
fn depth_gates_frame_type_and_class_id() {
    let mut payload = 60u16.to_be_bytes().to_vec();
    payload.extend_from_slice(&40u16.to_be_bytes());
    let bytes = frame(TYPE_METHOD, 1, &payload);
    let m = meta(bytes.len());
    let keys = Amqp.parse(&bytes, &ctx(Depth::Keys, &m)).expect("valid");
    assert_eq!(keys.fields.get(APP), Some(&Value::from("amqp")));
    assert_eq!(keys.fields.get(FRAME_TYPE), None);

    let structural = Amqp
        .parse(&bytes, &ctx(Depth::Structure, &m))
        .expect("valid");
    assert_eq!(
        structural.fields.get(FRAME_TYPE),
        Some(&Value::from("method"))
    );
    assert_eq!(structural.fields.get(CLASS_ID), None);
}

#[test]
fn missing_frame_end_octet_declines() {
    let mut bytes = frame(TYPE_HEARTBEAT, 0, &[]);
    let last = bytes.len() - 1;
    bytes[last] = 0x00;
    let m = meta(bytes.len());
    assert!(Amqp.parse(&bytes, &ctx(Depth::Full, &m)).is_err());
}

#[test]
fn amqp_unrecognized_frame_type_declines() {
    let bytes = frame(9, 0, &[]);
    let m = meta(bytes.len());
    assert!(Amqp.parse(&bytes, &ctx(Depth::Full, &m)).is_err());
}

#[test]
fn amqp_truncated_frames_decline_at_every_prefix() {
    let mut payload = 60u16.to_be_bytes().to_vec();
    payload.extend_from_slice(&40u16.to_be_bytes());
    let bytes = frame(TYPE_METHOD, 1, &payload);
    let m = meta(bytes.len());
    let full = ctx(Depth::Full, &m);
    for n in 0..bytes.len() {
        assert!(
            Amqp.parse(&bytes[..n], &full).is_err(),
            "prefix of {n}/{} bytes must decline",
            bytes.len()
        );
    }
}

use pktflow::layer::{Depth, Hint, LayerPlugin, LinkType, PacketMeta, ParseCtx};
use pktflow::plugins::http2::{
    FLAGS, FRAME_TYPE, Http2, LENGTH, SETTINGS_ENTRIES, STREAM_ID, TYPE_CONTINUATION,
    TYPE_DATA, TYPE_GOAWAY, TYPE_HEADERS, TYPE_PING, TYPE_PRIORITY, TYPE_PUSH_PROMISE,
    TYPE_RST_STREAM, TYPE_SETTINGS, TYPE_WINDOW_UPDATE,
};
use pktflow::value::Value;

fn meta(len: usize) -> PacketMeta {
    PacketMeta {
        timestamp: 0,
        caplen: len,
        origlen: len,
        link_type: LinkType(1),
    }
}

fn ctx(depth: Depth, meta: &PacketMeta) -> ParseCtx<'_> {
    ParseCtx::new(&[], depth, meta)
}

fn frame(ty: u8, flags: u8, stream_id: u32, payload: &[u8]) -> Vec<u8> {
    let mut b = Vec::new();
    let len = payload.len() as u32;
    b.extend_from_slice(&len.to_be_bytes()[1..]); // 24-bit length
    b.push(ty);
    b.push(flags);
    b.extend_from_slice(&stream_id.to_be_bytes());
    b.extend_from_slice(payload);
    b
}

#[test]
fn data_frame_parses_envelope() {
    let bytes = frame(TYPE_DATA, 0x01, 1, b"hello");
    let m = meta(bytes.len());
    let parsed = Http2
        .parse(&bytes, &ctx(Depth::Full, &m))
        .expect("valid DATA frame");
    assert_eq!(parsed.header_len, bytes.len());
    assert_eq!(parsed.hint, Hint::Terminal);
    assert_eq!(parsed.fields.get(STREAM_ID), Some(&Value::U64(1)));
    assert_eq!(parsed.fields.get(FRAME_TYPE), Some(&Value::from("DATA")));
    assert_eq!(parsed.fields.get(FLAGS), Some(&Value::U64(1)));
    assert_eq!(parsed.fields.get(LENGTH), Some(&Value::U64(5)));
}

#[test]
fn settings_frame_lists_raw_entry_pairs() {
    let mut payload = Vec::new();
    payload.extend_from_slice(&1u16.to_be_bytes()); // SETTINGS_HEADER_TABLE_SIZE
    payload.extend_from_slice(&4096u32.to_be_bytes());
    payload.extend_from_slice(&3u16.to_be_bytes()); // SETTINGS_MAX_CONCURRENT_STREAMS
    payload.extend_from_slice(&100u32.to_be_bytes());
    let bytes = frame(TYPE_SETTINGS, 0, 0, &payload);
    let m = meta(bytes.len());
    let parsed = Http2
        .parse(&bytes, &ctx(Depth::Full, &m))
        .expect("valid SETTINGS frame");
    assert_eq!(
        parsed.fields.get(FRAME_TYPE),
        Some(&Value::from("SETTINGS"))
    );
    assert_eq!(
        parsed.fields.get(SETTINGS_ENTRIES),
        Some(&Value::List(vec![
            Value::from(&payload[0..6]),
            Value::from(&payload[6..12]),
        ]))
    );
}

#[test]
fn non_settings_frame_omits_settings_entries() {
    let bytes = frame(TYPE_PING, 0, 0, &[0u8; 8]);
    let m = meta(bytes.len());
    let parsed = Http2
        .parse(&bytes, &ctx(Depth::Full, &m))
        .expect("valid PING frame");
    assert_eq!(parsed.fields.get(SETTINGS_ENTRIES), None);
}

#[test]
fn multiple_stream_ids_are_distinguishable() {
    for (ty, name) in [
        (TYPE_HEADERS, "HEADERS"),
        (TYPE_PRIORITY, "PRIORITY"),
        (TYPE_RST_STREAM, "RST_STREAM"),
        (TYPE_PUSH_PROMISE, "PUSH_PROMISE"),
        (TYPE_GOAWAY, "GOAWAY"),
        (TYPE_WINDOW_UPDATE, "WINDOW_UPDATE"),
        (TYPE_CONTINUATION, "CONTINUATION"),
    ] {
        let bytes = frame(ty, 0, 5, &[0u8; 4]);
        let m = meta(bytes.len());
        let parsed = Http2
            .parse(&bytes, &ctx(Depth::Full, &m))
            .unwrap_or_else(|e| panic!("type {ty}: {e:?}"));
        assert_eq!(parsed.fields.get(FRAME_TYPE), Some(&Value::from(name)));
        assert_eq!(parsed.fields.get(STREAM_ID), Some(&Value::U64(5)));
    }
}

#[test]
fn reserved_bit_is_masked_out_of_stream_id() {
    let mut bytes = frame(TYPE_DATA, 0, 0, &[]);
    // Set the reserved top bit alongside stream id 7.
    bytes[5..9].copy_from_slice(&(0x8000_0007u32).to_be_bytes());
    let m = meta(bytes.len());
    let parsed = Http2
        .parse(&bytes, &ctx(Depth::Full, &m))
        .expect("valid frame");
    assert_eq!(parsed.fields.get(STREAM_ID), Some(&Value::U64(7)));
}

#[test]
fn http2_unrecognized_frame_type_declines() {
    let bytes = frame(0xFF, 0, 0, &[]);
    let m = meta(bytes.len());
    assert!(Http2.parse(&bytes, &ctx(Depth::Full, &m)).is_err());
}

#[test]
fn a_bundled_second_frame_is_left_untouched() {
    let first = frame(TYPE_PING, 0, 0, &[0u8; 8]);
    let first_len = first.len();
    let mut bytes = first;
    bytes.extend_from_slice(&frame(TYPE_DATA, 0, 1, b"more"));
    let m = meta(bytes.len());
    let parsed = Http2
        .parse(&bytes, &ctx(Depth::Full, &m))
        .expect("first frame parses");
    assert_eq!(parsed.header_len, first_len);
    assert_eq!(parsed.fields.get(FRAME_TYPE), Some(&Value::from("PING")));
}

#[test]
fn depth_ladder_gates_stream_id_and_settings() {
    let mut payload = Vec::new();
    payload.extend_from_slice(&1u16.to_be_bytes());
    payload.extend_from_slice(&4096u32.to_be_bytes());
    let bytes = frame(TYPE_SETTINGS, 0, 0, &payload);
    let m = meta(bytes.len());

    let keys = Http2.parse(&bytes, &ctx(Depth::Keys, &m)).expect("valid");
    assert_eq!(keys.fields.get(STREAM_ID), Some(&Value::U64(0)));
    assert_eq!(keys.fields.get(FRAME_TYPE), None);

    let structural = Http2
        .parse(&bytes, &ctx(Depth::Structure, &m))
        .expect("valid");
    assert_eq!(
        structural.fields.get(FRAME_TYPE),
        Some(&Value::from("SETTINGS"))
    );
    assert_eq!(structural.fields.get(SETTINGS_ENTRIES), None);
}

#[test]
fn http2_truncated_frames_decline_at_every_prefix() {
    let bytes = frame(TYPE_HEADERS, 0, 1, b"header-block-fragment");
    let m = meta(bytes.len());
    let full = ctx(Depth::Full, &m);
    for n in 0..bytes.len() {
        assert!(
            Http2.parse(&bytes[..n], &full).is_err(),
            "prefix of {n}/{} bytes must decline",
            bytes.len()
        );
    }
}

use pktflow::layer::{Depth, Hint, LayerPlugin, LinkType, PacketMeta, ParseCtx};
use pktflow::plugins::hsrp::{
    AUTH_DATA, GROUP, HEADER_LEN, HELLOTIME, HOLDTIME, Hsrp, OPCODE, PRIORITY, STATE, VERSION,
    VIRTUAL_IP,
};
use pktflow::value::Value;

fn meta(len: usize) -> PacketMeta {
    PacketMeta {
        timestamp: 0,
        caplen: len,
        origlen: len,
        link_type: LinkType(1),
    }
}

fn ctx<'a>(depth: Depth, m: &'a PacketMeta) -> ParseCtx<'a> {
    ParseCtx::new(&[], depth, m)
}

/// RFC 2281 §5: version 0, Hello (0), Active (16), hellotime 3s,
/// holdtime 10s, priority 100, group 1, reserved 0, auth data
/// `"cisco"` zero-padded to 8 bytes, virtual IP 192.168.1.1.
fn hello_fixture() -> Vec<u8> {
    let mut b = vec![0, 0, 16, 3, 10, 100, 1, 0];
    b.extend_from_slice(b"cisco\0\0\0");
    b.extend_from_slice(&[192, 168, 1, 1]);
    b
}

#[test]
fn hello_message_parses_exactly() {
    let bytes = hello_fixture();
    let m = meta(bytes.len());
    let parsed = Hsrp
        .parse(&bytes, &ctx(Depth::Full, &m))
        .expect("valid HSRP Hello message");
    assert_eq!(parsed.header_len, HEADER_LEN);
    assert_eq!(parsed.hint, Hint::Terminal);
    assert_eq!(parsed.fields.get(GROUP), Some(&Value::U64(1)));
    assert_eq!(parsed.fields.get(VERSION), Some(&Value::U64(0)));
    assert_eq!(parsed.fields.get(OPCODE), Some(&Value::U64(0)));
    assert_eq!(parsed.fields.get(STATE), Some(&Value::U64(16)));
    assert_eq!(parsed.fields.get(PRIORITY), Some(&Value::U64(100)));
    assert_eq!(parsed.fields.get(HELLOTIME), Some(&Value::U64(3)));
    assert_eq!(parsed.fields.get(HOLDTIME), Some(&Value::U64(10)));
    assert_eq!(
        parsed.fields.get(VIRTUAL_IP),
        Some(&Value::from(&[192u8, 168, 1, 1][..]))
    );
    assert_eq!(
        parsed.fields.get(AUTH_DATA),
        Some(&Value::from(&b"cisco\0\0\0"[..]))
    );
}

#[test]
fn keys_depth_has_only_group() {
    let bytes = hello_fixture();
    let m = meta(bytes.len());
    let parsed = Hsrp
        .parse(&bytes, &ctx(Depth::Keys, &m))
        .expect("valid HSRP Hello message");
    assert_eq!(parsed.fields.len(), 1);
    assert_eq!(parsed.fields.get(GROUP), Some(&Value::U64(1)));
}

#[test]
fn structural_depth_omits_virtual_ip_and_auth_data() {
    let bytes = hello_fixture();
    let m = meta(bytes.len());
    let parsed = Hsrp
        .parse(&bytes, &ctx(Depth::Structure, &m))
        .expect("valid HSRP Hello message");
    assert_eq!(parsed.fields.get(VIRTUAL_IP), None);
    assert_eq!(parsed.fields.get(AUTH_DATA), None);
    assert_eq!(parsed.fields.get(PRIORITY), Some(&Value::U64(100)));
}

#[test]
fn coup_and_resign_opcodes_parse_like_hello() {
    for opcode in [1u8, 2] {
        let mut bytes = hello_fixture();
        bytes[1] = opcode;
        let m = meta(bytes.len());
        let parsed = Hsrp
            .parse(&bytes, &ctx(Depth::Full, &m))
            .unwrap_or_else(|e| panic!("opcode {opcode} must parse: {e:?}"));
        assert_eq!(
            parsed.fields.get(OPCODE),
            Some(&Value::U64(u64::from(opcode)))
        );
    }
}

#[test]
fn unrecognized_opcode_still_parses_fixed_format() {
    // RFC 2281 §5: opcodes other than 0/1/2 are reserved for future
    // use, not invalid — the fixed header shape doesn't depend on it.
    let mut bytes = hello_fixture();
    bytes[1] = 200;
    let m = meta(bytes.len());
    let parsed = Hsrp
        .parse(&bytes, &ctx(Depth::Full, &m))
        .expect("reserved opcode still parses");
    assert_eq!(parsed.fields.get(OPCODE), Some(&Value::U64(200)));
}

#[test]
fn unsupported_version_declines() {
    let mut bytes = hello_fixture();
    bytes[0] = 2; // e.g. HSRPv2's TLV-type octet landing here
    let m = meta(bytes.len());
    assert!(Hsrp.parse(&bytes, &ctx(Depth::Full, &m)).is_err());
}

#[test]
fn zero_group_is_valid() {
    let mut bytes = hello_fixture();
    bytes[6] = 0;
    let m = meta(bytes.len());
    let parsed = Hsrp
        .parse(&bytes, &ctx(Depth::Full, &m))
        .expect("group 0 is a valid standby group number");
    assert_eq!(parsed.fields.get(GROUP), Some(&Value::U64(0)));
}

#[test]
fn hsrp_truncated_frames_decline() {
    let bytes = hello_fixture();
    let m = meta(bytes.len());
    for n in 0..bytes.len() {
        let full_ctx = ctx(Depth::Full, &m);
        assert!(
            Hsrp.parse(&bytes[..n], &full_ctx).is_err(),
            "prefix of {n}/{} bytes must decline",
            bytes.len()
        );
    }
}

#[test]
fn exact_length_with_trailing_bytes_ignores_trailer() {
    let mut bytes = hello_fixture();
    bytes.extend_from_slice(&[0xAA, 0xBB]); // e.g. link-layer padding
    let m = meta(bytes.len());
    let parsed = Hsrp
        .parse(&bytes, &ctx(Depth::Full, &m))
        .expect("trailing bytes beyond the fixed header are fine");
    assert_eq!(parsed.header_len, HEADER_LEN);
}

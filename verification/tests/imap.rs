use pktflow::bytes::ParseError;
use pktflow::layer::{Depth, LayerPlugin, LinkType, PacketMeta, ParseCtx};
use pktflow::plugins::imap::{APP, ARGS, COMMAND, IS_RESPONSE, Imap, RESPONSE_STATUS, TAG};
use pktflow::value::Value;

fn meta(len: usize) -> PacketMeta {
    PacketMeta {
        timestamp: 0,
        caplen: len,
        origlen: len,
        link_type: LinkType(1),
    }
}

fn ctx(depth: Depth, meta: &PacketMeta) -> ParseCtx<'_> {
    ParseCtx::new(&[], depth, meta)
}

#[test]
fn login_command_parses() {
    let bytes = b"A001 LOGIN alice password\r\n".to_vec();
    let m = meta(bytes.len());
    let parsed = Imap
        .parse(&bytes, &ctx(Depth::Full, &m))
        .expect("valid LOGIN");
    assert_eq!(parsed.header_len, bytes.len());
    assert_eq!(parsed.fields.get(APP), Some(&Value::from("imap")));
    assert_eq!(parsed.fields.get(TAG), Some(&Value::from("A001")));
    assert_eq!(parsed.fields.get(IS_RESPONSE), Some(&Value::Bool(false)));
    assert_eq!(parsed.fields.get(COMMAND), Some(&Value::from("LOGIN")));
    assert_eq!(
        parsed.fields.get(ARGS),
        Some(&Value::from("alice password"))
    );
}

#[test]
fn tagged_ok_response_parses() {
    let bytes = b"A001 OK LOGIN completed\r\n".to_vec();
    let m = meta(bytes.len());
    let parsed = Imap.parse(&bytes, &ctx(Depth::Full, &m)).expect("valid");
    assert_eq!(parsed.fields.get(IS_RESPONSE), Some(&Value::Bool(true)));
    assert_eq!(parsed.fields.get(RESPONSE_STATUS), Some(&Value::from("OK")));
    assert_eq!(parsed.fields.get(COMMAND), None);
    assert_eq!(
        parsed.fields.get(ARGS),
        Some(&Value::from("LOGIN completed"))
    );
}

#[test]
fn no_and_bad_responses_recognized() {
    for (line, status) in [
        (&b"A002 NO permission denied\r\n"[..], "NO"),
        (&b"A003 BAD invalid command\r\n"[..], "BAD"),
    ] {
        let m = meta(line.len());
        let parsed = Imap
            .parse(line, &ctx(Depth::Full, &m))
            .unwrap_or_else(|e| panic!("{status}: {e:?}"));
        assert_eq!(
            parsed.fields.get(RESPONSE_STATUS),
            Some(&Value::from(status))
        );
    }
}

#[test]
fn untagged_server_data_uses_star_as_tag() {
    let bytes = b"* 2 EXISTS\r\n".to_vec();
    let m = meta(bytes.len());
    let parsed = Imap.parse(&bytes, &ctx(Depth::Full, &m)).expect("valid");
    assert_eq!(parsed.fields.get(TAG), Some(&Value::from("*")));
    // "2" isn't OK/NO/BAD, so this reads as a (numeric-looking) command
    // token — an honest best-effort read of untagged data shapes IMAP
    // doesn't fit neatly into the tagged command/response model.
    assert_eq!(parsed.fields.get(IS_RESPONSE), Some(&Value::Bool(false)));
}

#[test]
fn imap_command_is_case_normalized_to_uppercase() {
    let bytes = b"a001 login alice pw\r\n".to_vec();
    let m = meta(bytes.len());
    let parsed = Imap.parse(&bytes, &ctx(Depth::Full, &m)).expect("valid");
    assert_eq!(parsed.fields.get(COMMAND), Some(&Value::from("LOGIN")));
}

#[test]
fn depth_gates_tag_and_args() {
    let bytes = b"A001 LOGOUT\r\n".to_vec();
    let m = meta(bytes.len());
    let keys = Imap.parse(&bytes, &ctx(Depth::Keys, &m)).expect("valid");
    assert_eq!(keys.fields.get(TAG), None);
    let structural = Imap
        .parse(&bytes, &ctx(Depth::Structure, &m))
        .expect("valid");
    assert_eq!(structural.fields.get(TAG), Some(&Value::from("A001")));
    assert_eq!(structural.fields.get(COMMAND), Some(&Value::from("LOGOUT")));
    assert_eq!(structural.fields.get(ARGS), None);
}

#[test]
fn line_without_a_second_token_declines() {
    let bytes = b"A001\r\n".to_vec();
    let m = meta(bytes.len());
    assert!(Imap.parse(&bytes, &ctx(Depth::Full, &m)).is_err());
}

#[test]
fn imap_missing_terminator_is_truncated() {
    let bytes = b"A001 LOGIN alice".to_vec();
    let m = meta(bytes.len());
    assert!(matches!(
        Imap.parse(&bytes, &ctx(Depth::Full, &m)),
        Err(ParseError::Truncated(_))
    ));
}

#[test]
fn imap_truncated_frames_decline_at_every_prefix() {
    let bytes = b"A001 LOGIN alice password\r\n".to_vec();
    let m = meta(bytes.len());
    let full = ctx(Depth::Full, &m);
    for n in 0..bytes.len() {
        assert!(
            Imap.parse(&bytes[..n], &full).is_err(),
            "prefix of {n}/{} bytes must decline",
            bytes.len()
        );
    }
}

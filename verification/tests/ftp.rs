use pktflow::bytes::ParseError;
use pktflow::layer::{Depth, Hint, LayerPlugin, LinkType, PacketMeta, ParseCtx};
use pktflow::plugins::ftp::{APP, ARG, COMMAND, Ftp, IS_REQUEST, REPLY_CODE};
use pktflow::value::Value;

fn meta(len: usize) -> PacketMeta {
    PacketMeta {
        timestamp: 0,
        caplen: len,
        origlen: len,
        link_type: LinkType(1),
    }
}

fn ctx(depth: Depth, meta: &PacketMeta) -> ParseCtx<'_> {
    ParseCtx::new(&[], depth, meta)
}

#[test]
fn user_command_parses() {
    let bytes = b"USER anonymous\r\n".to_vec();
    let m = meta(bytes.len());
    let parsed = Ftp
        .parse(&bytes, &ctx(Depth::Full, &m))
        .expect("valid USER command");
    assert_eq!(parsed.header_len, bytes.len());
    assert_eq!(parsed.hint, Hint::Terminal);
    assert_eq!(parsed.fields.get(APP), Some(&Value::from("ftp")));
    assert_eq!(parsed.fields.get(IS_REQUEST), Some(&Value::Bool(true)));
    assert_eq!(parsed.fields.get(COMMAND), Some(&Value::from("USER")));
    assert_eq!(parsed.fields.get(ARG), Some(&Value::from("anonymous")));
}

#[test]
fn argless_command_parses() {
    let bytes = b"PASV\r\n".to_vec();
    let m = meta(bytes.len());
    let parsed = Ftp.parse(&bytes, &ctx(Depth::Full, &m)).expect("valid");
    assert_eq!(parsed.fields.get(COMMAND), Some(&Value::from("PASV")));
    assert_eq!(parsed.fields.get(ARG), Some(&Value::from("")));
}

#[test]
fn reply_code_parses() {
    let bytes = b"230 User logged in.\r\n".to_vec();
    let m = meta(bytes.len());
    let parsed = Ftp.parse(&bytes, &ctx(Depth::Full, &m)).expect("valid");
    assert_eq!(parsed.fields.get(IS_REQUEST), Some(&Value::Bool(false)));
    assert_eq!(parsed.fields.get(REPLY_CODE), Some(&Value::U64(230)));
    assert_eq!(
        parsed.fields.get(ARG),
        Some(&Value::from("User logged in."))
    );
}

#[test]
fn pasv_reply_carries_the_negotiated_port_in_arg_with_no_data_stream() {
    let bytes = b"227 Entering Passive Mode (192,168,1,1,200,3).\r\n".to_vec();
    let m = meta(bytes.len());
    let parsed = Ftp.parse(&bytes, &ctx(Depth::Full, &m)).expect("valid");
    assert_eq!(parsed.fields.get(REPLY_CODE), Some(&Value::U64(227)));
    assert_eq!(
        parsed.fields.get(ARG),
        Some(&Value::from("Entering Passive Mode (192,168,1,1,200,3)."))
    );
}

#[test]
fn multiline_continuation_marker_parses_like_a_normal_response() {
    let bytes = b"220-Welcome to the FTP service\r\n".to_vec();
    let m = meta(bytes.len());
    let parsed = Ftp.parse(&bytes, &ctx(Depth::Full, &m)).expect("valid");
    assert_eq!(parsed.fields.get(REPLY_CODE), Some(&Value::U64(220)));
    assert_eq!(
        parsed.fields.get(ARG),
        Some(&Value::from("Welcome to the FTP service"))
    );
}

#[test]
fn ftp_command_is_case_normalized_to_uppercase() {
    let bytes = b"user anonymous\r\n".to_vec();
    let m = meta(bytes.len());
    let parsed = Ftp.parse(&bytes, &ctx(Depth::Full, &m)).expect("valid");
    assert_eq!(parsed.fields.get(COMMAND), Some(&Value::from("USER")));
}

#[test]
fn depth_gates_command_and_arg() {
    let bytes = b"RETR file.txt\r\n".to_vec();
    let m = meta(bytes.len());
    let keys = Ftp.parse(&bytes, &ctx(Depth::Keys, &m)).expect("valid");
    assert_eq!(keys.fields.get(APP), Some(&Value::from("ftp")));
    assert_eq!(keys.fields.get(COMMAND), None);

    let structural = Ftp
        .parse(&bytes, &ctx(Depth::Structure, &m))
        .expect("valid");
    assert_eq!(structural.fields.get(COMMAND), Some(&Value::from("RETR")));
    assert_eq!(structural.fields.get(ARG), None);
}

#[test]
fn non_command_non_reply_line_declines() {
    let bytes = b"123abc garbage\r\n".to_vec();
    let m = meta(bytes.len());
    assert!(Ftp.parse(&bytes, &ctx(Depth::Full, &m)).is_err());
}

#[test]
fn ftp_missing_terminator_is_truncated() {
    let bytes = b"USER anonymous".to_vec();
    let m = meta(bytes.len());
    assert!(matches!(
        Ftp.parse(&bytes, &ctx(Depth::Full, &m)),
        Err(ParseError::Truncated(_))
    ));
}

#[test]
fn ftp_truncated_frames_decline_at_every_prefix() {
    let bytes = b"USER anonymous\r\n".to_vec();
    let m = meta(bytes.len());
    let full = ctx(Depth::Full, &m);
    for n in 0..bytes.len() {
        assert!(
            Ftp.parse(&bytes[..n], &full).is_err(),
            "prefix of {n}/{} bytes must decline",
            bytes.len()
        );
    }
}

/// Port-claim honesty: claiming TCP 21 routes *everything* on
/// that port here, so a line that is shaped like a command but whose
/// verb RFC 959 never defines must decline rather than report a
/// fabricated `command`. Before the allow-list, a single corrupted
/// byte turned `USER` into a confidently-reported `VSER`.
#[test]
fn undefined_verb_declines_instead_of_fabricating_a_command() {
    let m = meta(32);
    for line in [
        &b"VSER anonymous\r\n"[..],
        &b"XYZZY something\r\n"[..],
        &b"GET /index.html\r\n"[..],
    ] {
        assert!(
            Ftp.parse(line, &ctx(Depth::Full, &m)).is_err(),
            "{:?} must decline",
            String::from_utf8_lossy(line)
        );
    }
    // Extensions a real server speaks still parse.
    for line in [&b"EPSV\r\n"[..], &b"FEAT\r\n"[..], &b"MLSD /pub\r\n"[..]] {
        assert!(Ftp.parse(line, &ctx(Depth::Full, &m)).is_ok());
    }
}

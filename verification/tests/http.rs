use pktflow::bytes::ParseError;
use pktflow::layer::{Depth, Hint, LayerPlugin, LinkType, PacketMeta, ParseCtx};
use pktflow::plugins::http::{
    APP, CONTENT_LENGTH, CONTENT_TYPE, HOST, Http, IS_REQUEST, METHOD, STATUS_CODE, UPGRADE,
    USER_AGENT, VERSION,
};
use pktflow::value::Value;

const H2C_PREFACE: &[u8] = b"PRI * HTTP/2.0\r\n\r\nSM\r\n\r\n";

fn meta(len: usize) -> PacketMeta {
    PacketMeta {
        timestamp: 0,
        caplen: len,
        origlen: len,
        link_type: LinkType(1),
    }
}

fn ctx(depth: Depth, meta: &PacketMeta) -> ParseCtx<'_> {
    ParseCtx::new(&[], depth, meta)
}

/// A GET request with the headers this plugin names.
fn get_request() -> Vec<u8> {
    b"GET /index.html HTTP/1.1\r\n\
Host: example.com\r\n\
User-Agent: curl/8.4.0\r\n\
Accept: */*\r\n\
\r\n"
        .to_vec()
}

/// A POST request carrying a body (unparsed remainder past header_len).
fn post_request() -> Vec<u8> {
    b"POST /submit HTTP/1.1\r\n\
Host: api.example.com\r\n\
User-Agent: app/1.0\r\n\
Content-Type: application/json\r\n\
Content-Length: 9\r\n\
\r\n\
{\"a\":\"b\"}"
        .to_vec()
}

/// A 200 response with a body.
fn ok_response() -> Vec<u8> {
    b"HTTP/1.1 200 OK\r\n\
Content-Type: text/html; charset=utf-8\r\n\
Content-Length: 13\r\n\
\r\n\
Hello, world!"
        .to_vec()
}

#[test]
fn get_request_reports_method_host_and_agent() {
    let bytes = get_request();
    let m = meta(bytes.len());
    let parsed = Http
        .parse(&bytes, &ctx(Depth::Full, &m))
        .expect("valid GET");
    assert_eq!(parsed.header_len, bytes.len());
    assert_eq!(parsed.hint, Hint::Terminal);
    assert_eq!(parsed.fields.get(APP), Some(&Value::from("http")));
    assert_eq!(parsed.fields.get(IS_REQUEST), Some(&Value::Bool(true)));
    assert_eq!(parsed.fields.get(METHOD), Some(&Value::from("GET")));
    assert_eq!(parsed.fields.get(VERSION), Some(&Value::from("HTTP/1.1")));
    assert_eq!(parsed.fields.get(HOST), Some(&Value::from("example.com")));
    assert_eq!(
        parsed.fields.get(USER_AGENT),
        Some(&Value::from("curl/8.4.0"))
    );
    assert_eq!(parsed.fields.get(STATUS_CODE), None);
}

#[test]
fn post_request_reports_content_type_and_length_and_stops_before_body() {
    let bytes = post_request();
    let m = meta(bytes.len());
    let parsed = Http
        .parse(&bytes, &ctx(Depth::Full, &m))
        .expect("valid POST");
    // header_len ends at the blank line — the JSON body is remainder.
    assert_eq!(parsed.header_len, bytes.len() - b"{\"a\":\"b\"}".len());
    assert_eq!(parsed.fields.get(METHOD), Some(&Value::from("POST")));
    assert_eq!(
        parsed.fields.get(CONTENT_TYPE),
        Some(&Value::from("application/json"))
    );
    assert_eq!(parsed.fields.get(CONTENT_LENGTH), Some(&Value::U64(9)));
}

#[test]
fn response_reports_status_code_not_method() {
    let bytes = ok_response();
    let m = meta(bytes.len());
    let parsed = Http
        .parse(&bytes, &ctx(Depth::Full, &m))
        .expect("valid response");
    assert_eq!(parsed.fields.get(IS_REQUEST), Some(&Value::Bool(false)));
    assert_eq!(parsed.fields.get(STATUS_CODE), Some(&Value::U64(200)));
    assert_eq!(parsed.fields.get(METHOD), None);
    // User-Agent is request-only and must not appear on a response.
    assert_eq!(parsed.fields.get(USER_AGENT), None);
    assert_eq!(
        parsed.fields.get(CONTENT_TYPE),
        Some(&Value::from("text/html; charset=utf-8"))
    );
}

#[test]
fn h2c_preface_dispatches_to_http2_by_name() {
    let m = meta(H2C_PREFACE.len());
    let parsed = Http
        .parse(H2C_PREFACE, &ctx(Depth::Full, &m))
        .expect("valid h2c preface");
    assert_eq!(parsed.header_len, 24);
    assert_eq!(parsed.hint, Hint::ByProtocol("http2"));
    assert_eq!(parsed.fields.get(VERSION), Some(&Value::from("HTTP/2.0")));
}

#[test]
fn http_keys_depth_only_has_app() {
    let bytes = get_request();
    let m = meta(bytes.len());
    let parsed = Http
        .parse(&bytes, &ctx(Depth::Keys, &m))
        .expect("valid GET");
    assert_eq!(parsed.fields.get(APP), Some(&Value::from("http")));
    assert_eq!(parsed.fields.get(METHOD), None);
    assert_eq!(parsed.fields.get(HOST), None);
}

#[test]
fn structural_depth_surfaces_host_but_omits_other_headers() {
    // `host` is a rollup field, so it must reach the default (Structural)
    // view; other headers (User-Agent, Content-Type) stay Full-only.
    let bytes = get_request();
    let m = meta(bytes.len());
    let parsed = Http
        .parse(&bytes, &ctx(Depth::Structure, &m))
        .expect("valid GET");
    assert_eq!(parsed.fields.get(METHOD), Some(&Value::from("GET")));
    assert_eq!(parsed.fields.get(HOST), Some(&Value::from("example.com")));
    assert_eq!(parsed.fields.get(USER_AGENT), None);
}

#[test]
fn header_name_lookup_is_case_insensitive() {
    let bytes = b"GET / HTTP/1.1\r\nhOsT: example.org\r\n\r\n".to_vec();
    let m = meta(bytes.len());
    let parsed = Http
        .parse(&bytes, &ctx(Depth::Full, &m))
        .expect("valid GET");
    assert_eq!(parsed.fields.get(HOST), Some(&Value::from("example.org")));
}

#[test]
fn upgrade_header_is_captured() {
    let bytes = b"GET /chat HTTP/1.1\r\n\
Host: example.com\r\n\
Upgrade: websocket\r\n\
Connection: Upgrade\r\n\
\r\n"
        .to_vec();
    let m = meta(bytes.len());
    let parsed = Http
        .parse(&bytes, &ctx(Depth::Full, &m))
        .expect("valid GET");
    assert_eq!(parsed.fields.get(UPGRADE), Some(&Value::from("websocket")));
}

#[test]
fn unrecognized_method_declines() {
    // A non-HTTP payload on port 80 must decline, not misparse.
    let bytes = b"NOTAVERB / HTTP/1.1\r\nHost: x\r\n\r\n".to_vec();
    let m = meta(bytes.len());
    assert!(Http.parse(&bytes, &ctx(Depth::Full, &m)).is_err());
}

#[test]
fn http2_binary_bytes_on_port_80_decline() {
    // WebSocket/HTTP2 binary framing has no CRLFCRLF terminator here.
    let bytes = [0x00u8, 0x00, 0x12, 0x04, 0x00, 0x00, 0x00, 0x00, 0x00];
    let m = meta(bytes.len());
    assert!(matches!(
        Http.parse(&bytes, &ctx(Depth::Full, &m)),
        Err(ParseError::Truncated(_))
    ));
}

#[test]
fn missing_blank_line_is_truncated_not_malformed() {
    // A header block split across TCP segments: no reassembly.
    let bytes = b"GET / HTTP/1.1\r\nHost: example.com\r\n".to_vec();
    let m = meta(bytes.len());
    assert!(matches!(
        Http.parse(&bytes, &ctx(Depth::Full, &m)),
        Err(ParseError::Truncated(_))
    ));
}

#[test]
fn http_truncated_frames_decline() {
    let bytes = get_request();
    let m = meta(bytes.len());
    for n in 0..bytes.len() {
        let full = ctx(Depth::Full, &m);
        assert!(
            Http.parse(&bytes[..n], &full).is_err(),
            "prefix of {n}/{} bytes must decline",
            bytes.len()
        );
    }
}

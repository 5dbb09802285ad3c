//! HTTP/1.x (RFC 9110, RFC 9112): the start line and the header block; the body is
//! not read. A header block whose end is not in the segment is truncated. The one
//! protocol upgrade that can be followed packet by packet is the cleartext HTTP/2
//! connection preface (RFC 9113), which is dispatched by name.
use vstd::prelude::*;

use crate::bytes::{self, ParseError};
use crate::identity::{
    self, CondenseSpec, Identity, KeyField, RollupKind, RollupSpec, StreamIdentity,
};
use crate::layer::{Confidence, Context, Hint, LayerPlugin, ParseCtx, Parsed, ParsedLayer, RouteId};
use crate::text;
use crate::value::{FieldMap, FieldName, Fields, ProtocolName, Value, ValueView};

verus! {

pub const APP: FieldName = "app";

pub const IS_REQUEST: FieldName = "is_request";

pub const METHOD: FieldName = "method";

pub const STATUS_CODE: FieldName = "status_code";

pub const VERSION: FieldName = "version";

pub const HOST: FieldName = "host";

pub const CONTENT_TYPE: FieldName = "content_type";

pub const CONTENT_LENGTH: FieldName = "content_length";

pub const USER_AGENT: FieldName = "user_agent";

pub const UPGRADE: FieldName = "upgrade";

/// The HTTP/2 connection preface. It holds the end of a header block, so it is
/// looked for first.
pub open spec fn preface() -> Seq<u8> {
    seq![
        0x50u8, 0x52, 0x49, 0x20, 0x2A, 0x20, 0x48, 0x54, 0x54, 0x50, 0x2F, 0x32, 0x2E, 0x30,
        0x0D, 0x0A, 0x0D, 0x0A, 0x53, 0x4D, 0x0D, 0x0A, 0x0D, 0x0A,
    ]
}

pub open spec fn crlf() -> Seq<u8> {
    seq![0x0Du8, 0x0A]
}

/// The end of a header block.
pub open spec fn blank_line() -> Seq<u8> {
    seq![0x0Du8, 0x0A, 0x0D, 0x0A]
}

/// The lines of `block` from `p` on.
pub open spec fn lines(block: Seq<u8>, p: int) -> Seq<Seq<u8>>
    decreases block.len() - p,
{
    match text::find(block, crlf(), p) {
        Some(i) => if p <= i <= block.len() - 2 {
            seq![block.subrange(p, i)] + lines(block, i + 2)
        } else {
            Seq::empty()
        },
        None => seq![block.subrange(p, block.len() as int)],
    }
}

pub open spec fn trim_start(b: Seq<u8>) -> Seq<u8>
    decreases b.len(),
{
    if b.len() > 0 && b[0] == 0x20 {
        trim_start(b.drop_first())
    } else {
        b
    }
}

pub open spec fn trim_end(b: Seq<u8>) -> Seq<u8>
    decreases b.len(),
{
    if b.len() > 0 && b.last() == 0x20 {
        trim_end(b.drop_last())
    } else {
        b
    }
}

/// `b` without the spaces at either end.
pub open spec fn trim(b: Seq<u8>) -> Seq<u8> {
    trim_end(trim_start(b))
}

/// The content of a line that is the header `name`, letter case aside.
pub open spec fn content_of(line: Seq<u8>, name: Seq<char>) -> Option<Seq<u8>> {
    match text::find(line, seq![0x3Au8], 0) {
        Some(i) => if text::uppercase(line.take(i)) == text::uppercase(text::ascii(name)) {
            Some(trim(line.skip(i + 1)))
        } else {
            None
        },
        None => None,
    }
}

/// The content of the first header `name` in the lines from `i` on.
pub open spec fn header(all: Seq<Seq<u8>>, i: int, name: Seq<char>) -> Option<Seq<u8>>
    decreases all.len() - i,
{
    if i < 0 || i >= all.len() {
        None
    } else if content_of(all[i], name) is Some {
        content_of(all[i], name)
    } else {
        header(all, i + 1, name)
    }
}

pub open spec fn methods() -> Seq<&'static str> {
    seq![
        "GET", "POST", "PUT", "DELETE", "HEAD", "OPTIONS", "PATCH", "CONNECT", "TRACE",
    ]
}

/// The method that `word` spells, among those from `i` on.
pub open spec fn method(word: Seq<u8>, i: int) -> Option<Seq<char>>
    decreases methods().len() - i,
{
    if i < 0 || i >= methods().len() {
        None
    } else if word == text::ascii(methods()[i]@) {
        Some(methods()[i]@)
    } else {
        method(word, i + 1)
    }
}

pub open spec fn version(word: Seq<u8>) -> Option<Seq<char>> {
    if word == text::ascii("HTTP/1.0"@) {
        Some("HTTP/1.0"@)
    } else if word == text::ascii("HTTP/1.1"@) {
        Some("HTTP/1.1"@)
    } else {
        None
    }
}

/// A start line: a request has a method, a response a status code.
pub struct Start {
    pub method: Option<Seq<char>>,
    pub status_code: Option<u64>,
    pub version: Seq<char>,
}

/// A status line: version, code, reason.
pub open spec fn status_line(line: Seq<u8>) -> Result<Start, ParseError> {
    let rest = text::after_word(line);
    let code = rest.take(text::word_end(rest));
    match version(line.take(text::word_end(line))) {
        None => Err(ParseError::Malformed("unsupported HTTP version")),
        Some(version) => if text::word_end(line) == line.len() {
            Err(ParseError::Malformed("status line missing status code"))
        } else if code.len() != 3 || !text::all_digits(code) {
            Err(ParseError::Malformed("status code must be 3 digits"))
        } else {
            Ok(Start { method: None, status_code: Some(text::decimal(code) as u64), version })
        },
    }
}

/// What a request line of the method `name` says: method, target, version.
pub open spec fn request_line(line: Seq<u8>, name: Seq<char>) -> Result<Start, ParseError> {
    let rest = text::after_word(line);
    if text::word_end(line) == line.len() {
        Err(ParseError::Malformed("request line missing request-target"))
    } else if text::word_end(rest) == rest.len() {
        Err(ParseError::Malformed("request line missing HTTP version"))
    } else {
        match version(text::after_word(rest)) {
            None => Err(ParseError::Malformed("unsupported HTTP version")),
            Some(version) => Ok(Start { method: Some(name), status_code: None, version }),
        }
    }
}

pub open spec fn start_line(line: Seq<u8>) -> Result<Start, ParseError> {
    let first = line.take(text::word_end(line));
    if text::stands_at(first, text::ascii("HTTP/"@), 0) {
        status_line(line)
    } else {
        match method(first, 0) {
            None => Err(ParseError::Malformed("unrecognized request method")),
            Some(name) => request_line(line, name),
        }
    }
}

/// The number in a `Content-Length`, if it is one.
pub open spec fn number(content: Option<Seq<u8>>) -> Option<u64> {
    match content {
        Some(c) => if c.len() > 0 && text::all_digits(c) {
            Some(text::capped(text::decimal(c)))
        } else {
            None
        },
        None => None,
    }
}

pub open spec fn with_text(f: Fields, name: Seq<char>, content: Option<Seq<u8>>) -> Fields {
    match content {
        Some(c) => f.insert(name, ValueView::Str(text::lossy_text(c))),
        None => f,
    }
}

pub open spec fn preface_fields(ctx: Context) -> Fields {
    let f = Map::<Seq<char>, ValueView>::empty();
    let f = if ctx.keys() {
        f.insert(APP@, ValueView::Str("http"@))
    } else {
        f
    };
    if ctx.structural() {
        f.insert(IS_REQUEST@, ValueView::Bool(true)).insert(
            VERSION@,
            ValueView::Str("HTTP/2.0"@),
        )
    } else {
        f
    }
}

pub open spec fn structure_fields(f: Fields, start: Start, all: Seq<Seq<u8>>) -> Fields {
    let f = f.insert(IS_REQUEST@, ValueView::Bool(start.method is Some)).insert(
        VERSION@,
        ValueView::Str(start.version),
    );
    let f = match start.method {
        Some(m) => f.insert(METHOD@, ValueView::Str(m)),
        None => f,
    };
    let f = match start.status_code {
        Some(c) => f.insert(STATUS_CODE@, ValueView::U64(c)),
        None => f,
    };
    with_text(f, HOST@, header(all, 1, "Host"@))
}

pub open spec fn detail_fields(f: Fields, start: Start, all: Seq<Seq<u8>>) -> Fields {
    let f = with_text(f, CONTENT_TYPE@, header(all, 1, "Content-Type"@));
    let f = match number(header(all, 1, "Content-Length"@)) {
        Some(n) => f.insert(CONTENT_LENGTH@, ValueView::U64(n)),
        None => f,
    };
    let f = if start.method is Some {
        with_text(f, USER_AGENT@, header(all, 1, "User-Agent"@))
    } else {
        f
    };
    with_text(f, UPGRADE@, header(all, 1, "Upgrade"@))
}

pub open spec fn fields(start: Start, all: Seq<Seq<u8>>, ctx: Context) -> Fields {
    let f = Map::<Seq<char>, ValueView>::empty();
    let f = if ctx.keys() {
        f.insert(APP@, ValueView::Str("http"@))
    } else {
        f
    };
    let f = if ctx.structural() {
        structure_fields(f, start, all)
    } else {
        f
    };
    if ctx.full() {
        detail_fields(f, start, all)
    } else {
        f
    }
}

/// The message head at the start of `b`.
pub open spec fn message(b: Seq<u8>, ctx: Context) -> Result<Parsed, ParseError> {
    if text::stands_at(b, preface(), 0) {
        Ok(
            Parsed {
                header_len: 24,
                fields: preface_fields(ctx),
                hint: Hint::ByProtocol("http2"),
            },
        )
    } else {
        match text::find(b, blank_line(), 0) {
            None => Err(bytes::no_end(b)),
            Some(end) => {
                let all = lines(b.take(end), 0);
                match start_line(all[0]) {
                    Err(e) => Err(e),
                    Ok(start) => Ok(
                        Parsed {
                            header_len: end + 4,
                            fields: fields(start, all, ctx),
                            hint: Hint::Terminal,
                        },
                    ),
                }
            },
        }
    }
}

fn is_preface(b: &[u8]) -> (r: bool)
    ensures
        r == text::stands_at(b@, preface(), 0),
{
    let expected: &[u8] = &[
        0x50, 0x52, 0x49, 0x20, 0x2A, 0x20, 0x48, 0x54, 0x54, 0x50, 0x2F, 0x32, 0x2E, 0x30,
        0x0D, 0x0A, 0x0D, 0x0A, 0x53, 0x4D, 0x0D, 0x0A, 0x0D, 0x0A,
    ];
    assert(expected@ =~= preface());
    text::is_at(b, expected, 0)
}

/// The contents of lines.
pub open spec fn lines_view(all: Seq<&[u8]>) -> Seq<Seq<u8>> {
    Seq::new(all.len(), |i: int| all[i]@)
}

fn split_lines<'a>(block: &'a [u8]) -> (r: Vec<&'a [u8]>)
    ensures
        lines_view(r@) == lines(block@, 0),
        r@.len() > 0,
{
    let end: &[u8] = &[0x0D, 0x0A];
    assert(end@ =~= crlf());
    let n: usize = block.len();
    let mut out: Vec<&'a [u8]> = Vec::new();
    let mut p: usize = 0;
    assert(lines_view(out@) + lines(block@, 0) =~= lines(block@, 0));
    loop
        invariant
            n == block@.len(),
            end@ == crlf(),
            p <= n,
            lines(block@, 0) == lines_view(out@) + lines(block@, p as int),
        decreases n - p,
    {
        let ghost before = lines_view(out@);
        match text::position(block, end, p) {
            Some(i) => {
                let line = vstd::slice::slice_subrange(block, p, i);
                out.push(line);
                assert(lines_view(out@) =~= before + seq![line@]);
                assert(lines(block@, p as int) == seq![line@] + lines(block@, i + 2));
                assert(before + (seq![line@] + lines(block@, i + 2)) =~= before + seq![line@]
                    + lines(block@, i + 2));
                p = i + 2;
            },
            None => {
                let line = vstd::slice::slice_subrange(block, p, n);
                out.push(line);
                assert(lines_view(out@) =~= before + seq![line@]);
                return out;
            },
        }
    }
}

fn trim_spaces<'a>(b: &'a [u8]) -> (r: &'a [u8])
    ensures
        r@ == trim(b@),
{
    let n: usize = b.len();
    let mut start: usize = 0;
    assert(b@.skip(0) =~= b@);
    while start < n && b[start] == 0x20
        invariant
            n == b@.len(),
            start <= n,
            trim_start(b@) == trim_start(b@.skip(start as int)),
        decreases n - start,
    {
        assert(b@.skip(start as int).drop_first() =~= b@.skip(start + 1));
        start = start + 1;
    }
    let mut end: usize = n;
    let ghost s = b@.skip(start as int);
    assert(trim_start(b@) == s);
    assert(s.take(end - start) =~= s);
    while end > start && b[end - 1] == 0x20
        invariant
            n == b@.len(),
            start <= end <= n,
            s == b@.skip(start as int),
            trim_end(s) == trim_end(s.take(end - start)),
        decreases end - start,
    {
        assert(s.take(end - start).last() == b@[end - 1]);
        assert(s.take(end - start).drop_last() =~= s.take(end - 1 - start));
        end = end - 1;
    }
    let trimmed = vstd::slice::slice_subrange(b, start, end);
    assert(trimmed@ =~= s.take(end - start));
    assert(end > start ==> trimmed@.last() == b@[end - 1]);
    trimmed
}

pub open spec fn content_view(r: Option<&[u8]>) -> Option<Seq<u8>> {
    match r {
        Some(c) => Some(c@),
        None => None,
    }
}

fn line_content<'a>(line: &'a [u8], name: &str) -> (r: Option<&'a [u8]>)
    requires
        vstd::utf8::is_ascii_chars(name@),
    ensures
        content_view(r) == content_of(line@, name@),
{
    let colon: &[u8] = &[0x3A];
    assert(colon@ =~= seq![0x3Au8]);
    match text::position(line, colon, 0) {
        Some(i) => {
            let n: usize = line.len();
            let key = vstd::slice::slice_subrange(line, 0, i);
            assert(key@ =~= line@.take(i as int));
            proof {
                vstd::utf8::is_ascii_chars_encode_utf8(name@);
            }
            assert(vstd::utf8::encode_utf8(name@) =~= text::ascii(name@));
            if text::bytes_eq(
                text::to_uppercase(key).as_slice(),
                text::to_uppercase(name.as_bytes()).as_slice(),
            ) {
                let content = vstd::slice::slice_subrange(line, i + 1, n);
                assert(content@ =~= line@.skip(i + 1));
                Some(trim_spaces(content))
            } else {
                None
            }
        },
        None => None,
    }
}

/// The content of the first header `name` behind the start line.
fn header_value<'a>(all: &Vec<&'a [u8]>, name: &str) -> (r: Option<&'a [u8]>)
    requires
        vstd::utf8::is_ascii_chars(name@),
        all@.len() > 0,
    ensures
        content_view(r) == header(lines_view(all@), 1, name@),
{
    let n: usize = all.len();
    let mut i: usize = 1;
    while i < n
        invariant
            vstd::utf8::is_ascii_chars(name@),
            n == all@.len(),
            1 <= i <= n,
            header(lines_view(all@), 1, name@) == header(lines_view(all@), i as int, name@),
        decreases n - i,
    {
        let line = all[i];
        let found = line_content(line, name);
        assert(lines_view(all@)[i as int] == line@);
        if found.is_some() {
            return found;
        }
        i = i + 1;
    }
    None
}

fn parse_u64(content: Option<&[u8]>) -> (r: Option<u64>)
    ensures
        r == number(content_view(content)),
{
    match content {
        Some(c) => if c.len() > 0 && text::only_digits(c) {
            Some(text::read_decimal(c))
        } else {
            None
        },
        None => None,
    }
}

fn known_methods() -> (r: &'static [&'static str])
    ensures
        r@ == methods(),
{
    &[
        "GET", "POST", "PUT", "DELETE", "HEAD", "OPTIONS", "PATCH", "CONNECT", "TRACE",
    ]
}

proof fn methods_are_ascii()
    ensures
        forall|i: int|
            0 <= i < methods().len() ==> vstd::utf8::is_ascii_chars((#[trigger] methods()[i])@),
{
    reveal_strlit("GET");
    reveal_strlit("POST");
    reveal_strlit("PUT");
    reveal_strlit("DELETE");
    reveal_strlit("HEAD");
    reveal_strlit("OPTIONS");
    reveal_strlit("PATCH");
    reveal_strlit("CONNECT");
    reveal_strlit("TRACE");
}

fn find_method(word: &[u8]) -> (r: Option<&'static str>)
    ensures
        match method(word@, 0) {
            Some(name) => r is Some && r->0@ == name,
            None => r is None,
        },
{
    let all = known_methods();
    let n: usize = all.len();
    let mut i: usize = 0;
    while i < n
        invariant
            all@ == methods(),
            n == all@.len(),
            i <= n,
            method(word@, 0) == method(word@, i as int),
        decreases n - i,
    {
        proof {
            methods_are_ascii();
        }
        assert(vstd::utf8::is_ascii_chars(methods()[i as int]@));
        if text::spells(word, all[i]) {
            return Some(all[i]);
        }
        i = i + 1;
    }
    None
}

fn http1_version(word: &[u8]) -> (r: Option<&'static str>)
    ensures
        match version(word@) {
            Some(v) => r is Some && r->0@ == v,
            None => r is None,
        },
{
    proof {
        reveal_strlit("HTTP/1.0");
        reveal_strlit("HTTP/1.1");
    }
    if text::spells(word, "HTTP/1.0") {
        Some("HTTP/1.0")
    } else if text::spells(word, "HTTP/1.1") {
        Some("HTTP/1.1")
    } else {
        None
    }
}

struct StartLine {
    method: Option<&'static str>,
    status_code: Option<u64>,
    version: &'static str,
}

impl StartLine {
    spec fn is(self, start: Start) -> bool {
        &&& self.method is Some <==> start.method is Some
        &&& self.method is Some ==> self.method->0@ == start.method->0
        &&& self.status_code == start.status_code
        &&& self.version@ == start.version
    }
}

fn parse_start_line(line: &[u8]) -> (res: Result<StartLine, ParseError>)
    ensures
        match start_line(line@) {
            Ok(start) => res is Ok && res->Ok_0.is(start),
            Err(e) => res is Err && res->Err_0 == e,
        },
{
    let (first, rest) = text::split_word(line);
    let prefix = "HTTP/";
    proof {
        reveal_strlit("HTTP/");
        vstd::utf8::is_ascii_chars_encode_utf8(prefix@);
    }
    assert(vstd::utf8::encode_utf8(prefix@) =~= text::ascii(prefix@));
    if text::is_at(first, prefix.as_bytes(), 0) {
        let version = match http1_version(first) {
            Some(v) => v,
            None => {
                return Err(ParseError::Malformed("unsupported HTTP version"));
            },
        };
        let rest = match rest {
            Some(rest) => rest,
            None => {
                return Err(ParseError::Malformed("status line missing status code"));
            },
        };
        let (code, _reason) = text::split_word(rest);
        if code.len() != 3 || !text::only_digits(code) {
            return Err(ParseError::Malformed("status code must be 3 digits"));
        }
        proof {
            three_digits(code@);
        }
        let status_code: u64 = text::read_decimal(code);
        return Ok(StartLine { method: None, status_code: Some(status_code), version });
    }
    let method = match find_method(first) {
        Some(m) => m,
        None => {
            return Err(ParseError::Malformed("unrecognized request method"));
        },
    };
    let rest = match rest {
        Some(rest) => rest,
        None => {
            return Err(ParseError::Malformed("request line missing request-target"));
        },
    };
    let (_target, version) = text::split_word(rest);
    let version = match version {
        Some(v) => v,
        None => {
            return Err(ParseError::Malformed("request line missing HTTP version"));
        },
    };
    match http1_version(version) {
        Some(v) => Ok(StartLine { method: Some(method), status_code: None, version: v }),
        None => Err(ParseError::Malformed("unsupported HTTP version")),
    }
}

proof fn three_digits(d: Seq<u8>)
    requires
        d.len() == 3,
        text::all_digits(d),
    ensures
        0 <= text::decimal(d) <= 999,
{
    assert(text::is_digit(d[0]) && text::is_digit(d[1]) && text::is_digit(d[2]));
    reveal_with_fuel(text::decimal, 4);
    assert(d.drop_last().drop_last().drop_last() =~= Seq::empty());
}

fn insert_text(fields: &mut FieldMap, name: FieldName, content: Option<&[u8]>)
    ensures
        final(fields)@ == with_text(old(fields)@, name@, content_view(content)),
{
    if let Some(c) = content {
        fields.insert(name, Value::Str(text::utf8_lossy(c)));
    }
}

proof fn header_names_are_ascii()
    ensures
        vstd::utf8::is_ascii_chars("Host"@),
        vstd::utf8::is_ascii_chars("Content-Type"@),
        vstd::utf8::is_ascii_chars("Content-Length"@),
        vstd::utf8::is_ascii_chars("User-Agent"@),
        vstd::utf8::is_ascii_chars("Upgrade"@),
{
    reveal_strlit("Host");
    reveal_strlit("Content-Type");
    reveal_strlit("Content-Length");
    reveal_strlit("User-Agent");
    reveal_strlit("Upgrade");
}

fn insert_structure(fields: &mut FieldMap, line: &StartLine, all: &Vec<&[u8]>, Ghost(start): Ghost<
    Start,
>)
    requires
        line.is(start),
        all@.len() > 0,
    ensures
        final(fields)@ == structure_fields(old(fields)@, start, lines_view(all@)),
{
    proof {
        header_names_are_ascii();
    }
    fields.insert(IS_REQUEST, Value::Bool(line.method.is_some()));
    fields.insert(VERSION, Value::from(line.version));
    if let Some(m) = line.method {
        fields.insert(METHOD, Value::from(m));
    }
    if let Some(c) = line.status_code {
        fields.insert(STATUS_CODE, Value::U64(c));
    }
    insert_text(fields, HOST, header_value(all, "Host"));
}

fn insert_details(fields: &mut FieldMap, line: &StartLine, all: &Vec<&[u8]>, Ghost(start): Ghost<
    Start,
>)
    requires
        line.is(start),
        all@.len() > 0,
    ensures
        final(fields)@ == detail_fields(old(fields)@, start, lines_view(all@)),
{
    proof {
        header_names_are_ascii();
    }
    insert_text(fields, CONTENT_TYPE, header_value(all, "Content-Type"));
    if let Some(n) = parse_u64(header_value(all, "Content-Length")) {
        fields.insert(CONTENT_LENGTH, Value::U64(n));
    }
    if line.method.is_some() {
        insert_text(fields, USER_AGENT, header_value(all, "User-Agent"));
    }
    insert_text(fields, UPGRADE, header_value(all, "Upgrade"));
}

pub struct Http;

impl LayerPlugin for Http {
    open spec fn spec_parse(&self, bytes: Seq<u8>, ctx: Context) -> Result<Parsed, ParseError> {
        message(bytes, ctx)
    }

    open spec fn spec_name(&self) -> Seq<char> {
        "http"@
    }

    open spec fn spec_claims(&self) -> Seq<RouteId> {
        seq![RouteId::TcpPort(80)]
    }

    open spec fn spec_identity(&self) -> Option<Identity> {
        identity::conversation_of(
            seq![KeyField { a: APP, b: None }],
            seq![
                RollupSpec { field: METHOD, kind: RollupKind::Accumulate },
                RollupSpec { field: HOST, kind: RollupKind::Sample },
            ],
        )
    }

    open spec fn spec_condense(&self) -> Option<CondenseSpec> {
        None
    }

    open spec fn spec_has_probe(&self) -> bool {
        false
    }

    open spec fn spec_probe(&self, bytes: Seq<u8>, ctx: Context) -> Option<u8> {
        None
    }

    open spec fn spec_predecessors(&self) -> Seq<ProtocolName> {
        Seq::empty()
    }

    fn name(&self) -> (r: ProtocolName) {
        "http"
    }

    fn parse(&self, bytes: &[u8], ctx: &ParseCtx) -> (r: Result<ParsedLayer, ParseError>) {
        if is_preface(bytes) {
            let mut fields = FieldMap::new();
            if ctx.keys() {
                fields.insert(APP, Value::from("http"));
            }
            if ctx.structural() {
                fields.insert(IS_REQUEST, Value::Bool(true));
                fields.insert(VERSION, Value::from("HTTP/2.0"));
            }
            return Ok(ParsedLayer { header_len: 24, fields, hint: Hint::ByProtocol("http2") });
        }
        let end: &[u8] = &[0x0D, 0x0A, 0x0D, 0x0A];
        assert(end@ =~= blank_line());
        let blank: usize = match text::position(bytes, end, 0) {
            Some(i) => i,
            None => {
                return Err(bytes::unterminated(bytes));
            },
        };
        let _len: usize = bytes.len();
        let block = vstd::slice::slice_subrange(bytes, 0, blank);
        assert(block@ =~= bytes@.take(blank as int));
        let all = split_lines(block);
        assert(lines(block@, 0)[0] == all@[0]@);
        let line = parse_start_line(all[0])?;
        let ghost start = start_line(all@[0]@)->Ok_0;

        let mut fields = FieldMap::new();
        if ctx.keys() {
            fields.insert(APP, Value::from("http"));
        }
        if ctx.structural() {
            insert_structure(&mut fields, &line, &all, Ghost(start));
        }
        if ctx.full() {
            insert_details(&mut fields, &line, &all, Ghost(start));
        }
        Ok(ParsedLayer { header_len: blank + 4, fields, hint: Hint::Terminal })
    }

    fn claims(&self) -> (r: &'static [RouteId]) {
        &[RouteId::TcpPort(80)]
    }

    fn stream_identity(&self) -> (r: Option<StreamIdentity>) {
        identity::conversation(
            &[KeyField { a: APP, b: None }],
            &[
                RollupSpec { field: METHOD, kind: RollupKind::Accumulate },
                RollupSpec { field: HOST, kind: RollupKind::Sample },
            ],
        )
    }

    fn condense(&self) -> (r: Option<CondenseSpec>) {
        None
    }

    fn has_probe(&self) -> (r: bool) {
        false
    }

    fn probe(&self, bytes: &[u8], ctx: &ParseCtx) -> (r: Option<Confidence>) {
        None
    }

    fn expected_predecessors(&self) -> (r: &'static [ProtocolName]) {
        &[]
    }
}

} // verus!

//! HTTP message heads.
use vstd::prelude::*;

use crate::bytes::ParseError;
use crate::layer::{Context, Hint, LayerPlugin, Parsed};
use crate::plugins::http::{self, Http};
use crate::plugins::wire;
use crate::plugins::wire::lines::{self, behind, lacks, worded};
use crate::text;
use crate::value::{Fields, ValueView};

verus! {

/// Lines with their ends between them.
pub open spec fn block(list: Seq<Seq<u8>>) -> Seq<u8>
    decreases list.len(),
{
    if list.len() <= 1 {
        list[0]
    } else {
        list[0] + seq![0x0D, 0x0A] + block(list.drop_first())
    }
}

/// Whether these are the lines of one head: none is empty, which would end it.
pub open spec fn are_lines(list: Seq<Seq<u8>>) -> bool {
    &&& list.len() > 0
    &&& forall|i: int| 0 <= i < list.len() ==> (#[trigger] list[i]).len() > 0 && lacks(
        list[i],
        0x0D,
    )
}

/// A stretch without a pattern's first byte is passed over.
proof fn lemma_passed(b: Seq<u8>, pattern: Seq<u8>, p: int, n: int)
    requires
        pattern.len() > 0,
        0 <= p <= n <= b.len(),
        forall|i: int| p <= i < n ==> #[trigger] b[i] != pattern[0],
    ensures
        text::find(b, pattern, p) == text::find(b, pattern, n),
    decreases n - p,
{
    if p < n {
        assert(b[p] != pattern[0]);
        assert(text::stands_at(b, pattern, p) ==> b.subrange(p, p + pattern.len())[0]
            == pattern[0]);
        lemma_passed(b, pattern, p + 1, n);
    }
}

proof fn lemma_rest_are_lines(list: Seq<Seq<u8>>)
    requires
        are_lines(list),
        list.len() > 1,
    ensures
        are_lines(list.drop_first()),
{
    let more = list.drop_first();
    assert forall|i: int| 0 <= i < more.len() implies (#[trigger] more[i]).len() > 0 && lacks(
        more[i],
        0x0D,
    ) by {
        assert(more[i] == list[i + 1]);
    }
}

/// The end of a head is found behind its last line.
proof fn lemma_blank(list: Seq<Seq<u8>>, head: Seq<u8>, rest: Seq<u8>)
    requires
        are_lines(list),
    ensures
        text::find(
            head + block(list) + http::blank_line() + rest,
            http::blank_line(),
            head.len() as int,
        ) == Some((head.len() + block(list).len()) as int),
    decreases list.len(),
{
    let blank = http::blank_line();
    let b = head + block(list) + blank + rest;
    let p = head.len() as int;
    let line = list[0];
    let n = p + line.len();
    assert(line.len() > 0 && lacks(line, 0x0D));
    assert forall|i: int| p <= i < n implies #[trigger] b[i] != blank[0] by {
        assert(b[i] == line[i - p]);
    }
    lemma_passed(b, blank, p, n);
    if list.len() == 1 {
        assert(b.subrange(n, n + 4) =~= blank);
    } else {
        let more = list.drop_first();
        lemma_rest_are_lines(list);
        let front = head + line + seq![0x0Du8, 0x0A];
        assert(block(list) == line + seq![0x0Du8, 0x0A] + block(more));
        assert(b =~= front + block(more) + blank + rest);
        assert(more[0].len() > 0 && lacks(more[0], 0x0D));
        assert(block(more).len() > 0 && block(more)[0] == more[0][0]);
        assert(b[n + 1] == 0x0A);
        assert(b[n + 2] == more[0][0]);
        assert(!text::stands_at(b, blank, n)) by {
            if text::stands_at(b, blank, n) {
                assert(b.subrange(n, n + 4)[2] == blank[2]);
            }
        }
        assert(!text::stands_at(b, blank, n + 1)) by {
            if text::stands_at(b, blank, n + 1) {
                assert(b.subrange(n + 1, n + 5)[0] == blank[0]);
            }
        }
        assert(text::find(b, blank, n) == text::find(b, blank, n + 1));
        assert(text::find(b, blank, n + 1) == text::find(b, blank, n + 2));
        lemma_blank(more, front, rest);
    }
}

/// The lines of a head are read one by one.
proof fn lemma_lines(list: Seq<Seq<u8>>, head: Seq<u8>)
    requires
        are_lines(list),
    ensures
        http::lines(head + block(list), head.len() as int) == list,
    decreases list.len(),
{
    let end = http::crlf();
    let b = head + block(list);
    let p = head.len() as int;
    let line = list[0];
    let n = p + line.len();
    assert(line.len() > 0 && lacks(line, 0x0D));
    assert forall|i: int| p <= i < n implies #[trigger] b[i] != end[0] by {
        assert(b[i] == line[i - p]);
    }
    lemma_passed(b, end, p, n);
    assert(b.subrange(p, n) =~= line);
    if list.len() == 1 {
        assert(list =~= seq![line]);
    } else {
        let more = list.drop_first();
        lemma_rest_are_lines(list);
        let front = head + line + seq![0x0Du8, 0x0A];
        assert(block(list) == line + seq![0x0Du8, 0x0A] + block(more));
        assert(b =~= front + block(more));
        assert(b.subrange(n, n + 2) =~= end);
        lemma_lines(more, front);
        assert(seq![line] + more =~= list);
    }
}

/// A header: its name and what stands behind the colon.
pub ghost struct Header {
    pub name: Seq<u8>,
    pub content: Seq<u8>,
}

impl Header {
    pub open spec fn line(self) -> Seq<u8> {
        self.name + seq![0x3A] + self.content
    }
}

/// What the first header of a name says, letter case aside, without the blanks around it.
pub open spec fn said(headers: Seq<Header>, name: Seq<char>) -> Option<Seq<u8>>
    decreases headers.len(),
{
    if headers.len() == 0 {
        None
    } else if lines::raised(headers[0].name) == lines::raised(text::ascii(name)) {
        Some(http::trim(headers[0].content))
    } else {
        said(headers.drop_first(), name)
    }
}

/// Blanks around a content are left off.
pub proof fn blanks_are_left_off(before: Seq<u8>, core: Seq<u8>, after: Seq<u8>)
    requires
        forall|i: int| 0 <= i < before.len() ==> #[trigger] before[i] == 0x20,
        forall|i: int| 0 <= i < after.len() ==> #[trigger] after[i] == 0x20,
        core.len() > 0,
        core[0] != 0x20,
        core.last() != 0x20,
    ensures
        http::trim(before + core + after) == core,
    decreases before.len() + after.len(),
{
    let b = before + core + after;
    if before.len() > 0 {
        assert(b[0] == before[0]);
        let less = before.drop_first();
        assert(b.drop_first() =~= less + core + after);
        assert forall|i: int| 0 <= i < less.len() implies #[trigger] less[i] == 0x20 by {
            assert(less[i] == before[i + 1]);
        }
        blanks_are_left_off(less, core, after);
    } else {
        assert(b[0] == core[0]);
        assert(http::trim_start(b) == b);
        lemma_trim_end(core, after);
        assert(b =~= core + after);
    }
}

proof fn lemma_trim_end(core: Seq<u8>, after: Seq<u8>)
    requires
        forall|i: int| 0 <= i < after.len() ==> #[trigger] after[i] == 0x20,
        core.len() > 0,
        core.last() != 0x20,
    ensures
        http::trim_end(core + after) == core,
    decreases after.len(),
{
    let b = core + after;
    if after.len() > 0 {
        let less = after.drop_last();
        assert(b.last() == after.last());
        assert(b.drop_last() =~= core + less);
        assert forall|i: int| 0 <= i < less.len() implies #[trigger] less[i] == 0x20 by {
            assert(less[i] == after[i]);
        }
        lemma_trim_end(core, less);
    } else {
        assert(b =~= core);
    }
}

/// The lines of a head: the start line, then the headers.
pub open spec fn head_lines(start: Seq<u8>, headers: Seq<Header>) -> Seq<Seq<u8>> {
    Seq::new(
        headers.len() + 1,
        |i: int|
            if i == 0 {
                start
            } else {
                headers[i - 1].line()
            },
    )
}

proof fn lemma_said(start: Seq<u8>, headers: Seq<Header>, i: int, name: Seq<char>)
    requires
        0 <= i <= headers.len(),
        forall|k: int| 0 <= k < headers.len() ==> lacks((#[trigger] headers[k]).name, 0x3A),
    ensures
        http::header(head_lines(start, headers), i + 1, name) == said(headers.skip(i), name),
    decreases headers.len() - i,
{
    let all = head_lines(start, headers);
    let rest = headers.skip(i);
    if i < headers.len() {
        let h = headers[i];
        let line = h.line();
        assert(all[i + 1] == line);
        assert(lacks(headers[i].name, 0x3A));
        lines::bytes_are_found(h.name, 0x3A, h.content, 0);
        assert(line.take(h.name.len() as int) =~= h.name);
        assert(line.skip(h.name.len() as int + 1) =~= h.content);
        assert(text::uppercase(h.name) =~= lines::raised(h.name));
        assert(text::uppercase(text::ascii(name)) =~= lines::raised(text::ascii(name)));
        assert(rest[0] == h);
        assert(rest.drop_first() =~= headers.skip(i + 1));
        lemma_said(start, headers, i + 1, name);
    }
}

/// The methods that are known.
pub open spec fn known_methods() -> Seq<&'static str> {
    seq!["GET", "POST", "PUT", "DELETE", "HEAD", "OPTIONS", "PATCH", "CONNECT", "TRACE"]
}

/// `HTTP/1.1` or `HTTP/1.0`.
pub open spec fn version_bytes(eleven: bool) -> Seq<u8> {
    seq![
        72u8, 84, 84, 80, 47, 49, 46,
        if eleven {
            49u8
        } else {
            48u8
        },
    ]
}

/// A start line: a request or a response.
pub ghost enum Start {
    Request { word: Seq<u8>, known: int, target: Seq<u8>, eleven: bool },
    Response { eleven: bool, code: (u8, u8, u8), reason: Option<Seq<u8>> },
}

impl Start {
    pub open spec fn line(self) -> Seq<u8> {
        match self {
            Start::Request { word, target, eleven, .. } => worded(
                word,
                Some(worded(target, Some(version_bytes(eleven)))),
            ),
            Start::Response { eleven, code, reason } => worded(
                version_bytes(eleven),
                Some(
                    worded(
                        seq![(48 + code.0) as u8, (48 + code.1) as u8, (48 + code.2) as u8],
                        reason,
                    ),
                ),
            ),
        }
    }

    /// Whether the method is a known one, told apart from the others and from a version;
    /// or the code is one of three digits.
    pub open spec fn fits(self) -> bool {
        match self {
            Start::Request { word, known, target, .. } => {
                &&& 0 <= known < known_methods().len()
                &&& word == text::ascii(known_methods()[known]@)
                &&& forall|j: int|
                    0 <= j < known ==> word != text::ascii((#[trigger] known_methods()[j])@)
                &&& word.len() > 0
                &&& lacks(word, 0x20)
                &&& word != seq![80u8, 82, 73]
                &&& word.len() >= 5 ==> word.take(5) != seq![72u8, 84, 84, 80, 47]
                &&& lacks(target, 0x20)
            },
            Start::Response { code, .. } => code.0 < 10 && code.1 < 10 && code.2 < 10,
        }
    }

    pub open spec fn is_request(self) -> bool {
        self is Request
    }

    pub open spec fn version(self) -> Seq<char> {
        let eleven = match self {
            Start::Request { eleven, .. } => eleven,
            Start::Response { eleven, .. } => eleven,
        };
        if eleven {
            "HTTP/1.1"@
        } else {
            "HTTP/1.0"@
        }
    }

    pub open spec fn method(self) -> Option<Seq<char>> {
        match self {
            Start::Request { known, .. } => Some(known_methods()[known]@),
            Start::Response { .. } => None,
        }
    }

    pub open spec fn status(self) -> Option<u64> {
        match self {
            Start::Request { .. } => None,
            Start::Response { code, .. } => Some((code.0 * 100 + code.1 * 10 + code.2) as u64),
        }
    }
}

proof fn lemma_version(eleven: bool)
    ensures
        http::version(version_bytes(eleven)) == Some(
            if eleven {
                "HTTP/1.1"@
            } else {
                "HTTP/1.0"@
            },
        ),
        text::stands_at(version_bytes(eleven), text::ascii("HTTP/"@), 0),
        lacks(version_bytes(eleven), 0x20),
        text::ascii("HTTP/"@) == seq![72u8, 84, 84, 80, 47],
{
    reveal_strlit("HTTP/1.0");
    reveal_strlit("HTTP/1.1");
    reveal_strlit("HTTP/");
    let v = version_bytes(eleven);
    assert(text::ascii("HTTP/1.0"@) =~= version_bytes(false));
    assert(text::ascii("HTTP/1.1"@) =~= version_bytes(true));
    assert(text::ascii("HTTP/"@) =~= seq![72u8, 84, 84, 80, 47]);
    assert(version_bytes(false)[7] != version_bytes(true)[7]);
    assert(v.subrange(0, 5) =~= seq![72u8, 84, 84, 80, 47]);
}

proof fn lemma_method(word: Seq<u8>, known: int, i: int)
    requires
        0 <= i <= known < known_methods().len(),
        word == text::ascii(known_methods()[known]@),
        forall|j: int| 0 <= j < known ==> word != text::ascii((#[trigger] known_methods()[j])@),
    ensures
        http::method(word, i) == Some(known_methods()[known]@),
    decreases known - i,
{
    assert(http::methods() == known_methods());
    if i < known {
        assert(word != text::ascii(known_methods()[i]@));
        lemma_method(word, known, i + 1);
    }
}

/// A start line is read as it was written.
pub proof fn start_lines_are_read(s: Start)
    requires
        s.fits(),
    ensures
        http::start_line(s.line()) == Ok::<http::Start, ParseError>(
            http::Start { method: s.method(), status_code: s.status(), version: s.version() },
        ),
{
    match s {
        Start::Request { word, known, target, eleven } => {
            let v = version_bytes(eleven);
            lemma_version(eleven);
            lemma_method(word, known, 0);
            lines::words_are_split(word, Some(worded(target, Some(v))));
            lines::words_are_split(target, Some(v));
            assert(!text::stands_at(word, text::ascii("HTTP/"@), 0)) by {
                if text::stands_at(word, text::ascii("HTTP/"@), 0) {
                    assert(word.take(5) =~= word.subrange(0, 5));
                }
            }
        },
        Start::Response { eleven, code, reason } => {
            let v = version_bytes(eleven);
            let c = seq![(48 + code.0) as u8, (48 + code.1) as u8, (48 + code.2) as u8];
            lemma_version(eleven);
            lines::words_are_split(v, Some(worded(c, reason)));
            lines::words_are_split(c, reason);
            reveal_with_fuel(text::decimal, 4);
            let two = seq![(48 + code.0) as u8, (48 + code.1) as u8];
            let one = seq![(48 + code.0) as u8];
            assert(c.drop_last() =~= two && two.drop_last() =~= one && one.drop_last()
                =~= Seq::<u8>::empty());
            assert(text::decimal(c) == code.0 * 100 + code.1 * 10 + code.2);
            assert(text::all_digits(c));
        },
    }
}

/// The number that a content of digits spells, as far as it can be held.
pub open spec fn length_in(content: Option<Seq<u8>>) -> Option<u64> {
    match content {
        Some(c) => if c.len() > 0 && forall|i: int|
            0 <= i < c.len() ==> 48 <= #[trigger] c[i] <= 57 {
            Some(
                if text::decimal(c) <= u64::MAX {
                    text::decimal(c) as u64
                } else {
                    u64::MAX
                },
            )
        } else {
            None
        },
        None => None,
    }
}

/// The parts of an HTTP message head.
pub ghost struct HttpHead {
    pub start: Start,
    pub headers: Seq<Header>,
}

impl HttpHead {
    pub open spec fn lines(self) -> Seq<Seq<u8>> {
        head_lines(self.start.line(), self.headers)
    }

    pub open spec fn fits(self) -> bool {
        &&& self.start.fits()
        &&& are_lines(self.lines())
        &&& forall|k: int|
            0 <= k < self.headers.len() ==> lacks((#[trigger] self.headers[k]).name, 0x3A)
    }

    /// The head as it is on the wire (RFC 9112).
    pub open spec fn written(self) -> Seq<u8> {
        block(self.lines()) + seq![0x0D, 0x0A, 0x0D, 0x0A]
    }

    /// The text of the first header of a name.
    pub open spec fn of(self, name: Seq<char>) -> ValueView {
        ValueView::Str(text::lossy_text(said(self.headers, name)->0))
    }

    pub open spec fn has(self, name: Seq<char>) -> bool {
        said(self.headers, name) is Some
    }

    /// What is to be read of it.
    pub open spec fn told(self, ctx: Context) -> Fields {
        let s = self.start;
        let keys = map!["app"@ => ValueView::Str("http"@)];
        let structure = map![
            "is_request"@ => ValueView::Bool(s.is_request()),
            "version"@ => ValueView::Str(s.version()),
        ];
        let method = ValueView::Str(s.method()->0);
        let structure = wire::with(structure, s.method() is Some, "method"@, method);
        let status = ValueView::U64(s.status()->0);
        let structure = wire::with(structure, s.status() is Some, "status_code"@, status);
        let structure = wire::with(structure, self.has("Host"@), "host"@, self.of("Host"@));
        let others = Map::<Seq<char>, ValueView>::empty();
        let kind = self.of("Content-Type"@);
        let others = wire::with(others, self.has("Content-Type"@), "content_type"@, kind);
        let length = length_in(said(self.headers, "Content-Length"@));
        let others = wire::with(
            others,
            length is Some,
            "content_length"@,
            ValueView::U64(length->0),
        );
        let asks = s.is_request() && self.has("User-Agent"@);
        let others = wire::with(others, asks, "user_agent"@, self.of("User-Agent"@));
        let others = wire::with(others, self.has("Upgrade"@), "upgrade"@, self.of("Upgrade"@));
        wire::shown(ctx, keys, structure, others)
    }
}

/// No head begins like the preface of HTTP/2.
proof fn lemma_no_preface(h: HttpHead, b: Seq<u8>, rest: Seq<u8>)
    requires
        h.fits(),
        b == h.written() + rest,
    ensures
        !text::stands_at(b, http::preface(), 0),
{
    let line = h.start.line();
    assert(h.lines()[0] == line);
    assert(h.lines()[0].len() > 0);
    assert(forall|i: int| 0 <= i < line.len() ==> #[trigger] b[i] == line[i]);
    if text::stands_at(b, http::preface(), 0) {
        let f = b.subrange(0, 24);
        assert(f[0] == 80u8 && f[1] == 82u8 && f[2] == 73u8 && f[3] == 32u8);
        assert(b[0] == f[0] && b[1] == f[1] && b[2] == f[2] && b[3] == f[3]);
        match h.start {
            Start::Request { word, target, eleven, .. } => {
                let w = word.len() as int;
                assert(line[w] == 0x20);
                assert(forall|i: int| 0 <= i < w ==> line[i] == #[trigger] word[i]);
                if w > 3 {
                    assert(word[3] != 0x20);
                    assert(line[3] == word[3]);
                } else {
                    assert(b[w] == line[w]);
                    assert(w == 3);
                    assert(line[0] == word[0] && line[1] == word[1] && line[2] == word[2]);
                    assert(word =~= seq![80u8, 82, 73]);
                }
            },
            Start::Response { eleven, .. } => {
                assert(line[0] == version_bytes(eleven)[0]);
            },
        }
    }
}

/// An HTTP message head is read as it was written, and the body behind it is left alone.
pub proof fn http_reads_what_was_written(h: HttpHead, payload: Seq<u8>, ctx: Context)
    requires
        h.fits(),
    ensures
        Http.spec_parse(h.written() + payload, ctx) == Ok::<Parsed, ParseError>(
            Parsed {
                header_len: h.written().len() as int,
                fields: h.told(ctx),
                hint: Hint::Terminal,
            },
        ),
{
    let b = h.written() + payload;
    let all = h.lines();
    let none = Seq::<u8>::empty();
    lemma_no_preface(h, b, payload);
    lemma_blank(all, none, payload);
    assert(none + block(all) + http::blank_line() + payload =~= b);
    let end = block(all).len() as int;
    assert(b.take(end) =~= none + block(all));
    lemma_lines(all, none);
    start_lines_are_read(h.start);
    lemma_http_fields(h, ctx);
}

proof fn lemma_http_fields(h: HttpHead, ctx: Context)
    requires
        h.fits(),
    ensures
        http::fields(
            http::Start {
                method: h.start.method(),
                status_code: h.start.status(),
                version: h.start.version(),
            },
            h.lines(),
            ctx,
        ) == h.told(ctx),
{
    let all = h.lines();
    assert(h.headers.skip(0) =~= h.headers);
    lemma_said(h.start.line(), h.headers, 0, "Host"@);
    lemma_said(h.start.line(), h.headers, 0, "Content-Type"@);
    lemma_said(h.start.line(), h.headers, 0, "Content-Length"@);
    lemma_said(h.start.line(), h.headers, 0, "User-Agent"@);
    lemma_said(h.start.line(), h.headers, 0, "Upgrade"@);
    let c = said(h.headers, "Content-Length"@);
    assert(http::number(c) == length_in(c)) by {
        if c is Some {
            assert(text::all_digits(c->0) <==> forall|i: int|
                0 <= i < c->0.len() ==> 48 <= #[trigger] c->0[i] <= 57);
        }
    }
    let start = http::Start {
        method: h.start.method(),
        status_code: h.start.status(),
        version: h.start.version(),
    };
    assert(http::fields(start, all, ctx) =~= h.told(ctx));
}

/// The preface of HTTP/2 (RFC 9113, 3.4) is read whole, and hands over to HTTP/2.
pub proof fn http_prefaces_are_read(payload: Seq<u8>, ctx: Context)
    ensures
        ({
            let preface = text::ascii("PRI * HTTP/2.0\r\n\r\nSM\r\n\r\n"@);
            Http.spec_parse(preface + payload, ctx) == Ok::<Parsed, ParseError>(
                Parsed {
                    header_len: 24,
                    fields: wire::shown(
                        ctx,
                        map!["app"@ => ValueView::Str("http"@)],
                        map![
                            "is_request"@ => ValueView::Bool(true),
                            "version"@ => ValueView::Str("HTTP/2.0"@),
                        ],
                        Map::empty(),
                    ),
                    hint: Hint::ByProtocol("http2"),
                },
            )
        }),
{
    reveal_strlit("PRI * HTTP/2.0\r\n\r\nSM\r\n\r\n");
    let preface = text::ascii("PRI * HTTP/2.0\r\n\r\nSM\r\n\r\n"@);
    assert(preface =~= http::preface());
    let b = preface + payload;
    assert(b.subrange(0, 24) =~= http::preface());
    assert(http::preface_fields(ctx) =~= wire::shown(
        ctx,
        map!["app"@ => ValueView::Str("http"@)],
        map![
            "is_request"@ => ValueView::Bool(true),
            "version"@ => ValueView::Str("HTTP/2.0"@),
        ],
        Map::empty(),
    ));
}

} // verus!

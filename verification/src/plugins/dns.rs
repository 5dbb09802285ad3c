//! DNS (RFC 1035): the message of one datagram, or the first message of a TCP
//! segment behind its two-byte length. Every section is walked; answers are
//! rendered, the other records are checked for their bounds.
//!
//! DNS has no endpoints of its own, so its key is one shared constant: exactly one
//! child stream per transport stream, which collects the names asked for.
use vstd::prelude::*;

use crate::bytes::{self, ByteReader, ParseError};
use crate::identity::{
    self, CondenseSpec, Identity, KeyField, RollupKind, RollupSpec, StreamIdentity,
};
use crate::layer::{Confidence, Context, Hint, LayerPlugin, ParseCtx, Parsed, ParsedLayer, RouteId};
use crate::{layer, text, value};
use crate::value::{FieldMap, FieldName, Fields, ProtocolName, Value, ValueView};

verus! {

pub const APP: FieldName = "app";

pub const ID: FieldName = "id";

pub const IS_RESPONSE: FieldName = "is_response";

pub const OPCODE: FieldName = "opcode";

pub const RCODE: FieldName = "rcode";

pub const QNAME: FieldName = "qname";

pub const QTYPE: FieldName = "qtype";

pub const ANSWERS: FieldName = "answers";

pub const QDCOUNT: FieldName = "qdcount";

pub const ANCOUNT: FieldName = "ancount";

pub const NSCOUNT: FieldName = "nscount";

pub const ARCOUNT: FieldName = "arcount";

/// Compression pointers go strictly backward, and at most this many follow one
/// another.
pub const MAX_POINTER_JUMPS: usize = 64;

pub const MAX_NAME_LEN: usize = 255;

/// A section that claims more records than this is not walked.
pub const MAX_RECORDS_PER_SECTION: u16 = 128;

pub const TYPE_A: u16 = 1;

pub const TYPE_CNAME: u16 = 5;

pub const TYPE_PTR: u16 = 12;

pub const TYPE_AAAA: u16 = 28;

/// A label's text: visible ASCII other than the dot as it is, the rest as `?`.
pub open spec fn label_text(label: Seq<u8>) -> Seq<char> {
    Seq::new(
        label.len(),
        |i: int|
            if text::graphic(label[i]) && label[i] != 0x2E {
                label[i] as char
            } else {
                '?'
            },
    )
}

/// `name` with one more label.
pub open spec fn with_label(name: Seq<char>, label: Seq<u8>) -> Seq<char> {
    if name.len() == 0 {
        label_text(label)
    } else {
        name.push('.') + label_text(label)
    }
}

/// Where the compression pointer at `pos` leads.
pub open spec fn pointer_target(msg: Seq<u8>, pos: int) -> int {
    (msg[pos] & 0x3F) * 0x100 + msg[pos + 1]
}

/// The dotted name that continues `name` at `pos`, `jumps` pointers in.
pub open spec fn name_from(msg: Seq<u8>, pos: int, name: Seq<char>, jumps: int) -> Result<
    Seq<char>,
    ParseError,
>
    decreases MAX_POINTER_JUMPS + 1 - jumps, msg.len() - pos,
{
    if pos < 0 || pos >= msg.len() {
        Err(ParseError::Malformed("name runs past message"))
    } else if msg[pos] == 0 {
        Ok(name)
    } else if msg[pos] & 0xC0 == 0xC0 {
        if pos + 1 >= msg.len() {
            Err(ParseError::Malformed("pointer runs past message"))
        } else if pointer_target(msg, pos) >= pos {
            Err(ParseError::Malformed("forward compression pointer"))
        } else if jumps + 1 > MAX_POINTER_JUMPS {
            Err(ParseError::Malformed("compression pointer chain too long"))
        } else {
            name_from(msg, pointer_target(msg, pos), name, jumps + 1)
        }
    } else if msg[pos] & 0xC0 == 0 {
        let longer = with_label(name, msg.subrange(pos + 1, pos + 1 + msg[pos]));
        if pos + 1 + msg[pos] > msg.len() {
            Err(ParseError::Malformed("label runs past message"))
        } else if longer.len() > MAX_NAME_LEN {
            Err(ParseError::Malformed("name too long"))
        } else {
            name_from(msg, pos + 1 + msg[pos], longer, jumps)
        }
    } else {
        Err(ParseError::Malformed("reserved label type"))
    }
}

/// The name at `pos`.
pub open spec fn name_at(msg: Seq<u8>, pos: int) -> Result<Seq<char>, ParseError> {
    name_from(msg, pos, Seq::empty(), 0)
}

/// How many bytes the name at `pos` takes there: its labels up to the closing
/// zero or to the first pointer.
pub open spec fn name_size(msg: Seq<u8>, pos: int) -> int
    decreases msg.len() - pos,
{
    if pos < 0 || pos >= msg.len() || msg[pos] == 0 {
        1
    } else if msg[pos] & 0xC0 == 0xC0 {
        2
    } else if pos + 1 + msg[pos] > msg.len() {
        1
    } else {
        1 + msg[pos] + name_size(msg, pos + 1 + msg[pos])
    }
}

pub struct Question {
    pub name: Seq<char>,
    pub qtype: u16,
}

/// The end of `n` questions from `pos` on, and the first of them unless
/// `first` is it already.
pub open spec fn questions(msg: Seq<u8>, pos: int, n: int, first: Option<Question>) -> Result<
    (int, Option<Question>),
    ParseError,
>
    decreases n,
{
    if n <= 0 {
        Ok((pos, first))
    } else {
        let p = pos + name_size(msg, pos);
        match name_at(msg, pos) {
            Err(e) => Err(e),
            Ok(name) => if msg.len() < p + 2 {
                Err(bytes::short(msg, p, 2))
            } else if msg.len() < p + 4 {
                Err(bytes::short(msg, p + 2, 2))
            } else {
                questions(
                    msg,
                    p + 4,
                    n - 1,
                    if first is None {
                        Some(Question { name, qtype: bytes::be16(msg, p) })
                    } else {
                        first
                    },
                )
            },
        }
    }
}

/// The first `n` bytes of `data` in decimal, joined by dots.
pub open spec fn dotted(data: Seq<u8>, n: int) -> Seq<char>
    decreases n,
{
    if n <= 0 {
        Seq::empty()
    } else if n == 1 {
        text::numeral(data[0] as int, 10)
    } else {
        dotted(data, n - 1).push('.') + text::numeral(data[n - 1] as int, 10)
    }
}

/// The first `n` 16-bit groups of `data` in hexadecimal, joined by colons.
pub open spec fn grouped(data: Seq<u8>, n: int) -> Seq<char>
    decreases n,
{
    if n <= 0 {
        Seq::empty()
    } else if n == 1 {
        text::numeral(bytes::be16(data, 0) as int, 16)
    } else {
        grouped(data, n - 1).push(':') + text::numeral(bytes::be16(data, 2 * (n - 1)) as int, 16)
    }
}

pub open spec fn type_label(rtype: u16) -> Seq<char> {
    "type"@ + text::numeral(rtype as int, 10)
}

/// An answer's text: an address, the name that an alias or a pointer record
/// leads to, or the type's number. The record data is at `at`.
pub open spec fn rendered(msg: Seq<u8>, rtype: u16, at: int, rdata: Seq<u8>) -> Seq<char> {
    if rtype == TYPE_A && rdata.len() == 4 {
        dotted(rdata, 4)
    } else if rtype == TYPE_AAAA && rdata.len() == 16 {
        grouped(rdata, 8)
    } else if rtype == TYPE_CNAME || rtype == TYPE_PTR {
        match name_at(msg, at) {
            Ok(name) => name,
            Err(_) => type_label(rtype),
        }
    } else {
        type_label(rtype)
    }
}

/// The end of `n` records from `pos` on, and their texts after `texts`.
pub open spec fn records(msg: Seq<u8>, pos: int, n: int, texts: Seq<ValueView>) -> Result<
    (int, Seq<ValueView>),
    ParseError,
>
    decreases n,
{
    if n <= 0 {
        Ok((pos, texts))
    } else {
        let p = pos + name_size(msg, pos);
        let len = bytes::be16(msg, p + 8) as int;
        match name_at(msg, pos) {
            Err(e) => Err(e),
            Ok(_) => if msg.len() < p + 2 {
                Err(bytes::short(msg, p, 2))
            } else if msg.len() < p + 4 {
                Err(bytes::short(msg, p + 2, 2))
            } else if msg.len() < p + 8 {
                Err(bytes::short(msg, p + 4, 4))
            } else if msg.len() < p + 10 {
                Err(bytes::short(msg, p + 8, 2))
            } else if msg.len() < p + 10 + len {
                Err(bytes::short(msg, p + 10, len))
            } else {
                let text = rendered(
                    msg,
                    bytes::be16(msg, p),
                    p + 10,
                    msg.subrange(p + 10, p + 10 + len),
                );
                records(msg, p + 10 + len, n - 1, texts.push(ValueView::Str(text)))
            },
        }
    }
}

/// What the four sections of a message say, and where they end.
pub struct Sections {
    pub end: int,
    pub question: Option<Question>,
    pub answers: Seq<ValueView>,
}

pub open spec fn sections(msg: Seq<u8>) -> Result<Sections, ParseError> {
    match questions(msg, 12, bytes::be16(msg, 4) as int, None) {
        Err(e) => Err(e),
        Ok((p1, question)) => match records(msg, p1, bytes::be16(msg, 6) as int, Seq::empty()) {
            Err(e) => Err(e),
            Ok((p2, answers)) => match records(msg, p2, bytes::be16(msg, 8) as int, Seq::empty()) {
                Err(e) => Err(e),
                Ok((p3, _)) => match records(
                    msg,
                    p3,
                    bytes::be16(msg, 10) as int,
                    Seq::empty(),
                ) {
                    Err(e) => Err(e),
                    Ok((end, _)) => Ok(Sections { end, question, answers }),
                },
            },
        },
    }
}

pub open spec fn fields(msg: Seq<u8>, s: Sections, ctx: Context) -> Fields {
    let flags = bytes::be16(msg, 2);
    let f = Map::<Seq<char>, ValueView>::empty();
    let f = if ctx.keys() {
        f.insert(APP@, ValueView::Str("dns"@))
    } else {
        f
    };
    let f = if ctx.structural() {
        f.insert(ID@, ValueView::U64(bytes::be16(msg, 0) as u64)).insert(
            IS_RESPONSE@,
            ValueView::Bool(flags & 0x8000 != 0),
        ).insert(OPCODE@, ValueView::U64(((flags >> 11) & 0xF) as u64)).insert(
            RCODE@,
            ValueView::U64((flags & 0xF) as u64),
        )
    } else {
        f
    };
    let f = if ctx.structural() && s.question is Some {
        f.insert(QNAME@, ValueView::Str(s.question->0.name)).insert(
            QTYPE@,
            ValueView::U64(s.question->0.qtype as u64),
        )
    } else {
        f
    };
    if ctx.full() {
        f.insert(ANSWERS@, ValueView::List(s.answers)).insert(
            QDCOUNT@,
            ValueView::U64(bytes::be16(msg, 4) as u64),
        ).insert(ANCOUNT@, ValueView::U64(bytes::be16(msg, 6) as u64)).insert(
            NSCOUNT@,
            ValueView::U64(bytes::be16(msg, 8) as u64),
        ).insert(ARCOUNT@, ValueView::U64(bytes::be16(msg, 10) as u64))
    } else {
        f
    }
}

/// The message `msg`, `prefix` bytes into the layer.
pub open spec fn body(msg: Seq<u8>, prefix: int, ctx: Context) -> Result<Parsed, ParseError> {
    if msg.len() < 12 {
        Err(bytes::short(msg, msg.len() - msg.len() % 2, 2))
    } else if bytes::be16(msg, 4) > MAX_RECORDS_PER_SECTION || bytes::be16(msg, 6)
        > MAX_RECORDS_PER_SECTION || bytes::be16(msg, 8) > MAX_RECORDS_PER_SECTION || bytes::be16(
        msg,
        10,
    ) > MAX_RECORDS_PER_SECTION {
        Err(ParseError::Malformed("implausible section count"))
    } else {
        match sections(msg) {
            Err(e) => Err(e),
            Ok(s) => Ok(
                Parsed {
                    header_len: prefix + s.end,
                    fields: fields(msg, s, ctx),
                    hint: Hint::Terminal,
                },
            ),
        }
    }
}

/// The message at the start of `b`.
pub open spec fn message(b: Seq<u8>, ctx: Context) -> Result<Parsed, ParseError> {
    if !ctx.follows("tcp"@) {
        body(b, 0, ctx)
    } else if b.len() < 2 {
        Err(bytes::short(b, 0, 2))
    } else if b.len() < 2 + bytes::be16(b, 0) {
        Err(bytes::short(b, 2, bytes::be16(b, 0) as int))
    } else {
        body(b.subrange(2, 2 + bytes::be16(b, 0)), 2, ctx)
    }
}

/// A name that decodes lies within the message.
pub proof fn name_within(msg: Seq<u8>, pos: int, name: Seq<char>, jumps: int)
    requires
        name_from(msg, pos, name, jumps) is Ok,
    ensures
        0 <= pos < msg.len(),
        1 <= name_size(msg, pos) <= msg.len() - pos,
    decreases MAX_POINTER_JUMPS + 1 - jumps, msg.len() - pos,
{
    if msg[pos] == 0 || msg[pos] & 0xC0 == 0xC0 {
    } else {
        name_within(
            msg,
            pos + 1 + msg[pos],
            with_label(name, msg.subrange(pos + 1, pos + 1 + msg[pos])),
            jumps,
        );
    }
}

/// A decoded name is never longer than the limit.
pub proof fn name_is_bounded(msg: Seq<u8>, pos: int, name: Seq<char>, jumps: int)
    requires
        name.len() <= MAX_NAME_LEN,
        name_from(msg, pos, name, jumps) is Ok,
    ensures
        name_from(msg, pos, name, jumps)->Ok_0.len() <= MAX_NAME_LEN,
    decreases MAX_POINTER_JUMPS + 1 - jumps, msg.len() - pos,
{
    if msg[pos] == 0 {
    } else if msg[pos] & 0xC0 == 0xC0 {
        name_is_bounded(msg, pointer_target(msg, pos), name, jumps + 1);
    } else {
        name_is_bounded(
            msg,
            pos + 1 + msg[pos],
            with_label(name, msg.subrange(pos + 1, pos + 1 + msg[pos])),
            jumps,
        );
    }
}

fn push_label(name: &mut String, label: &[u8])
    ensures
        final(name)@ == old(name)@ + label_text(label@),
{
    let n: usize = label.len();
    let mut i: usize = 0;
    while i < n
        invariant
            n == label@.len(),
            i <= n,
            name@ == old(name)@ + label_text(label@).take(i as int),
        decreases n - i,
    {
        let c: u8 = label[i];
        if c >= 0x21 && c <= 0x7E && c != 0x2E {
            name.push(c as char);
        } else {
            name.push('?');
        }
        i = i + 1;
        assert(name@ =~= old(name)@ + label_text(label@).take(i as int));
    }
    assert(label_text(label@).take(n as int) =~= label_text(label@));
    assert(name@ =~= old(name)@ + label_text(label@));
}

/// Decodes the possibly compressed name at `start` in `msg`: the dotted name,
/// and the bytes it takes at `start`. Loops and long chains of pointers, names
/// past the limit and names that leave the message are declined.
pub fn decode_name(msg: &[u8], start: usize) -> (r: Result<(String, usize), ParseError>)
    ensures
        match name_at(msg@, start as int) {
            Ok(name) => r is Ok && r->Ok_0.0@ == name && r->Ok_0.1 == name_size(
                msg@,
                start as int,
            ),
            Err(e) => r is Err && r->Err_0 == e,
        },
{
    let mut pos: usize = start;
    let mut consumed: Option<usize> = None;
    let mut jumps: usize = 0;
    let mut name = String::new();
    let mut name_len: usize = 0;
    loop
        invariant
            jumps <= MAX_POINTER_JUMPS,
            name_len == name@.len(),
            name_len <= MAX_NAME_LEN,
            name_at(msg@, start as int) == name_from(msg@, pos as int, name@, jumps as int),
            consumed matches Some(c) ==> c == name_size(msg@, start as int),
            consumed is None ==> start <= pos && name_size(msg@, start as int) == pos - start
                + name_size(msg@, pos as int),
        decreases MAX_POINTER_JUMPS + 1 - jumps, msg@.len() - pos,
    {
        if pos >= msg.len() {
            return Err(ParseError::Malformed("name runs past message"));
        }
        let l: u8 = msg[pos];
        if l == 0 {
            let size: usize = match consumed {
                Some(c) => c,
                None => pos + 1 - start,
            };
            return Ok((name, size));
        }
        if l & 0xC0 == 0xC0 {
            if pos + 1 >= msg.len() {
                return Err(ParseError::Malformed("pointer runs past message"));
            }
            if consumed.is_none() {
                consumed = Some(pos + 2 - start);
            }
            assert(l & 0x3F < 0x40) by (bit_vector);
            let target: usize = (l & 0x3F) as usize * 0x100 + msg[pos + 1] as usize;
            if target >= pos {
                return Err(ParseError::Malformed("forward compression pointer"));
            }
            jumps = jumps + 1;
            if jumps > MAX_POINTER_JUMPS {
                return Err(ParseError::Malformed("compression pointer chain too long"));
            }
            pos = target;
        } else if l & 0xC0 == 0 {
            let len: usize = l as usize;
            if msg.len() - pos - 1 < len {
                return Err(ParseError::Malformed("label runs past message"));
            }
            let label = vstd::slice::slice_subrange(msg, pos + 1, pos + 1 + len);
            let ghost before = name@;
            if name_len > 0 {
                name.push('.');
                name_len = name_len + 1;
            }
            push_label(&mut name, label);
            assert(name@ =~= with_label(before, label@));
            name_len = name_len + len;
            if name_len > MAX_NAME_LEN {
                return Err(ParseError::Malformed("name too long"));
            }
            pos = pos + 1 + len;
        } else {
            return Err(ParseError::Malformed("reserved label type"));
        }
    }
}

fn render_type(rtype: u16) -> (r: String)
    ensures
        r@ == type_label(rtype),
{
    let mut out = text::owned("type");
    text::push_numeral(&mut out, rtype, 10);
    out
}

fn render_dotted(data: &[u8]) -> (r: String)
    requires
        data@.len() == 4,
    ensures
        r@ == dotted(data@, 4),
{
    let mut out = String::new();
    let mut i: usize = 0;
    while i < 4
        invariant
            data@.len() == 4,
            i <= 4,
            out@ == dotted(data@, i as int),
        decreases 4 - i,
    {
        if i > 0 {
            out.push('.');
        }
        text::push_numeral(&mut out, data[i] as u16, 10);
        i = i + 1;
        assert(out@ =~= dotted(data@, i as int));
    }
    out
}

fn render_grouped(data: &[u8]) -> (r: String)
    requires
        data@.len() == 16,
    ensures
        r@ == grouped(data@, 8),
{
    let mut out = String::new();
    let mut i: usize = 0;
    while i < 8
        invariant
            data@.len() == 16,
            i <= 8,
            out@ == grouped(data@, i as int),
        decreases 8 - i,
    {
        if i > 0 {
            out.push(':');
        }
        let group: u16 = data[2 * i] as u16 * 0x100 + data[2 * i + 1] as u16;
        text::push_numeral(&mut out, group, 16);
        i = i + 1;
        assert(out@ =~= grouped(data@, i as int));
    }
    out
}

fn render_rdata(msg: &[u8], rtype: u16, at: usize, rdata: &[u8]) -> (r: String)
    ensures
        r@ == rendered(msg@, rtype, at as int, rdata@),
{
    if rtype == TYPE_A && rdata.len() == 4 {
        render_dotted(rdata)
    } else if rtype == TYPE_AAAA && rdata.len() == 16 {
        render_grouped(rdata)
    } else if rtype == TYPE_CNAME || rtype == TYPE_PTR {
        match decode_name(msg, at) {
            Ok((name, _)) => name,
            Err(_) => render_type(rtype),
        }
    } else {
        render_type(rtype)
    }
}

struct Asked {
    name: String,
    qtype: u16,
}

spec fn same_question(a: Option<Asked>, q: Option<Question>) -> bool {
    match (a, q) {
        (Some(a), Some(q)) => a.name@ == q.name && a.qtype == q.qtype,
        (None, None) => true,
        _ => false,
    }
}

fn read_questions(r: &mut ByteReader, count: u16) -> (res: Result<Option<Asked>, ParseError>)
    requires
        old(r).wf(),
    ensures
        final(r).wf(),
        final(r).data == old(r).data,
        match questions(old(r).data@, old(r).pos as int, count as int, None) {
            Ok((end, q)) => res is Ok && final(r).pos == end && same_question(res->Ok_0, q),
            Err(e) => res is Err && res->Err_0 == e,
        },
{
    let mut first: Option<Asked> = None;
    let ghost mut q: Option<Question> = None;
    let mut i: u16 = 0;
    while i < count
        invariant
            r.wf(),
            r.data == old(r).data,
            i <= count,
            same_question(first, q),
            questions(r.data@, old(r).pos as int, count as int, None) == questions(
                r.data@,
                r.pos as int,
                count - i,
                q,
            ),
        decreases count - i,
    {
        let (name, size) = decode_name(r.data, r.pos)?;
        proof {
            name_within(r.data@, r.pos as int, Seq::empty(), 0);
        }
        r.pos = r.pos + size;
        let qtype: u16 = r.u16_be()?;
        let _class: u16 = r.u16_be()?;
        if first.is_none() {
            proof {
                q = Some(Question { name: name@, qtype });
            }
            first = Some(Asked { name, qtype });
        }
        i = i + 1;
    }
    Ok(first)
}

fn read_records(r: &mut ByteReader, count: u16) -> (res: Result<Vec<Value>, ParseError>)
    requires
        old(r).wf(),
    ensures
        final(r).wf(),
        final(r).data == old(r).data,
        match records(old(r).data@, old(r).pos as int, count as int, Seq::empty()) {
            Ok((end, texts)) => res is Ok && final(r).pos == end && value::values_view(res->Ok_0@)
                == texts,
            Err(e) => res is Err && res->Err_0 == e,
        },
{
    let mut out: Vec<Value> = Vec::new();
    let mut i: u16 = 0;
    assert(value::values_view(out@) =~= Seq::empty());
    while i < count
        invariant
            r.wf(),
            r.data == old(r).data,
            i <= count,
            records(r.data@, old(r).pos as int, count as int, Seq::empty()) == records(
                r.data@,
                r.pos as int,
                count - i,
                value::values_view(out@),
            ),
        decreases count - i,
    {
        let (_name, size) = decode_name(r.data, r.pos)?;
        proof {
            name_within(r.data@, r.pos as int, Seq::empty(), 0);
        }
        r.pos = r.pos + size;
        let rtype: u16 = r.u16_be()?;
        let _class: u16 = r.u16_be()?;
        let _ttl: u32 = r.u32_be()?;
        let rdlength: u16 = r.u16_be()?;
        let at: usize = r.pos;
        let rdata = r.take(rdlength as usize)?;
        let text = Value::Str(render_rdata(r.data, rtype, at, rdata));
        let ghost before = value::values_view(out@);
        out.push(text);
        assert(value::values_view(out@) =~= before.push(text@));
        i = i + 1;
    }
    Ok(out)
}

fn parse_message(msg: &[u8], prefix: usize, ctx: &ParseCtx) -> (res: Result<ParsedLayer, ParseError>)
    requires
        prefix + msg@.len() <= usize::MAX,
    ensures
        layer::outcome(res) == body(msg@, prefix as int, ctx@),
{
    let mut r = ByteReader::new(msg);
    let id: u16 = r.u16_be()?;
    let flags: u16 = r.u16_be()?;
    let qdcount: u16 = r.u16_be()?;
    let ancount: u16 = r.u16_be()?;
    let nscount: u16 = r.u16_be()?;
    let arcount: u16 = r.u16_be()?;
    if qdcount > MAX_RECORDS_PER_SECTION || ancount > MAX_RECORDS_PER_SECTION || nscount
        > MAX_RECORDS_PER_SECTION || arcount > MAX_RECORDS_PER_SECTION {
        return Err(ParseError::Malformed("implausible section count"));
    }
    let question = read_questions(&mut r, qdcount)?;
    let answers = read_records(&mut r, ancount)?;
    let _authorities = read_records(&mut r, nscount)?;
    let _additional = read_records(&mut r, arcount)?;

    let mut fields = FieldMap::new();
    if ctx.keys() {
        fields.insert(APP, Value::from("dns"));
    }
    if ctx.structural() {
        fields.insert(ID, Value::U64(id as u64));
        fields.insert(IS_RESPONSE, Value::Bool(flags & 0x8000 != 0));
        fields.insert(OPCODE, Value::U64(((flags >> 11) & 0xF) as u64));
        fields.insert(RCODE, Value::U64((flags & 0xF) as u64));
        if let Some(q) = question {
            fields.insert(QNAME, Value::Str(q.name));
            fields.insert(QTYPE, Value::U64(q.qtype as u64));
        }
    }
    if ctx.full() {
        proof {
            value::lemma_list_view(answers);
        }
        fields.insert(ANSWERS, Value::List(answers));
        fields.insert(QDCOUNT, Value::U64(qdcount as u64));
        fields.insert(ANCOUNT, Value::U64(ancount as u64));
        fields.insert(NSCOUNT, Value::U64(nscount as u64));
        fields.insert(ARCOUNT, Value::U64(arcount as u64));
    }
    Ok(ParsedLayer { header_len: prefix + r.pos, fields, hint: Hint::Terminal })
}

pub struct Dns;

impl LayerPlugin for Dns {
    open spec fn spec_parse(&self, bytes: Seq<u8>, ctx: Context) -> Result<Parsed, ParseError> {
        message(bytes, ctx)
    }

    open spec fn spec_name(&self) -> Seq<char> {
        "dns"@
    }

    open spec fn spec_claims(&self) -> Seq<RouteId> {
        seq![RouteId::UdpPort(53), RouteId::TcpPort(53)]
    }

    open spec fn spec_identity(&self) -> Option<Identity> {
        identity::conversation_of(
            seq![KeyField { a: APP, b: None }],
            seq![
                RollupSpec { field: QNAME, kind: RollupKind::Accumulate },
                RollupSpec { field: RCODE, kind: RollupKind::Accumulate },
            ],
        )
    }

    open spec fn spec_condense(&self) -> Option<CondenseSpec> {
        None
    }

    open spec fn spec_has_probe(&self) -> bool {
        false
    }

    open spec fn spec_probe(&self, bytes: Seq<u8>, ctx: Context) -> Option<u8> {
        None
    }

    open spec fn spec_predecessors(&self) -> Seq<ProtocolName> {
        Seq::empty()
    }

    fn name(&self) -> (r: ProtocolName) {
        "dns"
    }

    fn parse(&self, bytes: &[u8], ctx: &ParseCtx) -> (r: Result<ParsedLayer, ParseError>) {
        if ctx.follows("tcp") {
            let mut r = ByteReader::new(bytes);
            let len: u16 = r.u16_be()?;
            let msg = r.take(len as usize)?;
            parse_message(msg, 2, ctx)
        } else {
            let _len: usize = bytes.len();
            parse_message(bytes, 0, ctx)
        }
    }

    fn claims(&self) -> (r: &'static [RouteId]) {
        &[RouteId::UdpPort(53), RouteId::TcpPort(53)]
    }

    fn stream_identity(&self) -> (r: Option<StreamIdentity>) {
        identity::conversation(
            &[KeyField { a: APP, b: None }],
            &[
                RollupSpec { field: QNAME, kind: RollupKind::Accumulate },
                RollupSpec { field: RCODE, kind: RollupKind::Accumulate },
            ],
        )
    }

    fn condense(&self) -> (r: Option<CondenseSpec>) {
        None
    }

    fn has_probe(&self) -> (r: bool) {
        false
    }

    fn probe(&self, bytes: &[u8], ctx: &ParseCtx) -> (r: Option<Confidence>) {
        None
    }

    fn expected_predecessors(&self) -> (r: &'static [ProtocolName]) {
        &[]
    }
}

} // verus!

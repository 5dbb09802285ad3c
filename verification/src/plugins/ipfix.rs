//! IPFIX (RFC 7011): one message, bounded by the length that its header declares. A
//! template set defines a record layout in full and is decoded; what any other set
//! holds depends on templates that may have come in earlier packets, so its body is
//! kept as it is.
use vstd::prelude::*;

use crate::bytes::{self, ByteReader, ParseError};
use crate::identity::{
    self, CondenseSpec, Identity, KeyField, RollupKind, RollupSpec, StreamIdentity,
};
use crate::layer::{Confidence, Context, Hint, LayerPlugin, ParseCtx, Parsed, ParsedLayer, RouteId};
use crate::value;
use crate::value::{FieldMap, FieldName, Fields, ProtocolName, Value, ValueView};

verus! {

pub const APP: FieldName = "app";

pub const VERSION: FieldName = "version";

pub const LENGTH: FieldName = "length";

pub const SEQUENCE: FieldName = "sequence";

pub const DOMAIN_ID: FieldName = "domain_id";

pub const SETS: FieldName = "sets";

pub const HEADER_LEN: usize = 16;

pub const TEMPLATE_SET_ID: u16 = 2;

/// Set in a field's element number when an enterprise number follows.
pub const ENTERPRISE_BIT: u16 = 0x8000;

/// A field of a template: element, length, enterprise number (zero where there
/// is none).
pub open spec fn field_def(b: Seq<u8>, p: int) -> ValueView {
    let raw = bytes::be16(b, p);
    if raw & ENTERPRISE_BIT != 0 {
        ValueView::List(
            seq![
                ValueView::U64((raw & !ENTERPRISE_BIT) as u64),
                ValueView::U64(bytes::be16(b, p + 2) as u64),
                ValueView::U64(bytes::be32(b, p + 4) as u64),
            ],
        )
    } else {
        ValueView::List(
            seq![
                ValueView::U64(raw as u64),
                ValueView::U64(bytes::be16(b, p + 2) as u64),
                ValueView::U64(0),
            ],
        )
    }
}

/// The `n` field definitions from `p` on, after `seen`, and where they end.
pub open spec fn field_defs(b: Seq<u8>, p: int, n: int, seen: Seq<ValueView>) -> Result<
    (Seq<ValueView>, int),
    ParseError,
>
    decreases n,
{
    if n <= 0 {
        Ok((seen, p))
    } else if b.len() < p + 2 {
        Err(bytes::short(b, p, 2))
    } else if b.len() < p + 4 {
        Err(bytes::short(b, p + 2, 2))
    } else if bytes::be16(b, p) & ENTERPRISE_BIT != 0 {
        if b.len() < p + 8 {
            Err(bytes::short(b, p + 4, 4))
        } else {
            field_defs(b, p + 8, n - 1, seen.push(field_def(b, p)))
        }
    } else {
        field_defs(b, p + 4, n - 1, seen.push(field_def(b, p)))
    }
}

/// Field definitions never run past the end.
pub proof fn field_defs_stay_inside(b: Seq<u8>, p: int, n: int, seen: Seq<ValueView>)
    requires
        p <= b.len(),
    ensures
        field_defs(b, p, n, seen) matches Ok((_, end)) ==> p <= end <= b.len(),
    decreases n,
{
    if n > 0 && b.len() >= p + 4 {
        if bytes::be16(b, p) & ENTERPRISE_BIT == 0 {
            field_defs_stay_inside(b, p + 4, n - 1, seen.push(field_def(b, p)));
        } else if b.len() >= p + 8 {
            field_defs_stay_inside(b, p + 8, n - 1, seen.push(field_def(b, p)));
        }
    }
}

/// The template records from `p` on, after `seen`: id, field count, fields.
/// Fewer than four bytes at the end are padding.
pub open spec fn templates(b: Seq<u8>, p: int, seen: Seq<ValueView>) -> Result<
    Seq<ValueView>,
    ParseError,
>
    decreases b.len() - p,
{
    let count = bytes::be16(b, p + 2);
    if p < 0 || b.len() < p + 4 {
        Ok(seen)
    } else {
        match field_defs(b, p + 4, count as int, Seq::empty()) {
            Err(e) => Err(e),
            Ok((defs, end)) => {
                proof {
                    field_defs_stay_inside(b, p + 4, count as int, Seq::empty());
                }
                templates(
                    b,
                    end,
                    seen.push(
                        ValueView::List(
                            seq![
                                ValueView::U64(bytes::be16(b, p) as u64),
                                ValueView::U64(count as u64),
                                ValueView::List(defs),
                            ],
                        ),
                    ),
                )
            },
        }
    }
}

/// What a set holds.
pub open spec fn set_body(id: u16, b: Seq<u8>) -> Result<ValueView, ParseError> {
    if id == TEMPLATE_SET_ID {
        match templates(b, 0, Seq::empty()) {
            Err(e) => Err(e),
            Ok(records) => Ok(ValueView::List(records)),
        }
    } else {
        Ok(ValueView::Bytes(b))
    }
}

/// The sets from `p` on, after `seen`: id, length, body.
pub open spec fn sets(b: Seq<u8>, p: int, seen: Seq<ValueView>) -> Result<
    Seq<ValueView>,
    ParseError,
>
    decreases b.len() - p,
{
    let id = bytes::be16(b, p);
    let len = bytes::be16(b, p + 2);
    if p < 0 || b.len() < p + 4 {
        Ok(seen)
    } else if len < 4 {
        Err(ParseError::Malformed("IPFIX: Set length under 4"))
    } else if b.len() < p + len {
        Err(bytes::short(b, p + 4, len - 4))
    } else {
        match set_body(id, b.subrange(p + 4, p + len)) {
            Err(e) => Err(e),
            Ok(body) => sets(
                b,
                p + len,
                seen.push(
                    ValueView::List(
                        seq![ValueView::U64(id as u64), ValueView::U64(len as u64), body],
                    ),
                ),
            ),
        }
    }
}

pub open spec fn fields(b: Seq<u8>, found: Seq<ValueView>, ctx: Context) -> Fields {
    let f = Map::<Seq<char>, ValueView>::empty();
    let f = if ctx.keys() {
        f.insert(APP@, ValueView::Str("ipfix"@))
    } else {
        f
    };
    let f = if ctx.structural() {
        f
            .insert(VERSION@, ValueView::U64(bytes::be16(b, 0) as u64))
            .insert(LENGTH@, ValueView::U64(bytes::be16(b, 2) as u64))
            .insert(SEQUENCE@, ValueView::U64(bytes::be32(b, 8) as u64))
            .insert(DOMAIN_ID@, ValueView::U64(bytes::be32(b, 12) as u64))
    } else {
        f
    };
    if ctx.full() {
        f.insert(SETS@, ValueView::List(found))
    } else {
        f
    }
}

/// The message at the start of `b`.
pub open spec fn message(b: Seq<u8>, ctx: Context) -> Result<Parsed, ParseError> {
    let length = bytes::be16(b, 2) as int;
    if b.len() < 2 {
        Err(bytes::short(b, 0, 2))
    } else if bytes::be16(b, 0) != 10 {
        Err(ParseError::Malformed("IPFIX: version is not 10"))
    } else if b.len() < 4 {
        Err(bytes::short(b, 2, 2))
    } else if b.len() < 16 {
        Err(bytes::short(b, b.len() - b.len() % 4, 4))
    } else if length < HEADER_LEN {
        Err(ParseError::Malformed("IPFIX: length below fixed header"))
    } else if b.len() < length {
        Err(bytes::short(b, 16, length - 16))
    } else {
        match sets(b.subrange(16, length), 0, Seq::empty()) {
            Err(e) => Err(e),
            Ok(found) => Ok(
                Parsed {
                    header_len: length,
                    fields: fields(b, found, ctx),
                    hint: Hint::Terminal,
                },
            ),
        }
    }
}

fn three(a: Value, b: Value, c: Value) -> (r: Value)
    ensures
        r@ == ValueView::List(seq![a@, b@, c@]),
{
    let mut v: Vec<Value> = Vec::new();
    v.push(a);
    v.push(b);
    v.push(c);
    proof {
        value::lemma_list_view(v);
        assert(value::values_view(v@) =~= seq![a@, b@, c@]);
    }
    Value::List(v)
}

fn read_field_defs(r: &mut ByteReader, count: u16) -> (res: Result<Vec<Value>, ParseError>)
    requires
        old(r).wf(),
    ensures
        final(r).wf(),
        final(r).data == old(r).data,
        match field_defs(old(r).data@, old(r).pos as int, count as int, Seq::empty()) {
            Ok((defs, end)) => res is Ok && value::values_view(res->Ok_0@) == defs && final(r).pos
                == end && end >= old(r).pos,
            Err(e) => res is Err && res->Err_0 == e,
        },
{
    let mut out: Vec<Value> = Vec::new();
    let mut i: u16 = 0;
    assert(value::values_view(out@) =~= Seq::empty());
    while i < count
        invariant
            r.wf(),
            r.data == old(r).data,
            old(r).pos <= r.pos,
            i <= count,
            field_defs(r.data@, old(r).pos as int, count as int, Seq::empty()) == field_defs(
                r.data@,
                r.pos as int,
                count - i,
                value::values_view(out@),
            ),
        decreases count - i,
    {
        let ghost at = r.pos as int;
        let ghost before = value::values_view(out@);
        let raw: u16 = r.u16_be()?;
        let length: u16 = r.u16_be()?;
        let mut element: u16 = raw;
        let mut enterprise: u32 = 0;
        if raw & ENTERPRISE_BIT != 0 {
            element = raw & !ENTERPRISE_BIT;
            enterprise = r.u32_be()?;
        }
        let def = three(
            Value::U64(element as u64),
            Value::U64(length as u64),
            Value::U64(enterprise as u64),
        );
        assert(def@ == field_def(r.data@, at));
        out.push(def);
        assert(value::values_view(out@) =~= before.push(def@));
        i = i + 1;
    }
    Ok(out)
}

fn decode_template_records(body: &[u8]) -> (res: Result<Vec<Value>, ParseError>)
    ensures
        match templates(body@, 0, Seq::empty()) {
            Ok(records) => res is Ok && value::values_view(res->Ok_0@) == records,
            Err(e) => res is Err && res->Err_0 == e,
        },
{
    let mut r = ByteReader::new(body);
    let mut out: Vec<Value> = Vec::new();
    assert(value::values_view(out@) =~= Seq::empty());
    while r.remaining() >= 4
        invariant
            r.wf(),
            r.data@ == body@,
            templates(body@, 0, Seq::empty()) == templates(
                body@,
                r.pos as int,
                value::values_view(out@),
            ),
        decreases body@.len() - r.pos,
    {
        let ghost before = value::values_view(out@);
        let template_id: u16 = r.u16_be()?;
        let count: u16 = r.u16_be()?;
        let defs = read_field_defs(&mut r, count)?;
        proof {
            value::lemma_list_view(defs);
        }
        let record = three(
            Value::U64(template_id as u64),
            Value::U64(count as u64),
            Value::List(defs),
        );
        out.push(record);
        assert(value::values_view(out@) =~= before.push(record@));
    }
    Ok(out)
}

fn read_set_body(id: u16, body: &[u8]) -> (res: Result<Value, ParseError>)
    ensures
        match set_body(id, body@) {
            Ok(v) => res is Ok && res->Ok_0@ == v,
            Err(e) => res is Err && res->Err_0 == e,
        },
{
    if id == TEMPLATE_SET_ID {
        let records = decode_template_records(body)?;
        proof {
            value::lemma_list_view(records);
        }
        Ok(Value::List(records))
    } else {
        Ok(Value::from(body))
    }
}

fn read_sets(body: &[u8]) -> (res: Result<Vec<Value>, ParseError>)
    ensures
        match sets(body@, 0, Seq::empty()) {
            Ok(found) => res is Ok && value::values_view(res->Ok_0@) == found,
            Err(e) => res is Err && res->Err_0 == e,
        },
{
    let mut r = ByteReader::new(body);
    let mut out: Vec<Value> = Vec::new();
    assert(value::values_view(out@) =~= Seq::empty());
    while r.remaining() >= 4
        invariant
            r.wf(),
            r.data@ == body@,
            sets(body@, 0, Seq::empty()) == sets(body@, r.pos as int, value::values_view(out@)),
        decreases body@.len() - r.pos,
    {
        let ghost before = value::values_view(out@);
        let id: u16 = r.u16_be()?;
        let len: u16 = r.u16_be()?;
        if len < 4 {
            return Err(ParseError::Malformed("IPFIX: Set length under 4"));
        }
        let content = r.take(len as usize - 4)?;
        let payload = read_set_body(id, content)?;
        let set = three(Value::U64(id as u64), Value::U64(len as u64), payload);
        out.push(set);
        assert(value::values_view(out@) =~= before.push(set@));
    }
    Ok(out)
}

pub struct Ipfix;

impl LayerPlugin for Ipfix {
    open spec fn spec_parse(&self, bytes: Seq<u8>, ctx: Context) -> Result<Parsed, ParseError> {
        message(bytes, ctx)
    }

    open spec fn spec_name(&self) -> Seq<char> {
        "ipfix"@
    }

    open spec fn spec_claims(&self) -> Seq<RouteId> {
        seq![RouteId::UdpPort(4739)]
    }

    open spec fn spec_identity(&self) -> Option<Identity> {
        identity::conversation_of(
            seq![KeyField { a: APP, b: None }],
            seq![RollupSpec { field: DOMAIN_ID, kind: RollupKind::Accumulate }],
        )
    }

    open spec fn spec_condense(&self) -> Option<CondenseSpec> {
        None
    }

    open spec fn spec_has_probe(&self) -> bool {
        false
    }

    open spec fn spec_probe(&self, bytes: Seq<u8>, ctx: Context) -> Option<u8> {
        None
    }

    open spec fn spec_predecessors(&self) -> Seq<ProtocolName> {
        Seq::empty()
    }

    fn name(&self) -> (r: ProtocolName) {
        "ipfix"
    }

    fn parse(&self, bytes: &[u8], ctx: &ParseCtx) -> (r: Result<ParsedLayer, ParseError>) {
        let mut r = ByteReader::new(bytes);
        let version: u16 = r.u16_be()?;
        if version != 10 {
            return Err(ParseError::Malformed("IPFIX: version is not 10"));
        }
        let length: u16 = r.u16_be()?;
        let _export_time: u32 = r.u32_be()?;
        let sequence: u32 = r.u32_be()?;
        let domain_id: u32 = r.u32_be()?;
        if (length as usize) < HEADER_LEN {
            return Err(ParseError::Malformed("IPFIX: length below fixed header"));
        }
        let body = r.take(length as usize - HEADER_LEN)?;
        let sets = read_sets(body)?;

        let mut fields = FieldMap::new();
        if ctx.keys() {
            fields.insert(APP, Value::from("ipfix"));
        }
        if ctx.structural() {
            fields.insert(VERSION, Value::U64(version as u64));
            fields.insert(LENGTH, Value::U64(length as u64));
            fields.insert(SEQUENCE, Value::U64(sequence as u64));
            fields.insert(DOMAIN_ID, Value::U64(domain_id as u64));
        }
        if ctx.full() {
            proof {
                value::lemma_list_view(sets);
            }
            fields.insert(SETS, Value::List(sets));
        }
        Ok(ParsedLayer { header_len: length as usize, fields, hint: Hint::Terminal })
    }

    fn claims(&self) -> (r: &'static [RouteId]) {
        &[RouteId::UdpPort(4739)]
    }

    fn stream_identity(&self) -> (r: Option<StreamIdentity>) {
        identity::conversation(
            &[KeyField { a: APP, b: None }],
            &[RollupSpec { field: DOMAIN_ID, kind: RollupKind::Accumulate }],
        )
    }

    fn condense(&self) -> (r: Option<CondenseSpec>) {
        None
    }

    fn has_probe(&self) -> (r: bool) {
        false
    }

    fn probe(&self, bytes: &[u8], ctx: &ParseCtx) -> (r: Option<Confidence>) {
        None
    }

    fn expected_predecessors(&self) -> (r: &'static [ProtocolName]) {
        &[]
    }
}

} // verus!

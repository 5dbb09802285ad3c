//! HTTP/2 (RFC 9113): the frame at the start of a segment, header and payload. It is
//! reached by name, through HTTP's cleartext upgrade. One stream per HTTP/2 stream
//! id. Header blocks are compressed with state that spans packets and are not read.
use vstd::prelude::*;

use crate::bytes::{self, ByteReader, ParseError};
use crate::identity::{
    self, CondenseSpec, Identity, KeyField, RollupKind, RollupSpec, StreamIdentity,
};
use crate::layer::{Confidence, Context, Hint, LayerPlugin, ParseCtx, Parsed, ParsedLayer, RouteId};
use crate::value;
use crate::value::{FieldMap, FieldName, Fields, ProtocolName, Value, ValueView};

verus! {

pub const STREAM_ID: FieldName = "stream_id";

pub const FRAME_TYPE: FieldName = "frame_type";

pub const FLAGS: FieldName = "flags";

pub const LENGTH: FieldName = "length";

pub const SETTINGS_ENTRIES: FieldName = "settings_entries";

pub const TYPE_DATA: u8 = 0x0;

pub const TYPE_HEADERS: u8 = 0x1;

pub const TYPE_PRIORITY: u8 = 0x2;

pub const TYPE_RST_STREAM: u8 = 0x3;

pub const TYPE_SETTINGS: u8 = 0x4;

pub const TYPE_PUSH_PROMISE: u8 = 0x5;

pub const TYPE_PING: u8 = 0x6;

pub const TYPE_GOAWAY: u8 = 0x7;

pub const TYPE_WINDOW_UPDATE: u8 = 0x8;

pub const TYPE_CONTINUATION: u8 = 0x9;

/// An identifier and a value.
pub const SETTINGS_ENTRY_LEN: usize = 6;

/// The name of a frame type.
pub open spec fn frame_name(kind: u8) -> Option<Seq<char>> {
    if kind == TYPE_DATA {
        Some("DATA"@)
    } else if kind == TYPE_HEADERS {
        Some("HEADERS"@)
    } else if kind == TYPE_PRIORITY {
        Some("PRIORITY"@)
    } else if kind == TYPE_RST_STREAM {
        Some("RST_STREAM"@)
    } else if kind == TYPE_SETTINGS {
        Some("SETTINGS"@)
    } else if kind == TYPE_PUSH_PROMISE {
        Some("PUSH_PROMISE"@)
    } else if kind == TYPE_PING {
        Some("PING"@)
    } else if kind == TYPE_GOAWAY {
        Some("GOAWAY"@)
    } else if kind == TYPE_WINDOW_UPDATE {
        Some("WINDOW_UPDATE"@)
    } else if kind == TYPE_CONTINUATION {
        Some("CONTINUATION"@)
    } else {
        None
    }
}

pub open spec fn length(b: Seq<u8>) -> int {
    bytes::be24(b, 0) as int
}

pub open spec fn payload(b: Seq<u8>) -> Seq<u8> {
    b.subrange(9, 9 + length(b))
}

/// The whole entries of a settings payload.
pub open spec fn entries(payload: Seq<u8>) -> Seq<ValueView> {
    Seq::new(
        payload.len() / 6,
        |i: int| ValueView::Bytes(payload.subrange(i * 6, i * 6 + 6)),
    )
}

pub open spec fn fields(b: Seq<u8>, ctx: Context) -> Fields {
    let f = Map::<Seq<char>, ValueView>::empty();
    let f = if ctx.keys() {
        f.insert(STREAM_ID@, ValueView::U64((bytes::be32(b, 5) & 0x7FFF_FFFF) as u64))
    } else {
        f
    };
    let f = if ctx.structural() {
        f
            .insert(FRAME_TYPE@, ValueView::Str(frame_name(b[3])->0))
            .insert(FLAGS@, ValueView::U64(b[4] as u64))
            .insert(LENGTH@, ValueView::U64(bytes::be24(b, 0) as u64))
    } else {
        f
    };
    if ctx.full() && b[3] == TYPE_SETTINGS {
        f.insert(SETTINGS_ENTRIES@, ValueView::List(entries(payload(b))))
    } else {
        f
    }
}

/// The frame at the start of `b`.
pub open spec fn message(b: Seq<u8>, ctx: Context) -> Result<Parsed, ParseError> {
    if b.len() < 3 {
        Err(bytes::short(b, 0, 3))
    } else if b.len() < 4 {
        Err(bytes::short(b, 3, 1))
    } else if frame_name(b[3]) is None {
        Err(ParseError::Malformed("unrecognized HTTP/2 frame type"))
    } else if b.len() < 5 {
        Err(bytes::short(b, 4, 1))
    } else if b.len() < 9 {
        Err(bytes::short(b, 5, 4))
    } else if b.len() < 9 + length(b) {
        Err(bytes::short(b, 9, length(b)))
    } else {
        Ok(Parsed { header_len: 9 + length(b), fields: fields(b, ctx), hint: Hint::Terminal })
    }
}

fn frame_name_of(kind: u8) -> (r: Option<&'static str>)
    ensures
        match frame_name(kind) {
            Some(n) => r is Some && r->0@ == n,
            None => r is None,
        },
{
    match kind {
        TYPE_DATA => Some("DATA"),
        TYPE_HEADERS => Some("HEADERS"),
        TYPE_PRIORITY => Some("PRIORITY"),
        TYPE_RST_STREAM => Some("RST_STREAM"),
        TYPE_SETTINGS => Some("SETTINGS"),
        TYPE_PUSH_PROMISE => Some("PUSH_PROMISE"),
        TYPE_PING => Some("PING"),
        TYPE_GOAWAY => Some("GOAWAY"),
        TYPE_WINDOW_UPDATE => Some("WINDOW_UPDATE"),
        TYPE_CONTINUATION => Some("CONTINUATION"),
        _ => None,
    }
}

fn read_entries(payload: &[u8]) -> (r: Vec<Value>)
    ensures
        value::values_view(r@) == entries(payload@),
{
    let n: usize = payload.len();
    let mut out: Vec<Value> = Vec::new();
    let mut p: usize = 0;
    while n - p >= SETTINGS_ENTRY_LEN
        invariant
            n == payload@.len(),
            p <= n,
            p == out@.len() * 6,
            forall|i: int|
                0 <= i < out@.len() ==> (#[trigger] out@[i])@ == ValueView::Bytes(
                    payload@.subrange(i * 6, i * 6 + 6),
                ),
        decreases n - p,
    {
        out.push(Value::from(vstd::slice::slice_subrange(payload, p, p + SETTINGS_ENTRY_LEN)));
        p = p + SETTINGS_ENTRY_LEN;
    }
    assert(value::values_view(out@) =~= entries(payload@));
    out
}

pub struct Http2;

impl LayerPlugin for Http2 {
    open spec fn spec_parse(&self, bytes: Seq<u8>, ctx: Context) -> Result<Parsed, ParseError> {
        message(bytes, ctx)
    }

    open spec fn spec_name(&self) -> Seq<char> {
        "http2"@
    }

    open spec fn spec_claims(&self) -> Seq<RouteId> {
        Seq::empty()
    }

    open spec fn spec_identity(&self) -> Option<Identity> {
        identity::conversation_of(
            seq![KeyField { a: STREAM_ID, b: None }],
            seq![RollupSpec { field: FRAME_TYPE, kind: RollupKind::Accumulate }],
        )
    }

    open spec fn spec_condense(&self) -> Option<CondenseSpec> {
        None
    }

    open spec fn spec_has_probe(&self) -> bool {
        false
    }

    open spec fn spec_probe(&self, bytes: Seq<u8>, ctx: Context) -> Option<u8> {
        None
    }

    open spec fn spec_predecessors(&self) -> Seq<ProtocolName> {
        Seq::empty()
    }

    fn name(&self) -> (r: ProtocolName) {
        "http2"
    }

    fn parse(&self, bytes: &[u8], ctx: &ParseCtx) -> (r: Result<ParsedLayer, ParseError>) {
        let mut r = ByteReader::new(bytes);
        let length: u32 = r.u24_be()?;
        let kind: u8 = r.u8()?;
        let frame_type = match frame_name_of(kind) {
            Some(n) => n,
            None => {
                return Err(ParseError::Malformed("unrecognized HTTP/2 frame type"));
            },
        };
        let flags: u8 = r.u8()?;
        let stream_id: u32 = r.u32_be()? & 0x7FFF_FFFF;
        let payload = r.take(length as usize)?;

        let mut fields = FieldMap::new();
        if ctx.keys() {
            fields.insert(STREAM_ID, Value::U64(stream_id as u64));
        }
        if ctx.structural() {
            fields.insert(FRAME_TYPE, Value::from(frame_type));
            fields.insert(FLAGS, Value::U64(flags as u64));
            fields.insert(LENGTH, Value::U64(length as u64));
        }
        if ctx.full() && kind == TYPE_SETTINGS {
            let entries = read_entries(payload);
            proof {
                value::lemma_list_view(entries);
            }
            fields.insert(SETTINGS_ENTRIES, Value::List(entries));
        }
        Ok(ParsedLayer { header_len: r.pos, fields, hint: Hint::Terminal })
    }

    fn claims(&self) -> (r: &'static [RouteId]) {
        &[]
    }

    fn stream_identity(&self) -> (r: Option<StreamIdentity>) {
        identity::conversation(
            &[KeyField { a: STREAM_ID, b: None }],
            &[RollupSpec { field: FRAME_TYPE, kind: RollupKind::Accumulate }],
        )
    }

    fn condense(&self) -> (r: Option<CondenseSpec>) {
        None
    }

    fn has_probe(&self) -> (r: bool) {
        false
    }

    fn probe(&self, bytes: &[u8], ctx: &ParseCtx) -> (r: Option<Confidence>) {
        None
    }

    fn expected_predecessors(&self) -> (r: &'static [ProtocolName]) {
        &[]
    }
}

} // verus!

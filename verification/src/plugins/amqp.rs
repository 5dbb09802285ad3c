//! AMQP 0-9-1: the first frame of a segment, from its type octet to the 0xCE octet
//! that ends it. A method frame also says which class and method it is; the
//! method's arguments are not read.
use vstd::prelude::*;

use crate::bytes::{self, ByteReader, ParseError};
use crate::identity::{
    self, CondenseSpec, Identity, KeyField, RollupKind, RollupSpec, StreamIdentity,
};
use crate::layer::{Confidence, Context, Hint, LayerPlugin, ParseCtx, Parsed, ParsedLayer, RouteId};
use crate::value::{FieldMap, FieldName, Fields, ProtocolName, Value, ValueView};

verus! {

pub const APP: FieldName = "app";

pub const FRAME_TYPE: FieldName = "frame_type";

pub const CHANNEL: FieldName = "channel";

pub const SIZE: FieldName = "size";

pub const CLASS_ID: FieldName = "class_id";

pub const METHOD_ID: FieldName = "method_id";

pub const TYPE_METHOD: u8 = 1;

pub const TYPE_HEADER: u8 = 2;

pub const TYPE_BODY: u8 = 3;

pub const TYPE_HEARTBEAT: u8 = 8;

/// Every frame ends with this octet.
pub const FRAME_END: u8 = 0xCE;

/// The name of a frame type.
pub open spec fn frame_name(kind: u8) -> Option<Seq<char>> {
    if kind == TYPE_METHOD {
        Some("method"@)
    } else if kind == TYPE_HEADER {
        Some("header"@)
    } else if kind == TYPE_BODY {
        Some("body"@)
    } else if kind == TYPE_HEARTBEAT {
        Some("heartbeat"@)
    } else {
        None
    }
}

pub open spec fn size(b: Seq<u8>) -> int {
    bytes::be32(b, 3) as int
}

pub open spec fn fields(b: Seq<u8>, ctx: Context) -> Fields {
    let f = Map::<Seq<char>, ValueView>::empty();
    let f = if ctx.keys() {
        f.insert(APP@, ValueView::Str("amqp"@))
    } else {
        f
    };
    let f = if ctx.structural() {
        f
            .insert(FRAME_TYPE@, ValueView::Str(frame_name(b[0])->0))
            .insert(CHANNEL@, ValueView::U64(bytes::be16(b, 1) as u64))
            .insert(SIZE@, ValueView::U64(bytes::be32(b, 3) as u64))
    } else {
        f
    };
    if ctx.full() && b[0] == TYPE_METHOD && size(b) >= 4 {
        f
            .insert(CLASS_ID@, ValueView::U64(bytes::be16(b, 7) as u64))
            .insert(METHOD_ID@, ValueView::U64(bytes::be16(b, 9) as u64))
    } else {
        f
    }
}

/// The frame at the start of `b`.
pub open spec fn message(b: Seq<u8>, ctx: Context) -> Result<Parsed, ParseError> {
    if b.len() < 1 {
        Err(bytes::short(b, 0, 1))
    } else if frame_name(b[0]) is None {
        Err(ParseError::Malformed("unrecognized AMQP frame type"))
    } else if b.len() < 3 {
        Err(bytes::short(b, 1, 2))
    } else if b.len() < 7 {
        Err(bytes::short(b, 3, 4))
    } else if b.len() < 7 + size(b) {
        Err(bytes::short(b, 7, size(b)))
    } else if b.len() < 8 + size(b) {
        Err(bytes::short(b, 7 + size(b), 1))
    } else if b[7 + size(b)] != FRAME_END {
        Err(ParseError::Malformed("AMQP frame missing 0xCE frame-end octet"))
    } else {
        Ok(Parsed { header_len: 8 + size(b), fields: fields(b, ctx), hint: Hint::Terminal })
    }
}

fn frame_name_of(kind: u8) -> (r: Option<&'static str>)
    ensures
        match frame_name(kind) {
            Some(n) => r is Some && r->0@ == n,
            None => r is None,
        },
{
    match kind {
        TYPE_METHOD => Some("method"),
        TYPE_HEADER => Some("header"),
        TYPE_BODY => Some("body"),
        TYPE_HEARTBEAT => Some("heartbeat"),
        _ => None,
    }
}

pub struct Amqp;

impl LayerPlugin for Amqp {
    open spec fn spec_parse(&self, bytes: Seq<u8>, ctx: Context) -> Result<Parsed, ParseError> {
        message(bytes, ctx)
    }

    open spec fn spec_name(&self) -> Seq<char> {
        "amqp"@
    }

    open spec fn spec_claims(&self) -> Seq<RouteId> {
        seq![RouteId::TcpPort(5672)]
    }

    open spec fn spec_identity(&self) -> Option<Identity> {
        identity::conversation_of(
            seq![KeyField { a: APP, b: None }],
            seq![
                RollupSpec { field: FRAME_TYPE, kind: RollupKind::Accumulate },
                RollupSpec { field: CLASS_ID, kind: RollupKind::Accumulate },
            ],
        )
    }

    open spec fn spec_condense(&self) -> Option<CondenseSpec> {
        None
    }

    open spec fn spec_has_probe(&self) -> bool {
        false
    }

    open spec fn spec_probe(&self, bytes: Seq<u8>, ctx: Context) -> Option<u8> {
        None
    }

    open spec fn spec_predecessors(&self) -> Seq<ProtocolName> {
        Seq::empty()
    }

    fn name(&self) -> (r: ProtocolName) {
        "amqp"
    }

    fn parse(&self, bytes: &[u8], ctx: &ParseCtx) -> (r: Result<ParsedLayer, ParseError>) {
        let mut r = ByteReader::new(bytes);
        let kind: u8 = r.u8()?;
        let frame_type = match frame_name_of(kind) {
            Some(n) => n,
            None => {
                return Err(ParseError::Malformed("unrecognized AMQP frame type"));
            },
        };
        let channel: u16 = r.u16_be()?;
        let size: u32 = r.u32_be()?;
        let payload = r.take(size as usize)?;
        let frame_end: u8 = r.u8()?;
        if frame_end != FRAME_END {
            return Err(ParseError::Malformed("AMQP frame missing 0xCE frame-end octet"));
        }

        let mut fields = FieldMap::new();
        if ctx.keys() {
            fields.insert(APP, Value::from("amqp"));
        }
        if ctx.structural() {
            fields.insert(FRAME_TYPE, Value::from(frame_type));
            fields.insert(CHANNEL, Value::U64(channel as u64));
            fields.insert(SIZE, Value::U64(size as u64));
        }
        if ctx.full() && kind == TYPE_METHOD && payload.len() >= 4 {
            let class_id: u16 = payload[0] as u16 * 0x100 + payload[1] as u16;
            let method_id: u16 = payload[2] as u16 * 0x100 + payload[3] as u16;
            fields.insert(CLASS_ID, Value::U64(class_id as u64));
            fields.insert(METHOD_ID, Value::U64(method_id as u64));
        }
        Ok(ParsedLayer { header_len: r.pos, fields, hint: Hint::Terminal })
    }

    fn claims(&self) -> (r: &'static [RouteId]) {
        &[RouteId::TcpPort(5672)]
    }

    fn stream_identity(&self) -> (r: Option<StreamIdentity>) {
        identity::conversation(
            &[KeyField { a: APP, b: None }],
            &[
                RollupSpec { field: FRAME_TYPE, kind: RollupKind::Accumulate },
                RollupSpec { field: CLASS_ID, kind: RollupKind::Accumulate },
            ],
        )
    }

    fn condense(&self) -> (r: Option<CondenseSpec>) {
        None
    }

    fn has_probe(&self) -> (r: bool) {
        false
    }

    fn probe(&self, bytes: &[u8], ctx: &ParseCtx) -> (r: Option<Confidence>) {
        None
    }

    fn expected_predecessors(&self) -> (r: &'static [ProtocolName]) {
        &[]
    }
}

} // verus!

//! IGMP (RFC 2236): group management inside an IP conversation. It forms no stream
//! and ends the packet.
use vstd::prelude::*;

use crate::bytes::{self, ByteReader, ParseError};
use crate::identity::{CondenseSpec, Identity, StreamIdentity};
use crate::layer::{Confidence, Context, Hint, LayerPlugin, ParseCtx, Parsed, ParsedLayer, RouteId};
use crate::value::{FieldMap, FieldName, Fields, ProtocolName, Value, ValueView};

verus! {

pub const TYPE: FieldName = "type";

pub const MAX_RESP: FieldName = "max_resp";

pub const GROUP_ADDR: FieldName = "group_addr";

pub open spec fn fields(b: Seq<u8>, ctx: Context) -> Fields {
    let f = Map::<Seq<char>, ValueView>::empty();
    if ctx.structural() {
        f
            .insert(TYPE@, ValueView::U64(b[0] as u64))
            .insert(MAX_RESP@, ValueView::U64(b[1] as u64))
            .insert(GROUP_ADDR@, ValueView::Bytes(b.subrange(4, 8)))
    } else {
        f
    }
}

/// The message at the start of `b`.
pub open spec fn message(b: Seq<u8>, ctx: Context) -> Result<Parsed, ParseError> {
    if b.len() < 2 {
        Err(bytes::short(b, b.len() as int, 1))
    } else if b.len() < 4 {
        Err(bytes::short(b, 2, 2))
    } else if b.len() < 8 {
        Err(bytes::short(b, 4, 4))
    } else {
        Ok(Parsed { header_len: 8, fields: fields(b, ctx), hint: Hint::Terminal })
    }
}

pub struct Igmp;

impl LayerPlugin for Igmp {
    open spec fn spec_parse(&self, bytes: Seq<u8>, ctx: Context) -> Result<Parsed, ParseError> {
        message(bytes, ctx)
    }

    open spec fn spec_name(&self) -> Seq<char> {
        "igmp"@
    }

    open spec fn spec_claims(&self) -> Seq<RouteId> {
        seq![RouteId::IpProtocol(2)]
    }

    open spec fn spec_identity(&self) -> Option<Identity> {
        None
    }

    open spec fn spec_condense(&self) -> Option<CondenseSpec> {
        None
    }

    open spec fn spec_has_probe(&self) -> bool {
        false
    }

    open spec fn spec_probe(&self, bytes: Seq<u8>, ctx: Context) -> Option<u8> {
        None
    }

    open spec fn spec_predecessors(&self) -> Seq<ProtocolName> {
        Seq::empty()
    }

    fn name(&self) -> (r: ProtocolName) {
        "igmp"
    }

    fn parse(&self, bytes: &[u8], ctx: &ParseCtx) -> (r: Result<ParsedLayer, ParseError>) {
        let mut r = ByteReader::new(bytes);
        let kind: u8 = r.u8()?;
        let max_resp: u8 = r.u8()?;
        let _checksum: u16 = r.u16_be()?;
        let group = r.take(4)?;

        let mut fields = FieldMap::new();
        if ctx.structural() {
            fields.insert(TYPE, Value::U64(kind as u64));
            fields.insert(MAX_RESP, Value::U64(max_resp as u64));
            fields.insert(GROUP_ADDR, Value::from(group));
        }
        Ok(ParsedLayer { header_len: 8, fields, hint: Hint::Terminal })
    }

    fn claims(&self) -> (r: &'static [RouteId]) {
        &[RouteId::IpProtocol(2)]
    }

    fn stream_identity(&self) -> (r: Option<StreamIdentity>) {
        None
    }

    fn condense(&self) -> (r: Option<CondenseSpec>) {
        None
    }

    fn has_probe(&self) -> (r: bool) {
        false
    }

    fn probe(&self, bytes: &[u8], ctx: &ParseCtx) -> (r: Option<Confidence>) {
        None
    }

    fn expected_predecessors(&self) -> (r: &'static [ProtocolName]) {
        &[]
    }
}

} // verus!

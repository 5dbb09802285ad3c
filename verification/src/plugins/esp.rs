//! ESP (RFC 4303): the two cleartext fields of an encrypted payload. Everything
//! behind them is ciphertext or can only be found by decrypting it. A security
//! parameter index belongs to one direction, so a tunnel is two sibling streams.
use vstd::prelude::*;

use crate::bytes::{self, ByteReader, ParseError};
use crate::identity::{
    self, CondenseSpec, Identity, KeyField, RollupKind, RollupSpec, StreamIdentity,
};
use crate::layer::{Confidence, Context, Hint, LayerPlugin, ParseCtx, Parsed, ParsedLayer, RouteId};
use crate::value::{FieldMap, FieldName, Fields, ProtocolName, Value, ValueView};

verus! {

pub const SPI: FieldName = "spi";

pub const SEQUENCE: FieldName = "sequence";

pub open spec fn fields(b: Seq<u8>, ctx: Context) -> Fields {
    let f = Map::<Seq<char>, ValueView>::empty();
    let f = if ctx.keys() {
        f.insert(SPI@, ValueView::U64(bytes::be32(b, 0) as u64))
    } else {
        f
    };
    if ctx.structural() {
        f.insert(SEQUENCE@, ValueView::U64(bytes::be32(b, 4) as u64))
    } else {
        f
    }
}

/// The header at the start of `b`.
pub open spec fn message(b: Seq<u8>, ctx: Context) -> Result<Parsed, ParseError> {
    if b.len() < 4 {
        Err(bytes::short(b, 0, 4))
    } else if b.len() < 8 {
        Err(bytes::short(b, 4, 4))
    } else {
        Ok(Parsed { header_len: 8, fields: fields(b, ctx), hint: Hint::Terminal })
    }
}

pub struct Esp;

impl LayerPlugin for Esp {
    open spec fn spec_parse(&self, bytes: Seq<u8>, ctx: Context) -> Result<Parsed, ParseError> {
        message(bytes, ctx)
    }

    open spec fn spec_name(&self) -> Seq<char> {
        "esp"@
    }

    open spec fn spec_claims(&self) -> Seq<RouteId> {
        seq![RouteId::IpProtocol(50)]
    }

    open spec fn spec_identity(&self) -> Option<Identity> {
        identity::conversation_of(
            seq![KeyField { a: SPI, b: None }],
            seq![RollupSpec { field: SEQUENCE, kind: RollupKind::Sample }],
        )
    }

    open spec fn spec_condense(&self) -> Option<CondenseSpec> {
        None
    }

    open spec fn spec_has_probe(&self) -> bool {
        false
    }

    open spec fn spec_probe(&self, bytes: Seq<u8>, ctx: Context) -> Option<u8> {
        None
    }

    open spec fn spec_predecessors(&self) -> Seq<ProtocolName> {
        Seq::empty()
    }

    fn name(&self) -> (r: ProtocolName) {
        "esp"
    }

    fn parse(&self, bytes: &[u8], ctx: &ParseCtx) -> (r: Result<ParsedLayer, ParseError>) {
        let mut r = ByteReader::new(bytes);
        let spi: u32 = r.u32_be()?;
        let sequence: u32 = r.u32_be()?;

        let mut fields = FieldMap::new();
        if ctx.keys() {
            fields.insert(SPI, Value::U64(spi as u64));
        }
        if ctx.structural() {
            fields.insert(SEQUENCE, Value::U64(sequence as u64));
        }
        Ok(ParsedLayer { header_len: 8, fields, hint: Hint::Terminal })
    }

    fn claims(&self) -> (r: &'static [RouteId]) {
        &[RouteId::IpProtocol(50)]
    }

    fn stream_identity(&self) -> (r: Option<StreamIdentity>) {
        identity::conversation(
            &[KeyField { a: SPI, b: None }],
            &[RollupSpec { field: SEQUENCE, kind: RollupKind::Sample }],
        )
    }

    fn condense(&self) -> (r: Option<CondenseSpec>) {
        None
    }

    fn has_probe(&self) -> (r: bool) {
        false
    }

    fn probe(&self, bytes: &[u8], ctx: &ParseCtx) -> (r: Option<Confidence>) {
        None
    }

    fn expected_predecessors(&self) -> (r: &'static [ProtocolName]) {
        &[]
    }
}

} // verus!

//! AH (RFC 4302): authenticated but not encrypted, so the header names what follows
//! it. Its length is counted in 4-byte words less two; past the twelve fixed bytes
//! it is the integrity check value.
use vstd::prelude::*;

use crate::bytes::{self, ByteReader, ParseError};
use crate::identity::{self, CondenseSpec, Identity, KeyField, StreamIdentity};
use crate::layer::{Confidence, Context, Hint, LayerPlugin, ParseCtx, Parsed, ParsedLayer, RouteId};
use crate::value::{FieldMap, FieldName, Fields, ProtocolName, Value, ValueView};

verus! {

pub const SPI: FieldName = "spi";

pub const NEXT_HEADER: FieldName = "next_header";

pub const PAYLOAD_LEN: FieldName = "payload_len";

pub const SEQUENCE: FieldName = "sequence";

pub const ICV: FieldName = "icv";

pub const FIXED_HEADER_LEN: usize = 12;

pub open spec fn header_end(b: Seq<u8>) -> int {
    b[1] * 4 + 8
}

pub open spec fn fields(b: Seq<u8>, ctx: Context) -> Fields {
    let f = Map::<Seq<char>, ValueView>::empty();
    let f = if ctx.keys() {
        f.insert(SPI@, ValueView::U64(bytes::be32(b, 4) as u64))
    } else {
        f
    };
    let f = if ctx.structural() {
        f
            .insert(NEXT_HEADER@, ValueView::U64(b[0] as u64))
            .insert(PAYLOAD_LEN@, ValueView::U64(b[1] as u64))
            .insert(SEQUENCE@, ValueView::U64(bytes::be32(b, 8) as u64))
    } else {
        f
    };
    if ctx.full() {
        f.insert(ICV@, ValueView::Bytes(b.subrange(12, header_end(b))))
    } else {
        f
    }
}

/// The header at the start of `b`.
pub open spec fn message(b: Seq<u8>, ctx: Context) -> Result<Parsed, ParseError> {
    if b.len() < 2 {
        Err(bytes::short(b, b.len() as int, 1))
    } else if b.len() < 4 {
        Err(bytes::short(b, 2, 2))
    } else if b.len() < 12 {
        Err(bytes::short(b, b.len() - b.len() % 4, 4))
    } else if header_end(b) < FIXED_HEADER_LEN {
        Err(ParseError::Malformed("AH payload length too small for the fixed header"))
    } else if b.len() < header_end(b) {
        Err(bytes::short(b, 12, header_end(b) - 12))
    } else {
        Ok(
            Parsed {
                header_len: header_end(b),
                fields: fields(b, ctx),
                hint: Hint::Route(RouteId::IpProtocol(b[0])),
            },
        )
    }
}

pub struct Ah;

impl LayerPlugin for Ah {
    open spec fn spec_parse(&self, bytes: Seq<u8>, ctx: Context) -> Result<Parsed, ParseError> {
        message(bytes, ctx)
    }

    open spec fn spec_name(&self) -> Seq<char> {
        "ah"@
    }

    open spec fn spec_claims(&self) -> Seq<RouteId> {
        seq![RouteId::IpProtocol(51)]
    }

    open spec fn spec_identity(&self) -> Option<Identity> {
        identity::conversation_of(
            seq![KeyField { a: SPI, b: None }],
            Seq::empty(),
        )
    }

    open spec fn spec_condense(&self) -> Option<CondenseSpec> {
        None
    }

    open spec fn spec_has_probe(&self) -> bool {
        false
    }

    open spec fn spec_probe(&self, bytes: Seq<u8>, ctx: Context) -> Option<u8> {
        None
    }

    open spec fn spec_predecessors(&self) -> Seq<ProtocolName> {
        Seq::empty()
    }

    fn name(&self) -> (r: ProtocolName) {
        "ah"
    }

    fn parse(&self, bytes: &[u8], ctx: &ParseCtx) -> (r: Result<ParsedLayer, ParseError>) {
        let mut r = ByteReader::new(bytes);
        let next_header: u8 = r.u8()?;
        let payload_len: u8 = r.u8()?;
        let _reserved: u16 = r.u16_be()?;
        let spi: u32 = r.u32_be()?;
        let sequence: u32 = r.u32_be()?;
        let header_len: usize = payload_len as usize * 4 + 8;
        if header_len < FIXED_HEADER_LEN {
            return Err(ParseError::Malformed("AH payload length too small for the fixed header"));
        }
        let icv = r.take(header_len - FIXED_HEADER_LEN)?;

        let mut fields = FieldMap::new();
        if ctx.keys() {
            fields.insert(SPI, Value::U64(spi as u64));
        }
        if ctx.structural() {
            fields.insert(NEXT_HEADER, Value::U64(next_header as u64));
            fields.insert(PAYLOAD_LEN, Value::U64(payload_len as u64));
            fields.insert(SEQUENCE, Value::U64(sequence as u64));
        }
        if ctx.full() {
            fields.insert(ICV, Value::from(icv));
        }
        Ok(ParsedLayer { header_len, fields, hint: Hint::Route(RouteId::IpProtocol(next_header)) })
    }

    fn claims(&self) -> (r: &'static [RouteId]) {
        &[RouteId::IpProtocol(51)]
    }

    fn stream_identity(&self) -> (r: Option<StreamIdentity>) {
        identity::conversation(
            &[KeyField { a: SPI, b: None }],
            &[],
        )
    }

    fn condense(&self) -> (r: Option<CondenseSpec>) {
        None
    }

    fn has_probe(&self) -> (r: bool) {
        false
    }

    fn probe(&self, bytes: &[u8], ctx: &ParseCtx) -> (r: Option<Confidence>) {
        None
    }

    fn expected_predecessors(&self) -> (r: &'static [ProtocolName]) {
        &[]
    }
}

} // verus!

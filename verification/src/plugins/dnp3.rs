//! DNP3 (IEEE 1815): the 10-byte link header and, where the length promises three
//! bytes of user data, the function code behind the transport and application
//! control bytes. Addresses are little-endian; the header's checksum is not verified.
use vstd::prelude::*;

use crate::bytes::{self, ByteReader, ParseError};
use crate::identity::{
    self, CondenseSpec, Identity, KeyField, RollupKind, RollupSpec, StreamIdentity,
};
use crate::layer::{Confidence, Context, Hint, LayerPlugin, ParseCtx, Parsed, ParsedLayer, RouteId};
use crate::value::{FieldMap, FieldName, Fields, ProtocolName, Value, ValueView};

verus! {

pub const START_BYTES: FieldName = "start_bytes";

pub const LENGTH: FieldName = "length";

pub const CONTROL: FieldName = "control";

pub const DESTINATION: FieldName = "destination";

pub const SOURCE: FieldName = "source";

pub const FUNCTION_CODE: FieldName = "function_code";

/// The two sync bytes.
pub const SYNC: u16 = 0x0564;

/// The length counts control, destination and source, and what user data
/// follows.
pub const MIN_LENGTH: u8 = 5;

pub open spec fn has_function(b: Seq<u8>) -> bool {
    b[2] >= MIN_LENGTH + 3
}

pub open spec fn fields(b: Seq<u8>, ctx: Context) -> Fields {
    let f = Map::<Seq<char>, ValueView>::empty();
    let f = if ctx.keys() {
        f
            .insert(SOURCE@, ValueView::U64(bytes::le16(b, 6) as u64))
            .insert(DESTINATION@, ValueView::U64(bytes::le16(b, 4) as u64))
    } else {
        f
    };
    let f = if ctx.structural() {
        f
            .insert(START_BYTES@, ValueView::U64(SYNC as u64))
            .insert(LENGTH@, ValueView::U64(b[2] as u64))
            .insert(CONTROL@, ValueView::U64(b[3] as u64))
    } else {
        f
    };
    if ctx.full() && has_function(b) {
        f.insert(FUNCTION_CODE@, ValueView::U64(b[12] as u64))
    } else {
        f
    }
}

/// The frame at the start of `b`.
pub open spec fn message(b: Seq<u8>, ctx: Context) -> Result<Parsed, ParseError> {
    if b.len() < 2 {
        Err(bytes::short(b, 0, 2))
    } else if bytes::be16(b, 0) != SYNC {
        Err(ParseError::Malformed("DNP3 start bytes are not 0x0564"))
    } else if b.len() < 3 {
        Err(bytes::short(b, 2, 1))
    } else if b[2] < MIN_LENGTH {
        Err(ParseError::Malformed("DNP3 length field too small"))
    } else if b.len() < 4 {
        Err(bytes::short(b, 3, 1))
    } else if b.len() < 10 {
        Err(bytes::short(b, b.len() - b.len() % 2, 2))
    } else if has_function(b) && b.len() < 12 {
        Err(bytes::short(b, 10, 2))
    } else if has_function(b) && b.len() < 13 {
        Err(bytes::short(b, 12, 1))
    } else {
        Ok(
            Parsed {
                header_len: if has_function(b) {
                    13
                } else {
                    10
                },
                fields: fields(b, ctx),
                hint: Hint::Terminal,
            },
        )
    }
}

pub struct Dnp3;

impl LayerPlugin for Dnp3 {
    open spec fn spec_parse(&self, bytes: Seq<u8>, ctx: Context) -> Result<Parsed, ParseError> {
        message(bytes, ctx)
    }

    open spec fn spec_name(&self) -> Seq<char> {
        "dnp3"@
    }

    open spec fn spec_claims(&self) -> Seq<RouteId> {
        seq![RouteId::TcpPort(20000), RouteId::UdpPort(20000)]
    }

    open spec fn spec_identity(&self) -> Option<Identity> {
        identity::conversation_of(
            seq![KeyField { a: SOURCE, b: Some(DESTINATION) }],
            seq![RollupSpec { field: FUNCTION_CODE, kind: RollupKind::Accumulate }],
        )
    }

    open spec fn spec_condense(&self) -> Option<CondenseSpec> {
        None
    }

    open spec fn spec_has_probe(&self) -> bool {
        true
    }

    /// The sync bytes and a length that covers the fixed fields.
    open spec fn spec_probe(&self, bytes: Seq<u8>, ctx: Context) -> Option<u8> {
        if bytes.len() >= 3 && bytes::be16(bytes, 0) == SYNC && bytes[2] >= MIN_LENGTH {
            Some(90u8)
        } else {
            None
        }
    }

    open spec fn spec_predecessors(&self) -> Seq<ProtocolName> {
        Seq::empty()
    }

    fn name(&self) -> (r: ProtocolName) {
        "dnp3"
    }

    fn parse(&self, bytes: &[u8], ctx: &ParseCtx) -> (r: Result<ParsedLayer, ParseError>) {
        let mut r = ByteReader::new(bytes);
        let sync: u16 = r.u16_be()?;
        if sync != SYNC {
            return Err(ParseError::Malformed("DNP3 start bytes are not 0x0564"));
        }
        let length: u8 = r.u8()?;
        if length < MIN_LENGTH {
            return Err(ParseError::Malformed("DNP3 length field too small"));
        }
        let control: u8 = r.u8()?;
        let destination: u16 = r.u16_le()?;
        let source: u16 = r.u16_le()?;
        let _header_crc = r.take(2)?;
        let mut function_code: Option<u8> = None;
        if length - MIN_LENGTH >= 3 {
            let _transport_and_app_control = r.take(2)?;
            function_code = Some(r.u8()?);
        }

        let mut fields = FieldMap::new();
        if ctx.keys() {
            fields.insert(SOURCE, Value::U64(source as u64));
            fields.insert(DESTINATION, Value::U64(destination as u64));
        }
        if ctx.structural() {
            fields.insert(START_BYTES, Value::U64(SYNC as u64));
            fields.insert(LENGTH, Value::U64(length as u64));
            fields.insert(CONTROL, Value::U64(control as u64));
        }
        if ctx.full() {
            if let Some(f) = function_code {
                fields.insert(FUNCTION_CODE, Value::U64(f as u64));
            }
        }
        Ok(ParsedLayer { header_len: r.pos, fields, hint: Hint::Terminal })
    }

    fn claims(&self) -> (r: &'static [RouteId]) {
        &[RouteId::TcpPort(20000), RouteId::UdpPort(20000)]
    }

    fn stream_identity(&self) -> (r: Option<StreamIdentity>) {
        identity::conversation(
            &[KeyField { a: SOURCE, b: Some(DESTINATION) }],
            &[RollupSpec { field: FUNCTION_CODE, kind: RollupKind::Accumulate }],
        )
    }

    fn condense(&self) -> (r: Option<CondenseSpec>) {
        None
    }

    fn has_probe(&self) -> (r: bool) {
        true
    }

    fn probe(&self, bytes: &[u8], ctx: &ParseCtx) -> (r: Option<Confidence>) {
        if bytes.len() < 3 {
            return None;
        }
        let sync: u16 = bytes[0] as u16 * 0x100 + bytes[1] as u16;
        if sync == SYNC && bytes[2] >= MIN_LENGTH {
            Some(Confidence::new(90))
        } else {
            None
        }
    }

    fn expected_predecessors(&self) -> (r: &'static [ProtocolName]) {
        &[]
    }
}

} // verus!
